use processes::error::CollectionError;
use processes::record::{decode, encode};
use processes::sampler::{samples, ProcessRead, ProcessesRaw};
use processes::snapshot::{Processes, SampleEntry};

fn read_processes() -> Option<Vec<ProcessRead>> {
    let listing = match procfs::process::all_processes() {
        Ok(listing) => listing,
        Err(_) => return None,
    };
    let mut reads = Vec::new();
    for process in listing {
        let read = match process.and_then(|process| process.stat()) {
            Ok(stat) => ProcessRead::Stat {
                name: stat.comm,
                pid: stat.pid as u64,
                utime: stat.utime,
                stime: stat.stime,
            },
            Err(_) => ProcessRead::Vanished,
        };
        reads.push(read);
    }
    Some(reads)
}

fn stat(name: &str, pid: u64, utime: u64, stime: u64) -> ProcessRead {
    ProcessRead::Stat { name: name.to_string(), pid, utime, stime }
}

fn prepared() -> ProcessesRaw {
    let mut raw = ProcessesRaw::new();
    raw.prepare_data_collector(100);
    raw
}

#[test]
fn test_collect_data() {
    let mut processes = ProcessesRaw::new();
    assert!(processes.prepare_data_collector(procfs::ticks_per_second().unwrap()) == ());
    assert!(processes.collect_data(read_processes()).unwrap() == ());
    assert!(!processes.data.is_empty());
}

#[test]
fn test_process_raw_data() {
    let mut buffer: Vec<ProcessesRaw> = Vec::<ProcessesRaw>::new();
    let mut processes_zero = ProcessesRaw::new();
    let mut processes_one = ProcessesRaw::new();
    let mut processed_buffer: Vec<Processes> = Vec::<Processes>::new();

    assert!(processes_zero.prepare_data_collector(procfs::ticks_per_second().unwrap()) == ());
    assert!(processes_one.prepare_data_collector(procfs::ticks_per_second().unwrap()) == ());
    processes_zero.collect_data(read_processes()).unwrap();
    processes_one.collect_data(read_processes()).unwrap();

    buffer.push(processes_zero);
    buffer.push(processes_one);
    for buf in buffer {
        processed_buffer.push(Processes::new().process_raw_data(buf).unwrap());
    }
    assert!(processed_buffer.len() > 0, "{:#?}", processed_buffer);
}

#[test]
fn a_new_sampler_is_empty_and_unprepared() {
    let raw = ProcessesRaw::new();
    assert!(raw.data.is_empty());
    assert_eq!(raw.ticks_per_second, 0);
}

#[test]
fn the_clock_is_read_when_a_sampler_is_made() {
    // 2020-01-01T00:00:00Z
    assert!(ProcessesRaw::new().time > 1_577_836_800);
    assert!(Processes::new().time > 1_577_836_800);
}

#[test]
fn the_tick_rate_is_set_once() {
    let mut raw = ProcessesRaw::new();
    raw.prepare_data_collector(100);
    assert_eq!(raw.ticks_per_second, 100);
    raw.prepare_data_collector(250);
    assert_eq!(raw.ticks_per_second, 100);
}

#[test]
fn a_snapshot_has_one_line_per_process() {
    let mut raw = prepared();
    let listing = vec![stat("init", 1, 30, 12), stat("kthreadd", 2, 0, 7)];
    assert_eq!(raw.store_snapshot(1_700_000_000, Some(listing)), Ok(()));
    assert_eq!(raw.time, 1_700_000_000);
    assert_eq!(raw.ticks_per_second, 100);
    assert_eq!(raw.data, "init;1;42\nkthreadd;2;7\n");
}

#[test]
fn collecting_stamps_the_snapshot_with_the_current_time() {
    let mut raw = prepared();
    raw.time = 0;
    assert_eq!(raw.collect_data(Some(vec![stat("init", 1, 1, 1)])), Ok(()));
    assert!(raw.time > 1_577_836_800);
    assert_eq!(raw.data, "init;1;2\n");
}

#[test]
fn a_process_that_has_gone_is_skipped() {
    let mut raw = prepared();
    let listing = vec![stat("a", 5, 1, 2), ProcessRead::Vanished, stat("b", 6, 3, 4)];
    assert_eq!(raw.store_snapshot(10, Some(listing)), Ok(()));
    assert_eq!(raw.data, "a;5;3\nb;6;7\n");
}

#[test]
fn no_process_gives_an_empty_snapshot() {
    let mut raw = prepared();
    raw.data = "stale;1;1\n".to_string();
    assert_eq!(raw.store_snapshot(10, Some(Vec::new())), Ok(()));
    assert_eq!(raw.data, "");
}

#[test]
fn a_failed_listing_fails_the_tick() {
    let mut raw = prepared();
    raw.data = "stale;1;1\n".to_string();
    assert_eq!(raw.store_snapshot(10, None), Err(CollectionError::EnumerationFailed));
    assert_eq!(raw.data, "");
    assert_eq!(raw.collect_data(None), Err(CollectionError::EnumerationFailed));
}

#[test]
fn ticks_that_do_not_add_up_fail_the_tick() {
    let mut raw = prepared();
    let listing = vec![stat("a", 5, 1, 2), stat("b", 6, u64::MAX, 1)];
    assert_eq!(raw.store_snapshot(10, Some(listing)), Err(CollectionError::TicksOverflow));
    assert_eq!(raw.data, "");
    assert_eq!(samples(&vec![stat("b", 6, u64::MAX, 1)]), Err(CollectionError::TicksOverflow));
}

#[test]
fn ticks_at_the_limit_still_add_up() {
    let entries = samples(&vec![stat("b", 6, u64::MAX - 1, 1)]).unwrap();
    assert_eq!(entries, vec![SampleEntry { name: "b".to_string(), pid: 6, cpu_time: u64::MAX }]);
}

#[test]
fn what_is_collected_decodes_to_what_was_read() {
    let mut raw = prepared();
    let listing = vec![stat("init", 1, 30, 12), ProcessRead::Vanished, stat("sh -c", 77, 0, 0)];
    raw.store_snapshot(10, Some(listing.clone())).unwrap();
    let entries = samples(&listing).unwrap();
    assert_eq!(raw.data, encode(&entries));
    assert_eq!(decode(&raw.data), Ok(entries));
}

#[test]
fn a_stamped_snapshot_holds_its_time_and_nothing_else() {
    let raw = ProcessesRaw::stamped(1_700_000_123);
    assert_eq!(raw.time, 1_700_000_123);
    assert!(raw.data.is_empty());
    assert_eq!(raw.ticks_per_second, 0);
    let processes = Processes::stamped(-42);
    assert_eq!(processes.time, -42);
    assert!(processes.entries.is_empty());
}
