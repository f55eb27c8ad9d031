//! Ranking: utilization series ordered by the ticks they consumed, largest
//! first, and cut down to the top of the list.
//!
//! The order is stable: series with equal totals keep the order they had.

use vstd::prelude::*;
use crate::series::{EndEntry, Utilization};

verus! {

/// A ranking longer than this is cut down.
pub const RANKING_LIMIT: usize = 16;

/// The number of series a cut-down ranking keeps.
pub const RANKING_KEPT: usize = 15;

/// The series of a vector of series.
pub open spec fn series_view(entries: Seq<EndEntry>) -> Seq<Utilization> {
    Seq::new(entries.len(), |i: int| entries[i]@)
}

/// `ranked` with `entry` placed behind the last series whose total is not
/// smaller than its own.
pub open spec fn insert_ranked(ranked: Seq<Utilization>, entry: Utilization) -> Seq<Utilization>
    decreases ranked.len(),
{
    if ranked.len() == 0 {
        seq![entry]
    } else if ranked.last().total_cpu_time >= entry.total_cpu_time {
        ranked.push(entry)
    } else {
        insert_ranked(ranked.drop_last(), entry).push(ranked.last())
    }
}

/// `entries` ordered by total, largest first, equal totals in their old order.
pub open spec fn ranked(entries: Seq<Utilization>) -> Seq<Utilization>
    decreases entries.len(),
{
    if entries.len() == 0 {
        Seq::empty()
    } else {
        insert_ranked(ranked(entries.drop_last()), entries.last())
    }
}

/// A ranking of more than sixteen series keeps its first fifteen; a shorter
/// one is kept whole.
pub open spec fn capped(entries: Seq<Utilization>) -> Seq<Utilization> {
    if entries.len() > RANKING_LIMIT {
        entries.take(RANKING_KEPT as int)
    } else {
        entries
    }
}

/// No series has a larger total than one before it.
pub open spec fn descending(entries: Seq<Utilization>) -> bool {
    forall|i: int, j: int|
        0 <= i <= j < entries.len() ==> (#[trigger] entries[i]).total_cpu_time >= (
        #[trigger] entries[j]).total_cpu_time
}

/// Every series has a smaller total than each one before it.
pub open spec fn strictly_descending(entries: Seq<Utilization>) -> bool {
    forall|i: int, j: int|
        0 <= i < j < entries.len() ==> (#[trigger] entries[i]).total_cpu_time > (
        #[trigger] entries[j]).total_cpu_time
}

/// No two series have the same total.
pub open spec fn totals_differ(entries: Seq<Utilization>) -> bool {
    forall|i: int, j: int|
        0 <= i < j < entries.len() ==> (#[trigger] entries[i]).total_cpu_time != (
        #[trigger] entries[j]).total_cpu_time
}

/// The series of `entries` whose total is `total`, in their order.
pub open spec fn with_total(entries: Seq<Utilization>, total: nat) -> Seq<Utilization> {
    entries.filter(|entry: Utilization| entry.total_cpu_time == total)
}

/// Where `insert_ranked` puts a series: behind `at` series, when all later
/// ones have a smaller total and the one just before has not.
pub proof fn lemma_insert_ranked_at(ranked: Seq<Utilization>, entry: Utilization, at: int)
    requires
        0 <= at <= ranked.len(),
        forall|k: int|
            at <= k < ranked.len() ==> (#[trigger] ranked[k]).total_cpu_time
                < entry.total_cpu_time,
        at > 0 ==> ranked[at - 1].total_cpu_time >= entry.total_cpu_time,
    ensures
        insert_ranked(ranked, entry) == ranked.insert(at, entry),
    decreases ranked.len(),
{
    if ranked.len() == 0 {
        assert(seq![entry] =~= ranked.insert(at, entry));
    } else if at == ranked.len() {
        assert(ranked.push(entry) =~= ranked.insert(at, entry));
    } else {
        let front = ranked.drop_last();
        assert(ranked[ranked.len() - 1].total_cpu_time < entry.total_cpu_time);
        assert forall|k: int| at <= k < front.len() implies (#[trigger] front[k]).total_cpu_time
            < entry.total_cpu_time by {
            assert(front[k] == ranked[k]);
        }
        lemma_insert_ranked_at(front, entry, at);
        assert(front.insert(at, entry).push(ranked.last()) =~= ranked.insert(at, entry));
    }
}

/// `insert_ranked` adds one series and keeps the others.
pub proof fn lemma_insert_ranked_holds(ranked: Seq<Utilization>, entry: Utilization)
    ensures
        insert_ranked(ranked, entry).len() == ranked.len() + 1,
        insert_ranked(ranked, entry).to_multiset() == ranked.to_multiset().insert(entry),
    decreases ranked.len(),
{
    broadcast use vstd::seq_lib::group_to_multiset_ensures;

    if ranked.len() == 0 {
        assert(seq![entry] =~= Seq::<Utilization>::empty().push(entry));
        assert(ranked =~= Seq::<Utilization>::empty());
    } else if ranked.last().total_cpu_time >= entry.total_cpu_time {
    } else {
        let front = ranked.drop_last();
        lemma_insert_ranked_holds(front, entry);
        assert(front.push(ranked.last()) =~= ranked);
        assert(insert_ranked(ranked, entry).to_multiset() =~= ranked.to_multiset().insert(entry));
    }
}

/// A ranking holds the series it was made from, each as often as it was given.
pub proof fn lemma_ranked_holds(entries: Seq<Utilization>)
    ensures
        ranked(entries).len() == entries.len(),
        ranked(entries).to_multiset() == entries.to_multiset(),
    decreases entries.len(),
{
    broadcast use vstd::seq_lib::group_to_multiset_ensures;

    if entries.len() > 0 {
        let front = entries.drop_last();
        lemma_ranked_holds(front);
        lemma_insert_ranked_holds(ranked(front), entries.last());
        assert(front.push(entries.last()) =~= entries);
    } else {
        assert(entries =~= Seq::<Utilization>::empty());
    }
}

/// Every series of a ranking is one of the series it was made from.
pub proof fn lemma_ranked_members(entries: Seq<Utilization>, place: int)
    requires
        0 <= place < ranked(entries).len(),
    ensures
        entries.contains(ranked(entries)[place]),
{
    broadcast use vstd::seq_lib::group_to_multiset_ensures;

    lemma_ranked_holds(entries);
    let found = ranked(entries)[place];
    assert(ranked(entries).contains(found));
    assert(ranked(entries).to_multiset().count(found) > 0);
}

/// A cut ranking is the front of the ranking: fifteen series of more than
/// sixteen, all of them otherwise.
pub proof fn lemma_capped_front(entries: Seq<Utilization>)
    ensures
        capped(entries).len() == if entries.len() > 16 {
            15
        } else {
            entries.len()
        },
        forall|place: int|
            0 <= place < capped(entries).len() ==> #[trigger] capped(entries)[place]
                == entries[place],
{
}

/// `insert_ranked` keeps a descending sequence descending.
pub proof fn lemma_insert_ranked_descending(ranked: Seq<Utilization>, entry: Utilization)
    requires
        descending(ranked),
    ensures
        descending(insert_ranked(ranked, entry)),
    decreases ranked.len(),
{
    if ranked.len() > 0 && ranked.last().total_cpu_time < entry.total_cpu_time {
        let front = ranked.drop_last();
        assert forall|i: int, j: int| 0 <= i <= j < front.len() implies (
        #[trigger] front[i]).total_cpu_time >= (#[trigger] front[j]).total_cpu_time by {
            assert(ranked[i].total_cpu_time >= ranked[j].total_cpu_time);
        }
        lemma_insert_ranked_descending(front, entry);
        lemma_insert_ranked_holds(front, entry);
        let inner = insert_ranked(front, entry);
        let after = insert_ranked(ranked, entry);
        assert forall|i: int, j: int| 0 <= i <= j < after.len() implies (
        #[trigger] after[i]).total_cpu_time >= (#[trigger] after[j]).total_cpu_time by {
            if j < inner.len() {
                assert(inner[i].total_cpu_time >= inner[j].total_cpu_time);
            } else if i < inner.len() {
                lemma_insert_ranked_floor(front, entry, ranked.last().total_cpu_time);
                assert forall|k: int| 0 <= k < front.len() implies (
                #[trigger] front[k]).total_cpu_time >= ranked.last().total_cpu_time by {
                    assert(ranked[k].total_cpu_time >= ranked[ranked.len() - 1].total_cpu_time);
                }
            }
        }
    } else if ranked.len() > 0 {
        let after = insert_ranked(ranked, entry);
        assert forall|i: int, j: int| 0 <= i <= j < after.len() implies (
        #[trigger] after[i]).total_cpu_time >= (#[trigger] after[j]).total_cpu_time by {
            if j < ranked.len() {
                assert(ranked[i].total_cpu_time >= ranked[j].total_cpu_time);
            } else if i < ranked.len() {
                assert(ranked[i].total_cpu_time >= ranked[ranked.len() - 1].total_cpu_time);
            }
        }
    }
}

/// A lower bound on the totals of a sequence and of a series holds after
/// the series is inserted.
pub proof fn lemma_insert_ranked_floor(ranked: Seq<Utilization>, entry: Utilization, floor: nat)
    requires
        entry.total_cpu_time >= floor,
    ensures
        (forall|k: int| 0 <= k < ranked.len() ==> (#[trigger] ranked[k]).total_cpu_time >= floor)
            ==> (forall|k: int|
            0 <= k < insert_ranked(ranked, entry).len() ==> (#[trigger] insert_ranked(
                ranked,
                entry,
            )[k]).total_cpu_time >= floor),
    decreases ranked.len(),
{
    if forall|k: int| 0 <= k < ranked.len() ==> (#[trigger] ranked[k]).total_cpu_time >= floor {
        if ranked.len() > 0 && ranked.last().total_cpu_time < entry.total_cpu_time {
            let front = ranked.drop_last();
            assert forall|k: int| 0 <= k < front.len() implies (
            #[trigger] front[k]).total_cpu_time >= floor by {
                assert(front[k] == ranked[k]);
            }
            lemma_insert_ranked_floor(front, entry, floor);
            lemma_insert_ranked_holds(front, entry);
            let after = insert_ranked(ranked, entry);
            assert forall|k: int| 0 <= k < after.len() implies (
            #[trigger] after[k]).total_cpu_time >= floor by {
                if k < front.len() + 1 {
                    assert(after[k] == insert_ranked(front, entry)[k]);
                } else {
                    assert(after[k] == ranked[ranked.len() - 1]);
                }
            }
        } else {
            let after = insert_ranked(ranked, entry);
            assert forall|k: int| 0 <= k < after.len() implies (
            #[trigger] after[k]).total_cpu_time >= floor by {
                if k < ranked.len() {
                    assert(after[k] == ranked[k]);
                }
            }
        }
    }
}

/// A ranking is descending by total.
pub proof fn lemma_ranked_descending(entries: Seq<Utilization>)
    ensures
        descending(ranked(entries)),
    decreases entries.len(),
{
    if entries.len() > 0 {
        lemma_ranked_descending(entries.drop_last());
        lemma_insert_ranked_descending(ranked(entries.drop_last()), entries.last());
    }
}

/// Among the series with one total, `insert_ranked` puts the new one last.
pub proof fn lemma_insert_ranked_stable(ranked: Seq<Utilization>, entry: Utilization, total: nat)
    ensures
        with_total(insert_ranked(ranked, entry), total) == if entry.total_cpu_time == total {
            with_total(ranked, total).push(entry)
        } else {
            with_total(ranked, total)
        },
    decreases ranked.len(),
{
    let keep = |entry: Utilization| entry.total_cpu_time == total;
    if ranked.len() == 0 {
        assert(ranked =~= Seq::<Utilization>::empty());
        lemma_filter_push(Seq::<Utilization>::empty(), entry, total);
        assert(Seq::<Utilization>::empty().push(entry) =~= seq![entry]);
    } else if ranked.last().total_cpu_time >= entry.total_cpu_time {
        lemma_filter_push(ranked, entry, total);
    } else {
        let front = ranked.drop_last();
        lemma_insert_ranked_stable(front, entry, total);
        lemma_filter_push(insert_ranked(front, entry), ranked.last(), total);
        lemma_filter_push(front, ranked.last(), total);
        assert(front.push(ranked.last()) =~= ranked);
    }
}

/// The series with one total, after one more series is appended.
pub proof fn lemma_filter_push(entries: Seq<Utilization>, entry: Utilization, total: nat)
    ensures
        with_total(entries.push(entry), total) == if entry.total_cpu_time == total {
            with_total(entries, total).push(entry)
        } else {
            with_total(entries, total)
        },
{
    reveal(Seq::filter);
    assert(entries.push(entry).drop_last() =~= entries);
}

/// Ranking is stable: the series with one total are ranked in the order in
/// which they were given.
pub proof fn lemma_ranked_stable(entries: Seq<Utilization>, total: nat)
    ensures
        with_total(ranked(entries), total) == with_total(entries, total),
    decreases entries.len(),
{
    if entries.len() > 0 {
        let front = entries.drop_last();
        lemma_ranked_stable(front, total);
        lemma_insert_ranked_stable(ranked(front), entries.last(), total);
        lemma_filter_push(front, entries.last(), total);
        assert(front.push(entries.last()) =~= entries);
    } else {
        reveal(Seq::filter);
    }
}

/// Series whose totals all differ are ranked strictly descending.
pub proof fn lemma_ranked_strictly_descending(entries: Seq<Utilization>)
    requires
        totals_differ(entries),
    ensures
        strictly_descending(ranked(entries)),
{
    lemma_ranked_descending(entries);
    lemma_ranked_holds(entries);
    let sorted = ranked(entries);
    assert forall|i: int, j: int| 0 <= i < j < sorted.len() implies (
    #[trigger] sorted[i]).total_cpu_time > (#[trigger] sorted[j]).total_cpu_time by {
        assert(sorted[i].total_cpu_time >= sorted[j].total_cpu_time);
        if sorted[i].total_cpu_time == sorted[j].total_cpu_time {
            let total = sorted[i].total_cpu_time;
            lemma_ranked_stable(entries, total);
            lemma_two_with_total(sorted, i, j);
            lemma_one_with_total(entries, total);
        }
    }
}

/// Two places with the same total make at least two series with that total.
proof fn lemma_two_with_total(entries: Seq<Utilization>, i: int, j: int)
    requires
        0 <= i < j < entries.len(),
        entries[i].total_cpu_time == entries[j].total_cpu_time,
    ensures
        with_total(entries, entries[i].total_cpu_time).len() >= 2,
    decreases entries.len(),
{
    let total = entries[i].total_cpu_time;
    let front = entries.drop_last();
    lemma_filter_push(front, entries.last(), total);
    assert(front.push(entries.last()) =~= entries);
    if j == entries.len() - 1 {
        lemma_some_with_total(front, i);
    } else {
        lemma_two_with_total(front, i, j);
    }
}

/// A place with a total makes at least one series with that total.
proof fn lemma_some_with_total(entries: Seq<Utilization>, i: int)
    requires
        0 <= i < entries.len(),
    ensures
        with_total(entries, entries[i].total_cpu_time).len() >= 1,
    decreases entries.len(),
{
    let total = entries[i].total_cpu_time;
    let front = entries.drop_last();
    lemma_filter_push(front, entries.last(), total);
    assert(front.push(entries.last()) =~= entries);
    if i < entries.len() - 1 {
        lemma_some_with_total(front, i);
    }
}

/// Where all totals differ, at most one series has a given total.
proof fn lemma_one_with_total(entries: Seq<Utilization>, total: nat)
    requires
        totals_differ(entries),
    ensures
        with_total(entries, total).len() <= 1,
    decreases entries.len(),
{
    if entries.len() == 0 {
        reveal(Seq::filter);
    } else {
        let front = entries.drop_last();
        lemma_filter_push(front, entries.last(), total);
        assert(front.push(entries.last()) =~= entries);
        assert forall|i: int, j: int| 0 <= i < j < front.len() implies (
        #[trigger] front[i]).total_cpu_time != (#[trigger] front[j]).total_cpu_time by {
            assert(entries[i].total_cpu_time != entries[j].total_cpu_time);
        }
        lemma_one_with_total(front, total);
        if entries.last().total_cpu_time == total && with_total(front, total).len() == 1 {
            let found = with_total(front, total)[0];
            assert(with_total(front, total).contains(found));
            assert(front.contains(found) && found.total_cpu_time == total) by {
                reveal(Seq::filter);
                front.lemma_filter_contains_rev(|entry: Utilization| entry.total_cpu_time == total, found);
            }
            let k = choose|k: int| 0 <= k < front.len() && front[k] == found;
            assert(entries[k].total_cpu_time != entries[entries.len() - 1].total_cpu_time);
        }
    }
}

/// Orders the series by total, largest first; series with equal totals keep
/// their order.
pub fn rank(entries: Vec<EndEntry>) -> (sorted: Vec<EndEntry>)
    ensures
        series_view(sorted@) == ranked(series_view(entries@)),
{
    let ghost given = series_view(entries@);
    let mut sorted = entries;
    let mut done: usize = 0;
    proof {
        assert(given.take(0) =~= Seq::<Utilization>::empty());
        assert(series_view(sorted@) =~= ranked(given.take(0)) + given.skip(0));
    }
    while done < sorted.len()
        invariant
            done <= sorted.len(),
            sorted.len() == given.len(),
            series_view(sorted@) == ranked(given.take(done as int)) + given.skip(done as int),
            ranked(given.take(done as int)).len() == done,
        decreases sorted.len() - done,
    {
        let ghost front = ranked(given.take(done as int));
        let ghost before = series_view(sorted@);
        let ghost held = sorted@;
        let entry = sorted.remove(done);
        proof {
            assert(entry@ == before[done as int]);
            assert(entry@ == given[done as int]);
            let rest = front + given.skip(done + 1);
            assert(sorted@ == held.remove(done as int));
            assert forall|k: int| 0 <= k < rest.len() implies series_view(sorted@)[k] == rest[k] by {
                if k < done {
                    assert(sorted@[k] == held[k]);
                    assert(before[k] == held[k]@);
                } else {
                    assert(sorted@[k] == held[k + 1]);
                    assert(before[k + 1] == held[k + 1]@);
                }
            }
            assert(series_view(sorted@) =~= rest);
        }
        let mut at: usize = done;
        while at > 0 && sorted[at - 1].total_cpu_time < entry.total_cpu_time
            invariant
                at <= done <= sorted.len(),
                series_view(sorted@) == front + given.skip(done + 1),
                front.len() == done,
                forall|k: int|
                    at <= k < done ==> (#[trigger] front[k]).total_cpu_time
                        < entry@.total_cpu_time,
            decreases at,
        {
            proof {
                assert(series_view(sorted@)[at - 1] == front[at - 1]);
            }
            at -= 1;
        }
        proof {
            if at > 0 {
                assert(series_view(sorted@)[at - 1] == front[at - 1]);
            }
            lemma_insert_ranked_at(front, entry@, at as int);
            let next = given.take(done + 1);
            assert(next.drop_last() =~= given.take(done as int));
            assert(next.last() == entry@);
            assert(ranked(next) == front.insert(at as int, entry@));
        }
        let ghost short = sorted@;
        let ghost rest = series_view(short);
        sorted.insert(at, entry);
        proof {
            let next = front.insert(at as int, entry@) + given.skip(done + 1);
            assert(sorted@ == short.insert(at as int, entry));
            assert forall|k: int| 0 <= k < next.len() implies series_view(sorted@)[k] == next[k] by {
                if k < at {
                    assert(sorted@[k] == short[k]);
                    assert(rest[k] == short[k]@);
                } else if k > at {
                    assert(sorted@[k] == short[k - 1]);
                    assert(rest[k - 1] == short[k - 1]@);
                }
            }
            assert(series_view(sorted@) =~= next);
        }
        done += 1;
    }
    proof {
        assert(given.take(done as int) =~= given);
        assert(series_view(sorted@) =~= ranked(given));
    }
    sorted
}

/// Cuts a ranking of more than sixteen series down to its first fifteen.
pub fn cap(entries: &mut Vec<EndEntry>)
    ensures
        series_view(final(entries)@) == capped(series_view(old(entries)@)),
{
    if entries.len() > RANKING_LIMIT {
        entries.truncate(RANKING_KEPT);
    }
    proof {
        assert(series_view(entries@) =~= capped(series_view(old(entries)@)));
    }
}

} // verus!
