//! The text form of a snapshot: one line per process, made of the name, the
//! pid and the cumulative ticks, separated by semicolons.
//!
//! Decoding is all or nothing: one malformed line invalidates the text.
//! A line ends at a line feed; a carriage return just before the line feed
//! belongs to the line end. Fields after the third are ignored.

use vstd::prelude::*;
use vstd::slice::slice_subrange;
use crate::decimal::{
    all_digits, chars_of, decimal_digits, is_digit, lemma_decimal_digits,
    lemma_parse_decimal_digits, parse_u64, parsed_u64, push_decimal,
};
use crate::error::ParseError;
use crate::snapshot::{records_view, SampleEntry, SampleRecord};

verus! {

/// The index of the first `mark` in `text`, or the length of `text` when
/// there is none.
pub open spec fn first_index(text: Seq<char>, mark: char) -> int
    decreases text.len(),
{
    if text.len() == 0 {
        0
    } else if text[0] == mark {
        0
    } else {
        1 + first_index(text.drop_first(), mark)
    }
}

/// The line without the carriage return that may end it.
pub open spec fn without_return(line: Seq<char>) -> Seq<char> {
    if line.len() > 0 && line.last() == '\r' {
        line.drop_last()
    } else {
        line
    }
}

/// The sample that a line writes, if it writes one.
pub open spec fn decoded_record(line: Seq<char>) -> Option<SampleRecord> {
    let name_end = first_index(line, ';');
    if 0 <= name_end < line.len() {
        let after_name = line.skip(name_end + 1);
        let pid_end = first_index(after_name, ';');
        if 0 <= pid_end < after_name.len() {
            let after_pid = after_name.skip(pid_end + 1);
            let ticks_end = first_index(after_pid, ';');
            match (parsed_u64(after_name.take(pid_end)), parsed_u64(after_pid.take(ticks_end))) {
                (Some(pid), Some(cpu_time)) => Some(
                    SampleRecord { name: line.take(name_end), pid, cpu_time },
                ),
                _ => None,
            }
        } else {
            None
        }
    } else {
        None
    }
}

/// The samples that a text writes, one per line, if every line writes one.
pub open spec fn decoded(text: Seq<char>) -> Option<Seq<SampleRecord>>
    decreases text.len(),
{
    if text.len() == 0 {
        Some(Seq::empty())
    } else {
        let end = first_index(text, '\n');
        if 0 <= end < text.len() {
            match (decoded_record(without_return(text.take(end))), decoded(text.skip(end + 1))) {
                (Some(record), Some(records)) => Some(seq![record] + records),
                _ => None,
            }
        } else {
            match decoded_record(text) {
                Some(record) => Some(seq![record]),
                None => None,
            }
        }
    }
}

/// `first_index` is the first place at which the mark stands.
pub proof fn lemma_first_index(text: Seq<char>, mark: char, at: int)
    requires
        0 <= at <= text.len(),
        forall|k: int| 0 <= k < at ==> #[trigger] text[k] != mark,
        at < text.len() ==> text[at] == mark,
    ensures
        first_index(text, mark) == at,
    decreases text.len(),
{
    if text.len() > 0 && at > 0 {
        let rest = text.drop_first();
        assert forall|k: int| 0 <= k < at - 1 implies #[trigger] rest[k] != mark by {
            assert(rest[k] == text[k + 1]);
        }
        lemma_first_index(rest, mark, at - 1);
    }
}

/// Finds the first `mark` among the characters from `from` up to `to`.
fn find(chars: &Vec<char>, from: usize, to: usize, mark: char) -> (at: usize)
    requires
        from <= to <= chars.len(),
    ensures
        from <= at <= to,
        at - from == first_index(chars@.subrange(from as int, to as int), mark),
{
    let mut at: usize = from;
    while at < to && chars[at] != mark
        invariant
            from <= at <= to <= chars.len(),
            forall|k: int| from <= k < at ==> #[trigger] chars@[k] != mark,
        decreases to - at,
    {
        at += 1;
    }
    proof {
        let part = chars@.subrange(from as int, to as int);
        assert forall|k: int| 0 <= k < at - from implies #[trigger] part[k] != mark by {
            assert(part[k] == chars@[k + from]);
        }
        lemma_first_index(part, mark, at - from);
    }
    at
}

/// Decodes the line made of the characters from `from` up to `to`.
fn decode_record(text: &str, chars: &Vec<char>, from: usize, to: usize) -> (entry: Result<
    SampleEntry,
    ParseError,
>)
    requires
        chars@ == text@,
        from <= to <= chars.len(),
    ensures
        match decoded_record(chars@.subrange(from as int, to as int)) {
            Some(record) => entry matches Ok(held) && held@ == record,
            None => entry is Err,
        },
{
    let ghost line = chars@.subrange(from as int, to as int);
    let name_end = find(chars, from, to, ';');
    if name_end == to {
        return Err(ParseError::MalformedRecord);
    }
    let ghost after_name = line.skip(name_end - from + 1);
    proof {
        assert(after_name =~= chars@.subrange(name_end + 1, to as int));
    }
    let pid_end = find(chars, name_end + 1, to, ';');
    if pid_end == to {
        return Err(ParseError::MalformedRecord);
    }
    let ghost after_pid = after_name.skip(pid_end - name_end);
    proof {
        assert(after_pid =~= chars@.subrange(pid_end + 1, to as int));
    }
    let ticks_end = find(chars, pid_end + 1, to, ';');
    let pid_field = slice_subrange(chars.as_slice(), name_end + 1, pid_end);
    let ticks_field = slice_subrange(chars.as_slice(), pid_end + 1, ticks_end);
    proof {
        assert(pid_field@ =~= after_name.take(pid_end - name_end - 1));
        assert(ticks_field@ =~= after_pid.take(ticks_end - pid_end - 1));
        assert(text@.subrange(from as int, name_end as int) =~= line.take(name_end - from));
    }
    let pid = match parse_u64(pid_field) {
        Some(pid) => pid,
        None => {
            return Err(ParseError::MalformedRecord);
        },
    };
    let cpu_time = match parse_u64(ticks_field) {
        Some(cpu_time) => cpu_time,
        None => {
            return Err(ParseError::MalformedRecord);
        },
    };
    let name = text.substring_char(from, name_end).to_owned();
    Ok(SampleEntry { name, pid, cpu_time })
}

/// Decodes the text of a snapshot.
///
/// Fails exactly when some line does not write a sample.
pub fn decode(text: &str) -> (entries: Result<Vec<SampleEntry>, ParseError>)
    ensures
        match decoded(text@) {
            Some(records) => entries matches Ok(held) && records_view(held@) == records,
            None => entries == Err::<Vec<SampleEntry>, ParseError>(ParseError::MalformedRecord),
        },
{
    let chars = chars_of(text);
    let mut entries: Vec<SampleEntry> = Vec::new();
    let mut start: usize = 0;
    proof {
        assert(chars@.skip(0) =~= chars@);
        assert(records_view(entries@) =~= Seq::<SampleRecord>::empty());
        match decoded(chars@) {
            Some(rest) => {
                assert(Seq::<SampleRecord>::empty() + rest =~= rest);
            },
            None => {},
        }
    }
    while start < chars.len()
        invariant
            start <= chars.len(),
            chars@ == text@,
            decoded(text@) == match decoded(chars@.skip(start as int)) {
                Some(rest) => Some(records_view(entries@) + rest),
                None => None,
            },
        decreases chars.len() - start,
    {
        let ghost tail = chars@.skip(start as int);
        let ghost seen = records_view(entries@);
        proof {
            assert(tail =~= chars@.subrange(start as int, chars.len() as int));
        }
        let end = find(&chars, start, chars.len(), '\n');
        let terminated = end < chars.len();
        let stop = if terminated && end > start && chars[end - 1] == '\r' {
            end - 1
        } else {
            end
        };
        let next = if terminated {
            end + 1
        } else {
            end
        };
        proof {
            if terminated {
                assert(tail.take(end - start) =~= chars@.subrange(start as int, end as int));
                assert(without_return(tail.take(end - start)) =~= chars@.subrange(
                    start as int,
                    stop as int,
                ));
                assert(tail.skip(end - start + 1) =~= chars@.skip(next as int));
            } else {
                assert(tail =~= chars@.subrange(start as int, stop as int));
                assert(chars@.skip(next as int) =~= Seq::<char>::empty());
            }
        }
        match decode_record(text, &chars, start, stop) {
            Ok(entry) => {
                proof {
                    let rest = decoded(chars@.skip(next as int));
                    assert(records_view(entries@.push(entry)) =~= seen + seq![entry@]);
                    match rest {
                        Some(more) => {
                            assert(seen + (seq![entry@] + more) =~= (seen + seq![entry@]) + more);
                            assert(seq![entry@] + Seq::<SampleRecord>::empty() =~= seq![entry@]);
                        },
                        None => {},
                    }
                }
                entries.push(entry);
            },
            Err(error) => {
                return Err(ParseError::MalformedRecord);
            },
        }
        start = next;
    }
    proof {
        assert(chars@.skip(start as int) =~= Seq::<char>::empty());
        assert(records_view(entries@) + Seq::<SampleRecord>::empty() =~= records_view(entries@));
    }
    Ok(entries)
}

/// The pid and the tick count of a sample as the two last fields of a line.
pub open spec fn encoded_counters(record: SampleRecord) -> Seq<char> {
    decimal_digits(record.pid as nat) + seq![';'] + decimal_digits(record.cpu_time as nat)
}

/// The line that writes a sample, without its line feed.
pub open spec fn encoded_line(record: SampleRecord) -> Seq<char> {
    record.name + seq![';'] + encoded_counters(record)
}

/// The line that writes a sample, with its line feed.
pub open spec fn encoded_record(record: SampleRecord) -> Seq<char> {
    encoded_line(record) + seq!['\n']
}

/// The text that writes the samples, one line each, in order.
pub open spec fn encoded(records: Seq<SampleRecord>) -> Seq<char>
    decreases records.len(),
{
    if records.len() == 0 {
        Seq::empty()
    } else {
        encoded_record(records[0]) + encoded(records.drop_first())
    }
}

/// Whether the text holds no `mark`.
pub open spec fn free_of(text: Seq<char>, mark: char) -> bool {
    forall|i: int| 0 <= i < text.len() ==> #[trigger] text[i] != mark
}

/// A name that the text form can carry: it holds neither a semicolon nor a
/// line feed.
pub open spec fn plain_name(name: Seq<char>) -> bool {
    free_of(name, ';') && free_of(name, '\n')
}

/// The text of one more sample goes behind the text of the others.
pub proof fn lemma_encoded_push(records: Seq<SampleRecord>, record: SampleRecord)
    ensures
        encoded(records.push(record)) == encoded(records) + encoded_record(record),
    decreases records.len(),
{
    let longer = records.push(record);
    if records.len() == 0 {
        assert(longer.drop_first() =~= Seq::<SampleRecord>::empty());
        assert(encoded(longer.drop_first()) =~= Seq::<char>::empty());
        assert(longer[0] == record);
        assert(encoded(longer) == encoded_record(record) + encoded(longer.drop_first()));
        assert(encoded(longer) =~= encoded(records) + encoded_record(record));
    } else {
        assert(longer.drop_first() =~= records.drop_first().push(record));
        lemma_encoded_push(records.drop_first(), record);
        assert(longer[0] == records[0]);
        assert(encoded(longer) == encoded_record(records[0]) + encoded(longer.drop_first()));
        assert(encoded(longer) =~= encoded(records) + encoded_record(record));
    }
}

/// A field free of the mark, the mark, and more text: the mark is first
/// found right behind the field, and splits the text there.
pub proof fn lemma_split_at_mark(field: Seq<char>, mark: char, rest: Seq<char>)
    requires
        free_of(field, mark),
    ensures
        first_index(field + seq![mark] + rest, mark) == field.len(),
        (field + seq![mark] + rest).take(field.len() as int) == field,
        (field + seq![mark] + rest).skip(field.len() as int + 1) == rest,
{
    let text = field + seq![mark] + rest;
    assert forall|k: int| 0 <= k < field.len() implies #[trigger] text[k] != mark by {
        assert(text[k] == field[k]);
    }
    assert(text[field.len() as int] == mark);
    lemma_first_index(text, mark, field.len() as int);
    assert(text.take(field.len() as int) =~= field);
    assert(text.skip(field.len() as int + 1) =~= rest);
}

/// In a text free of the mark, the mark is not found.
pub proof fn lemma_no_mark(text: Seq<char>, mark: char)
    requires
        free_of(text, mark),
    ensures
        first_index(text, mark) == text.len(),
        text.take(text.len() as int) == text,
{
    lemma_first_index(text, mark, text.len() as int);
    assert(text.take(text.len() as int) =~= text);
}

/// The digits of a number hold none of the marks of the text form.
pub proof fn lemma_digits_are_plain(value: nat)
    ensures
        free_of(decimal_digits(value), ';'),
        free_of(decimal_digits(value), '\n'),
        decimal_digits(value).len() > 0,
        is_digit(decimal_digits(value).last()),
{
    lemma_decimal_digits(value);
    let digits = decimal_digits(value);
    assert forall|i: int| 0 <= i < digits.len() implies #[trigger] digits[i] != ';' && digits[i]
        != '\n' by {
        assert(is_digit(digits[i]));
    }
    assert(is_digit(digits[digits.len() - 1]));
}

/// The line of a sample with a plain name writes that sample.
pub proof fn lemma_decode_encoded_line(record: SampleRecord)
    requires
        plain_name(record.name),
    ensures
        decoded_record(encoded_line(record)) == Some(record),
{
    let pid = decimal_digits(record.pid as nat);
    let ticks = decimal_digits(record.cpu_time as nat);
    lemma_digits_are_plain(record.pid as nat);
    lemma_digits_are_plain(record.cpu_time as nat);
    lemma_parse_decimal_digits(record.pid);
    lemma_parse_decimal_digits(record.cpu_time);
    lemma_split_at_mark(record.name, ';', encoded_counters(record));
    lemma_split_at_mark(pid, ';', ticks);
    lemma_no_mark(ticks, ';');
}

/// The line of a sample with a plain name holds no line feed and ends in a digit.
pub proof fn lemma_encoded_line_is_one_line(record: SampleRecord)
    requires
        plain_name(record.name),
    ensures
        free_of(encoded_line(record), '\n'),
        encoded_line(record).len() > 0,
        is_digit(encoded_line(record).last()),
{
    let name = record.name;
    let pid = decimal_digits(record.pid as nat);
    let ticks = decimal_digits(record.cpu_time as nat);
    let counters = encoded_counters(record);
    let line = encoded_line(record);
    lemma_digits_are_plain(record.pid as nat);
    lemma_digits_are_plain(record.cpu_time as nat);
    assert forall|k: int| 0 <= k < counters.len() implies #[trigger] counters[k] != '\n' by {
        if k < pid.len() {
            assert(counters[k] == pid[k]);
        } else if k > pid.len() {
            assert(counters[k] == ticks[k - pid.len() - 1]);
        }
    }
    assert forall|k: int| 0 <= k < line.len() implies #[trigger] line[k] != '\n' by {
        if k < name.len() {
            assert(line[k] == name[k]);
        } else if k > name.len() {
            assert(line[k] == counters[k - name.len() - 1]);
        }
    }
    assert(counters.last() == ticks.last());
    assert(line.last() == counters.last());
}

/// A text that starts with the line of a sample with a plain name writes
/// that sample, then what the rest of the text writes.
pub proof fn lemma_decode_first(record: SampleRecord, rest: Seq<char>)
    requires
        plain_name(record.name),
    ensures
        decoded(encoded_record(record) + rest) == match decoded(rest) {
            Some(records) => Some(seq![record] + records),
            None => None,
        },
{
    let line = encoded_line(record);
    lemma_decode_encoded_line(record);
    lemma_encoded_line_is_one_line(record);
    lemma_split_at_mark(line, '\n', rest);
    assert(without_return(line) == line);
    assert((encoded_record(record) + rest).len() > 0);
}

/// Decoding the text of samples with plain names gives the samples back.
pub proof fn lemma_decode_encoded(records: Seq<SampleRecord>)
    requires
        forall|i: int| 0 <= i < records.len() ==> plain_name((#[trigger] records[i]).name),
    ensures
        decoded(encoded(records)) == Some(records),
    decreases records.len(),
{
    if records.len() > 0 {
        let rest = records.drop_first();
        assert forall|i: int| 0 <= i < rest.len() implies plain_name((#[trigger] rest[i]).name) by {
            assert(rest[i] == records[i + 1]);
        }
        lemma_decode_encoded(rest);
        lemma_decode_first(records[0], encoded(rest));
        assert(seq![records[0]] + rest =~= records);
    }
}

/// Appends the line of one sample to a text.
pub fn push_record(text: &mut String, entry: &SampleEntry)
    ensures
        final(text)@ == old(text)@ + encoded_record(entry@),
{
    proof {
        reveal_strlit(";");
        reveal_strlit("\n");
    }
    text.append(entry.name.as_str());
    text.append(";");
    push_decimal(text, entry.pid);
    text.append(";");
    push_decimal(text, entry.cpu_time);
    text.append("\n");
    proof {
        assert(";"@ =~= seq![';']);
        assert("\n"@ =~= seq!['\n']);
        assert(text@ =~= old(text)@ + encoded_record(entry@));
    }
}

/// The text of a snapshot's samples.
pub fn encode(entries: &Vec<SampleEntry>) -> (text: String)
    ensures
        text@ == encoded(records_view(entries@)),
{
    let mut text = String::new();
    let ghost records = records_view(entries@);
    let mut at: usize = 0;
    proof {
        assert(records.take(0) =~= Seq::<SampleRecord>::empty());
    }
    while at < entries.len()
        invariant
            at <= entries.len(),
            records == records_view(entries@),
            text@ == encoded(records.take(at as int)),
        decreases entries.len() - at,
    {
        proof {
            lemma_encoded_push(records.take(at as int), entries[at as int]@);
            assert(records.take(at as int).push(entries[at as int]@) =~= records.take(at + 1));
        }
        push_record(&mut text, &entries[at]);
        at += 1;
    }
    proof {
        assert(records.take(at as int) =~= records);
    }
    text
}

} // verus!
