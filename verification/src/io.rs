//! Reading training data: lines of three fields, a session, an item and a time in
//! seconds, separated by blanks, under one header line.

use vstd::prelude::*;
use vstd::relations::{sorted_by, total_ordering};
use vstd::slice::slice_subrange;
use crate::table::{table_get, table_insert, table_new};
use crate::vmisknn::builder::items_of;
use crate::vmisknn::neighbors::lemma_distinct_below;
use crate::vmisknn::offline_index::valid_training;

verus! {

pub type TrainingSessionId = u32;

pub type ItemId = u64;

pub type Time = u32;

/// Why training data cannot be used.
#[derive(Clone, Copy, Debug, PartialEq, Eq, Structural)]
pub enum IngestError {
    /// The line with this number, the header being line 1, is not a record.
    MalformedInput { line: usize },
    /// The data holds no record.
    EmptyCorpus,
}

/// Whether a byte is a decimal digit.
pub open spec fn is_digit(b: u8) -> bool {
    0x30 <= b <= 0x39
}

/// Whether a byte separates fields: a space, a tab, a carriage return, a vertical tab
/// or a form feed.
pub open spec fn is_blank(b: u8) -> bool {
    b == 0x20 || b == 0x09 || b == 0x0d || b == 0x0b || b == 0x0c
}

/// Whether all bytes are decimal digits.
pub open spec fn all_digits(s: Seq<u8>) -> bool {
    forall|i: int| 0 <= i < s.len() ==> is_digit(#[trigger] s[i])
}

/// The number that decimal digits write.
pub open spec fn decimal(s: Seq<u8>) -> nat
    decreases s.len(),
{
    if s.len() == 0 {
        0
    } else {
        decimal(s.drop_last()) * 10 + (s.last() - 0x30) as nat
    }
}

/// The number that a field writes, if it is one or more decimal digits and the number
/// is at most `max`.
pub open spec fn natural(s: Seq<u8>, max: nat) -> Option<nat> {
    if s.len() > 0 && all_digits(s) && decimal(s) <= max {
        Some(decimal(s))
    } else {
        None
    }
}

/// The index of the first full stop at or behind `from`, the length if there is none.
pub open spec fn first_dot(s: Seq<u8>, from: int) -> int
    decreases s.len() - from,
{
    if from >= s.len() {
        s.len() as int
    } else if s[from] == 0x2e {
        from
    } else {
        first_dot(s, from + 1)
    }
}

/// The seconds that a field writes: decimal digits, or decimal digits, a full stop
/// and decimal digits again, rounded to the nearest whole number, a half upwards; if
/// that number fits 32 bits.
pub open spec fn seconds(s: Seq<u8>) -> Option<nat> {
    let dot = first_dot(s, 0);
    if dot >= s.len() {
        natural(s, u32::MAX as nat)
    } else {
        let whole = s.take(dot);
        let fraction = s.skip(dot + 1);
        if whole.len() > 0 && all_digits(whole) && fraction.len() > 0 && all_digits(fraction) {
            let rounded = decimal(whole) + (if fraction[0] >= 0x35 {
                1nat
            } else {
                0nat
            });
            if rounded <= u32::MAX {
                Some(rounded)
            } else {
                None
            }
        } else {
            None
        }
    }
}

/// `current`, if it holds anything, as the one field it is.
pub open spec fn closed(current: Seq<u8>) -> Seq<Seq<u8>> {
    if current.len() > 0 {
        seq![current]
    } else {
        Seq::empty()
    }
}

/// The fields of a line from index `i` on, `current` being the bytes of the field
/// that index `i` stands in.
pub open spec fn fields_from(line: Seq<u8>, i: int, current: Seq<u8>) -> Seq<Seq<u8>>
    decreases line.len() - i,
{
    if i >= line.len() {
        closed(current)
    } else if is_blank(line[i]) {
        closed(current) + fields_from(line, i + 1, Seq::empty())
    } else {
        fields_from(line, i + 1, current.push(line[i]))
    }
}

/// The fields of a line: its longest runs of bytes that are not blank.
pub open spec fn fields(line: Seq<u8>) -> Seq<Seq<u8>> {
    fields_from(line, 0, Seq::empty())
}

/// The lines of a text from index `i` on, `current` being the bytes of the line that
/// index `i` stands in.
pub open spec fn lines_from(text: Seq<u8>, i: int, current: Seq<u8>) -> Seq<Seq<u8>>
    decreases text.len() - i,
{
    if i >= text.len() {
        closed(current)
    } else if text[i] == 0x0a {
        seq![current] + lines_from(text, i + 1, Seq::empty())
    } else {
        lines_from(text, i + 1, current.push(text[i]))
    }
}

/// The lines of a text: what stands between its line feeds, before the first and,
/// if anything stands there, behind the last.
pub open spec fn lines(text: Seq<u8>) -> Seq<Seq<u8>> {
    lines_from(text, 0, Seq::empty())
}

/// The record that a line writes: exactly three fields, a session that fits 32 bits,
/// an item that fits 64 bits and a time in seconds.
pub open spec fn record(line: Seq<u8>) -> Option<(u32, u64, u32)> {
    let f = fields(line);
    if f.len() == 3 && natural(f[0], u32::MAX as nat) is Some && natural(f[1], u64::MAX as nat) is Some
        && seconds(f[2]) is Some {
        Some(
            (
                natural(f[0], u32::MAX as nat)->Some_0 as u32,
                natural(f[1], u64::MAX as nat)->Some_0 as u64,
                seconds(f[2])->Some_0 as u32,
            ),
        )
    } else {
        None
    }
}

/// The number that digits write is at least the number that the first of them write.
pub proof fn lemma_decimal_prefix(s: Seq<u8>, n: int)
    requires
        0 <= n <= s.len(),
        all_digits(s),
    ensures
        decimal(s.take(n)) <= decimal(s),
    decreases s.len() - n,
{
    if n < s.len() {
        lemma_decimal_prefix(s, n + 1);
        assert(s.take(n + 1).drop_last() =~= s.take(n));
        assert(is_digit(s[n]));
    } else {
        assert(s.take(n) =~= s);
    }
}

/// The ranges as the byte sequences they cut out of `text`.
pub open spec fn cut(text: Seq<u8>, ranges: Seq<(usize, usize)>) -> Seq<Seq<u8>> {
    Seq::new(ranges.len(), |k: int| text.subrange(ranges[k].0 as int, ranges[k].1 as int))
}

/// Whether the ranges lie within a text of the given length.
pub open spec fn within(ranges: Seq<(usize, usize)>, len: nat) -> bool {
    forall|k: int| 0 <= k < ranges.len() ==> (#[trigger] ranges[k]).0 <= ranges[k].1 <= len
}

/// Whether a byte separates fields.
pub fn blank(b: u8) -> (r: bool)
    ensures
        r == is_blank(b),
{
    b == 0x20 || b == 0x09 || b == 0x0d || b == 0x0b || b == 0x0c
}

/// Where the fields of a line begin and end.
pub fn split_fields(line: &[u8]) -> (ranges: Vec<(usize, usize)>)
    ensures
        within(ranges@, line@.len()),
        cut(line@, ranges@) == fields(line@),
{
    let n: usize = line.len();
    let mut ranges: Vec<(usize, usize)> = Vec::new();
    let mut start: usize = 0;
    let mut i: usize = 0;
    proof {
        assert(line@.subrange(0, 0) =~= Seq::<u8>::empty());
        assert(cut(line@, ranges@) =~= Seq::<Seq<u8>>::empty());
        assert(cut(line@, ranges@) + fields(line@) =~= fields(line@));
    }
    while i < n
        invariant
            0 <= start <= i <= n,
            n == line@.len(),
            within(ranges@, n as nat),
            cut(line@, ranges@) + fields_from(line@, i as int, line@.subrange(start as int, i as int))
                == fields(line@),
        decreases n - i,
    {
        let ghost current = line@.subrange(start as int, i as int);
        let ghost before = cut(line@, ranges@);
        if blank(line[i]) {
            if start < i {
                ranges.push((start, i));
                proof {
                    assert(cut(line@, ranges@) =~= before.push(current));
                    assert(before.push(current) + fields_from(line@, i + 1, Seq::empty()) =~= before + (
                    closed(current) + fields_from(line@, i + 1, Seq::empty())));
                }
            } else {
                proof {
                    assert(closed(current) + fields_from(line@, i + 1, Seq::empty()) =~= fields_from(
                        line@,
                        i + 1,
                        Seq::empty(),
                    ));
                }
            }
            start = i + 1;
            proof {
                assert(line@.subrange(start as int, i + 1) =~= Seq::<u8>::empty());
            }
        } else {
            proof {
                assert(line@.subrange(start as int, i + 1) =~= current.push(line@[i as int]));
            }
        }
        i = i + 1;
    }
    let ghost current = line@.subrange(start as int, n as int);
    let ghost before = cut(line@, ranges@);
    if start < n {
        ranges.push((start, n));
        proof {
            assert(cut(line@, ranges@) =~= before.push(current));
            assert(before.push(current) =~= before + closed(current));
        }
    } else {
        proof {
            assert(before + closed(current) =~= before);
        }
    }
    ranges
}

/// Where the lines of a text begin and end.
pub fn split_lines(text: &[u8]) -> (ranges: Vec<(usize, usize)>)
    ensures
        within(ranges@, text@.len()),
        cut(text@, ranges@) == lines(text@),
{
    let n: usize = text.len();
    let mut ranges: Vec<(usize, usize)> = Vec::new();
    let mut start: usize = 0;
    let mut i: usize = 0;
    proof {
        assert(text@.subrange(0, 0) =~= Seq::<u8>::empty());
        assert(cut(text@, ranges@) =~= Seq::<Seq<u8>>::empty());
        assert(cut(text@, ranges@) + lines(text@) =~= lines(text@));
    }
    while i < n
        invariant
            0 <= start <= i <= n,
            n == text@.len(),
            within(ranges@, n as nat),
            cut(text@, ranges@) + lines_from(text@, i as int, text@.subrange(start as int, i as int))
                == lines(text@),
        decreases n - i,
    {
        let ghost current = text@.subrange(start as int, i as int);
        let ghost before = cut(text@, ranges@);
        if text[i] == 0x0a {
            ranges.push((start, i));
            proof {
                assert(cut(text@, ranges@) =~= before.push(current));
                assert(before.push(current) + lines_from(text@, i + 1, Seq::empty()) =~= before + (
                seq![current] + lines_from(text@, i + 1, Seq::empty())));
            }
            start = i + 1;
            proof {
                assert(text@.subrange(start as int, i + 1) =~= Seq::<u8>::empty());
            }
        } else {
            proof {
                assert(text@.subrange(start as int, i + 1) =~= current.push(text@[i as int]));
            }
        }
        i = i + 1;
    }
    let ghost current = text@.subrange(start as int, n as int);
    let ghost before = cut(text@, ranges@);
    if start < n {
        ranges.push((start, n));
        proof {
            assert(cut(text@, ranges@) =~= before.push(current));
            assert(before.push(current) =~= before + closed(current));
        }
    } else {
        proof {
            assert(before + closed(current) =~= before);
        }
    }
    ranges
}

/// The number that a field writes, if it is one or more decimal digits and the number
/// is at most `max`.
pub fn parse_natural(field: &[u8], max: u64) -> (value: Option<u64>)
    ensures
        value is Some <==> natural(field@, max as nat) is Some,
        value matches Some(v) ==> natural(field@, max as nat) == Some(v as nat),
{
    let n: usize = field.len();
    if n == 0 {
        return None;
    }
    let mut value: u64 = 0;
    let mut i: usize = 0;
    proof {
        assert(field@.take(0) =~= Seq::<u8>::empty());
    }
    while i < n
        invariant
            0 <= i <= n,
            n == field@.len(),
            n > 0,
            all_digits(field@.take(i as int)),
            value == decimal(field@.take(i as int)),
            value <= max,
        decreases n - i,
    {
        let b: u8 = field[i];
        if b < 0x30 || b > 0x39 {
            proof {
                assert(!is_digit(field@[i as int]));
            }
            return None;
        }
        let d: u64 = (b - 0x30) as u64;
        proof {
            assert(field@.take(i + 1).drop_last() =~= field@.take(i as int));
            assert(field@.take(i + 1).last() == b);
            assert(all_digits(field@.take(i + 1))) by {
                assert forall|j: int| 0 <= j < i + 1 implies is_digit(
                    #[trigger] field@.take(i + 1)[j],
                ) by {
                    if j < i {
                        assert(field@.take(i as int)[j] == field@[j]);
                    }
                }
            }
        }
        if d > max || value > (max - d) / 10 {
            proof {
                assert(decimal(field@.take(i + 1)) > max);
                if all_digits(field@) {
                    lemma_decimal_prefix(field@, i + 1);
                }
            }
            return None;
        }
        value = value * 10 + d;
        i = i + 1;
    }
    proof {
        assert(field@.take(n as int) =~= field@);
    }
    Some(value)
}

/// The index of the first full stop of a field, its length if there is none.
pub fn find_dot(field: &[u8]) -> (dot: usize)
    ensures
        dot == first_dot(field@, 0),
        dot <= field@.len(),
{
    let n: usize = field.len();
    let mut i: usize = 0;
    while i < n
        invariant
            0 <= i <= n,
            n == field@.len(),
            first_dot(field@, 0) == first_dot(field@, i as int),
        decreases n - i,
    {
        if field[i] == 0x2e {
            return i;
        }
        i = i + 1;
    }
    i
}

/// Whether all bytes of a field are decimal digits.
pub fn only_digits(field: &[u8]) -> (r: bool)
    ensures
        r == all_digits(field@),
{
    let n: usize = field.len();
    let mut i: usize = 0;
    while i < n
        invariant
            0 <= i <= n,
            n == field@.len(),
            forall|j: int| 0 <= j < i ==> is_digit(#[trigger] field@[j]),
        decreases n - i,
    {
        if field[i] < 0x30 || field[i] > 0x39 {
            assert(!is_digit(field@[i as int]));
            return false;
        }
        i = i + 1;
    }
    true
}

/// The seconds that a field writes, rounded to the nearest whole number.
pub fn parse_seconds(field: &[u8]) -> (value: Option<u32>)
    ensures
        value is Some <==> seconds(field@) is Some,
        value matches Some(v) ==> seconds(field@) == Some(v as nat),
{
    let n: usize = field.len();
    let dot: usize = find_dot(field);
    if dot >= n {
        match parse_natural(field, 0xffff_ffff) {
            Some(v) => Some(v as u32),
            None => None,
        }
    } else {
        let whole: &[u8] = slice_subrange(field, 0, dot);
        let fraction: &[u8] = slice_subrange(field, dot + 1, n);
        proof {
            assert(whole@ =~= field@.take(dot as int));
            assert(fraction@ =~= field@.skip(dot + 1));
        }
        if fraction.len() == 0 || !only_digits(fraction) {
            return None;
        }
        let up: u64 = if fraction[0] >= 0x35 {
            1
        } else {
            0
        };
        match parse_natural(whole, 0xffff_ffff - up) {
            Some(v) => Some((v + up) as u32),
            None => None,
        }
    }
}

/// The record that a line writes, if it writes one.
pub fn parse_record(line: &[u8]) -> (parsed: Option<(u32, u64, u32)>)
    ensures
        parsed == record(line@),
{
    let ranges = split_fields(line);
    if ranges.len() != 3 {
        proof {
            assert(cut(line@, ranges@).len() == ranges@.len());
        }
        return None;
    }
    proof {
        assert(cut(line@, ranges@).len() == 3);
        assert(cut(line@, ranges@)[0] == line@.subrange(ranges@[0].0 as int, ranges@[0].1 as int));
        assert(cut(line@, ranges@)[1] == line@.subrange(ranges@[1].0 as int, ranges@[1].1 as int));
        assert(cut(line@, ranges@)[2] == line@.subrange(ranges@[2].0 as int, ranges@[2].1 as int));
    }
    let session = parse_natural(slice_subrange(line, ranges[0].0, ranges[0].1), 0xffff_ffff);
    let item = parse_natural(slice_subrange(line, ranges[1].0, ranges[1].1), 0xffff_ffff_ffff_ffff);
    let time = parse_seconds(slice_subrange(line, ranges[2].0, ranges[2].1));
    match (session, item, time) {
        (Some(s), Some(i), Some(t)) => Some((s as u32, i, t)),
        _ => None,
    }
}

/// What reading a text gives: the records of its lines behind the header, or the
/// number of the first line that is no record.
pub open spec fn is_training_data(
    text: Seq<u8>,
    result: Result<Seq<(u32, u64, u32)>, IngestError>,
) -> bool {
    let all = lines(text);
    match result {
        Ok(records) => {
            &&& records.len() == (if all.len() == 0 {
                0
            } else {
                all.len() - 1
            })
            &&& forall|k: int| 0 <= k < records.len() ==> record(all[k + 1]) == Some(#[trigger] records[k])
        },
        Err(IngestError::MalformedInput { line }) => {
            &&& 2 <= line <= all.len()
            &&& record(all[line - 1]) is None
            &&& forall|k: int| 1 <= k < line - 1 ==> record(#[trigger] all[k]) is Some
        },
        Err(IngestError::EmptyCorpus) => false,
    }
}

/// The records of the lines behind the header, where each of them is a record.
pub open spec fn training_records(text: Seq<u8>) -> Seq<(u32, u64, u32)> {
    let all = lines(text);
    Seq::new(
        if all.len() == 0 {
            0nat
        } else {
            (all.len() - 1) as nat
        },
        |k: int| record(all[k + 1])->Some_0,
    )
}

/// The records that reading a text gives are its training records.
pub proof fn lemma_training_records(text: Seq<u8>, records: Seq<(u32, u64, u32)>)
    requires
        is_training_data(text, Ok(records)),
    ensures
        records == training_records(text),
{
    let all = lines(text);
    assert forall|k: int| 0 <= k < records.len() implies records[k] == training_records(text)[k] by {
        assert(record(all[k + 1]) == Some(records[k]));
    }
    assert(records =~= training_records(text));
}

/// Reads training data: the first line is a header and is passed over, each line
/// behind it is a record `(session, item, time)`. Fails with the number of the
/// first line that is no record.
pub fn read_training_data(training_data: &[u8]) -> (result: Result<
    Vec<(TrainingSessionId, ItemId, Time)>,
    IngestError,
>)
    ensures
        is_training_data(
            training_data@,
            match result {
                Ok(records) => Ok(records@),
                Err(e) => Err(e),
            },
        ),
{
    let ranges = split_lines(training_data);
    let ghost all = lines(training_data@);
    let count: usize = ranges.len();
    let mut records: Vec<(u32, u64, u32)> = Vec::new();
    let mut k: usize = 1;
    proof {
        assert(cut(training_data@, ranges@).len() == count);
    }
    while k < count
        invariant
            1 <= k,
            count == ranges@.len(),
            count == all.len(),
            all == lines(training_data@),
            all == cut(training_data@, ranges@),
            within(ranges@, training_data@.len()),
            k <= count || k == 1,
            records@.len() == k - 1,
            forall|j: int| 0 <= j < records@.len() ==> record(all[j + 1]) == Some(#[trigger] records@[j]),
        decreases count - k,
    {
        let line: &[u8] = slice_subrange(training_data, ranges[k].0, ranges[k].1);
        proof {
            assert(all[k as int] == training_data@.subrange(
                ranges@[k as int].0 as int,
                ranges@[k as int].1 as int,
            ));
        }
        match parse_record(line) {
            Some(r) => {
                records.push(r);
            },
            None => {
                proof {
                    assert forall|j: int| 1 <= j < k implies record(#[trigger] all[j]) is Some by {
                        assert(record(all[(j - 1) + 1]) == Some(records@[j - 1]));
                    }
                }
                return Err(IngestError::MalformedInput { line: k + 1 });
            },
        }
        k = k + 1;
    }
    Ok(records)
}

/// Whether record `a` stands before record `b` or equals it: by session, then by
/// item, then by time.
pub open spec fn record_le(a: (u32, u64, u32), b: (u32, u64, u32)) -> bool {
    a.0 < b.0 || (a.0 == b.0 && (a.1 < b.1 || (a.1 == b.1 && a.2 <= b.2)))
}

/// `slice::sort_unstable` of std on records: afterwards the same records stand in
/// ascending order, tuples being compared field by field.
#[verifier::external_body]
pub(crate) fn sort_records(records: &mut Vec<(u32, u64, u32)>)
    ensures
        final(records)@.to_multiset() == old(records)@.to_multiset(),
        (forall|i: int, j: int|
            0 <= i < j < final(records)@.len() ==> record_le(final(records)@[i], final(records)@[j])),
{
    records.sort_unstable();
}

/// Whether one of the first `upto` records has the session and the item.
pub open spec fn in_session(records: Seq<(u32, u64, u32)>, upto: int, session: u32, item: u64) -> bool {
    exists|j: int|
        0 <= j < upto && j < records.len() && (#[trigger] records[j]).0 == session && records[j].1
            == item
}

/// Whether one of the first `upto` records has the session.
pub open spec fn has_session(records: Seq<(u32, u64, u32)>, upto: int, session: u32) -> bool {
    exists|j: int| 0 <= j < upto && j < records.len() && (#[trigger] records[j]).0 == session
}

/// Whether `time` is the greatest time among the first `upto` records of the session.
pub open spec fn is_latest(records: Seq<(u32, u64, u32)>, upto: int, session: u32, time: u32) -> bool {
    &&& exists|j: int|
        0 <= j < upto && j < records.len() && (#[trigger] records[j]).0 == session && records[j].2
            == time
    &&& forall|j: int|
        0 <= j < upto && j < records.len() && (#[trigger] records[j]).0 == session ==> records[j].2
            <= time
}

/// Whether the sessions `ids`, with their items and maximum timestamps, are what the
/// first `upto` records hold: the sessions in ascending order of their identifiers,
/// each once; the items of each in ascending order, each once.
pub open spec fn is_grouping(
    records: Seq<(u32, u64, u32)>,
    upto: int,
    ids: Seq<u32>,
    items: Seq<Seq<u64>>,
    times: Seq<u32>,
) -> bool {
    &&& ids.len() == items.len()
    &&& ids.len() == times.len()
    &&& forall|a: int, b: int| 0 <= a < b < ids.len() ==> ids[a] < ids[b]
    &&& forall|session: u32|
        has_session(records, upto, session) <==> exists|s: int|
            0 <= s < ids.len() && #[trigger] ids[s] == session
    &&& forall|s: int, a: int, b: int|
        0 <= s < items.len() && 0 <= a < b < items[s].len() ==> (#[trigger] items[s][a]) < (
        #[trigger] items[s][b])
    &&& forall|s: int, item: u64|
        0 <= s < items.len() ==> (#[trigger] items[s].contains(item) <==> in_session(
            records,
            upto,
            ids[s],
            item,
        ))
    &&& forall|s: int| 0 <= s < ids.len() ==> is_latest(records, upto, #[trigger] ids[s], times[s])
}

/// The training sessions: the identifier under which each session came, its items
/// and its maximum timestamp. The index of a session is its place here.
pub struct TrainingSessions {
    pub session_ids: Vec<u32>,
    pub items: Vec<Vec<u64>>,
    pub max_timestamps: Vec<u32>,
}

/// Records in another order are grouped the same.
pub proof fn lemma_grouping_permutation(
    sorted: Seq<(u32, u64, u32)>,
    records: Seq<(u32, u64, u32)>,
    ids: Seq<u32>,
    items: Seq<Seq<u64>>,
    times: Seq<u32>,
)
    requires
        sorted.to_multiset() == records.to_multiset(),
        is_grouping(sorted, sorted.len() as int, ids, items, times),
    ensures
        is_grouping(records, records.len() as int, ids, items, times),
{
    vstd::seq_lib::to_multiset_len(sorted);
    vstd::seq_lib::to_multiset_len(records);
    assert forall|r: (u32, u64, u32)| sorted.contains(r) <==> records.contains(r) by {
        vstd::seq_lib::to_multiset_contains(sorted, r);
        vstd::seq_lib::to_multiset_contains(records, r);
    }
    let n = records.len() as int;
    assert forall|session: u32| has_session(records, n, session) <==> has_session(sorted, n, session) by {
        if has_session(records, n, session) {
            let j = choose|j: int| 0 <= j < n && j < records.len() && (#[trigger] records[j]).0 == session;
            assert(records.contains(records[j]));
            let k = choose|k: int| 0 <= k < sorted.len() && sorted[k] == records[j];
            assert(sorted[k].0 == session);
        }
        if has_session(sorted, n, session) {
            let j = choose|j: int| 0 <= j < n && j < sorted.len() && (#[trigger] sorted[j]).0 == session;
            assert(sorted.contains(sorted[j]));
            let k = choose|k: int| 0 <= k < records.len() && records[k] == sorted[j];
            assert(records[k].0 == session);
        }
    }
    assert forall|session: u32, item: u64|
        in_session(records, n, session, item) <==> in_session(sorted, n, session, item) by {
        if in_session(records, n, session, item) {
            let j = choose|j: int|
                0 <= j < n && j < records.len() && (#[trigger] records[j]).0 == session
                    && records[j].1 == item;
            assert(records.contains(records[j]));
            let k = choose|k: int| 0 <= k < sorted.len() && sorted[k] == records[j];
            assert(sorted[k].0 == session && sorted[k].1 == item);
        }
        if in_session(sorted, n, session, item) {
            let j = choose|j: int|
                0 <= j < n && j < sorted.len() && (#[trigger] sorted[j]).0 == session && sorted[j].1
                    == item;
            assert(sorted.contains(sorted[j]));
            let k = choose|k: int| 0 <= k < records.len() && records[k] == sorted[j];
            assert(records[k].0 == session && records[k].1 == item);
        }
    }
    assert forall|s: int| 0 <= s < ids.len() implies is_latest(records, n, #[trigger] ids[s], times[s]) by {
        assert(is_latest(sorted, n, ids[s], times[s]));
        let j = choose|j: int|
            0 <= j < n && j < sorted.len() && (#[trigger] sorted[j]).0 == ids[s] && sorted[j].2
                == times[s];
        assert(sorted.contains(sorted[j]));
        let k = choose|k: int| 0 <= k < records.len() && records[k] == sorted[j];
        assert(records[k].0 == ids[s] && records[k].2 == times[s]);
        assert forall|j2: int|
            0 <= j2 < n && j2 < records.len() && (#[trigger] records[j2]).0 == ids[s] implies records[j2].2
            <= times[s] by {
            assert(records.contains(records[j2]));
            let k2 = choose|k2: int| 0 <= k2 < sorted.len() && sorted[k2] == records[j2];
            assert(sorted[k2].0 == ids[s]);
        }
    }
}

/// Groups records by session: the sessions in ascending order of their identifiers,
/// each with its items, in ascending order and each once, and with the greatest time
/// of its records. Fails with `EmptyCorpus` where there is no record.
pub fn group_sessions(records: Vec<(TrainingSessionId, ItemId, Time)>) -> (result: Result<
    TrainingSessions,
    IngestError,
>)
    ensures
        result is Ok <==> records@.len() > 0,
        result matches Ok(t) ==> {
            &&& is_grouping(
                records@,
                records@.len() as int,
                t.session_ids@,
                items_of(t.items@),
                t.max_timestamps@,
            )
            &&& valid_training(t.items@, t.max_timestamps@)
            &&& t.session_ids@.len() > 0
        },
        result matches Err(e) ==> e == IngestError::EmptyCorpus,
{
    let ghost given = records@;
    let mut sorted = records;
    let n: usize = sorted.len();
    if n == 0 {
        return Err(IngestError::EmptyCorpus);
    }
    sort_records(&mut sorted);
    proof {
        vstd::seq_lib::to_multiset_len(sorted@);
        vstd::seq_lib::to_multiset_len(given);
    }
    let ghost v = sorted@;
    let mut ids: Vec<u32> = Vec::new();
    let mut items: Vec<Vec<u64>> = Vec::new();
    let mut times: Vec<u32> = Vec::new();
    let mut i: usize = 0;
    while i < n
        invariant
            0 <= i <= n,
            n == v.len(),
            v == sorted@,
            forall|a: int, b: int| 0 <= a < b < v.len() ==> record_le(v[a], v[b]),
            is_grouping(v, i as int, ids@, items_of(items@), times@),
            ids@.len() == items@.len(),
            i > 0 ==> ids@.len() > 0 && ids@.last() == v[i - 1].0 && items@.last()@.len() > 0
                && items@.last()@.last() == v[i - 1].1,
            i == 0 ==> ids@.len() == 0,
        decreases n - i,
    {
        let e: (u32, u64, u32) = sorted[i];
        let g: usize = ids.len();
        let ghost ids_before = ids@;
        let ghost items_before = items_of(items@);
        let ghost times_before = times@;
        proof {
            assert forall|j: int| 0 <= j < i implies record_le(#[trigger] v[j], e) by {}
            if i > 0 {
                assert(record_le(v[i - 1], e));
            }
        }
        if g == 0 || ids[g - 1] != e.0 {
            ids.push(e.0);
            let mut fresh: Vec<u64> = Vec::new();
            fresh.push(e.1);
            items.push(fresh);
            times.push(e.2);
            proof {
                let next: int = i + 1;
                let new_items = items_of(items@);
                assert(new_items[g as int] =~= seq![e.1]);
                assert forall|s: int| 0 <= s < g implies new_items[s] == items_before[s] by {}
                assert forall|s: int| 0 <= s < g implies (#[trigger] ids_before[s]) < e.0 by {
                    assert(has_session(v, i as int, ids_before[s]));
                    let j = choose|j: int|
                        0 <= j < i && j < v.len() && (#[trigger] v[j]).0 == ids_before[s];
                    assert(record_le(v[j], e));
                    if i > 0 {
                        assert(ids_before[s] <= ids_before[g - 1]);
                    }
                }
                assert forall|session: u32|
                    has_session(v, next, session) <==> exists|s: int|
                        0 <= s < ids@.len() && #[trigger] ids@[s] == session by {
                    if has_session(v, next, session) {
                        let j = choose|j: int|
                            0 <= j < i + 1 && j < v.len() && (#[trigger] v[j]).0 == session;
                        if j < i {
                            assert(has_session(v, i as int, session));
                            let s = choose|s: int|
                                0 <= s < ids_before.len() && #[trigger] ids_before[s] == session;
                            assert(ids@[s] == session);
                        } else {
                            assert(ids@[g as int] == session);
                        }
                    }
                    if exists|s: int| 0 <= s < ids@.len() && #[trigger] ids@[s] == session {
                        let s = choose|s: int| 0 <= s < ids@.len() && #[trigger] ids@[s] == session;
                        if s < g {
                            assert(ids_before[s] == session);
                            assert(has_session(v, i as int, session));
                            let j = choose|j: int|
                                0 <= j < i && j < v.len() && (#[trigger] v[j]).0 == session;
                            assert(0 <= j < i + 1 && v[j].0 == session);
                        } else {
                            assert(v[i as int].0 == session);
                        }
                    }
                }
                assert forall|s: int, item: u64| 0 <= s < new_items.len() implies (
                #[trigger] new_items[s].contains(item) <==> in_session(v, next, ids@[s], item)) by {
                    if s < g {
                        assert(ids@[s] == ids_before[s]);
                        assert(items_before[s].contains(item) <==> in_session(
                            v,
                            i as int,
                            ids_before[s],
                            item,
                        ));
                        if in_session(v, next, ids@[s], item) {
                            let j = choose|j: int|
                                0 <= j < i + 1 && j < v.len() && (#[trigger] v[j]).0 == ids@[s]
                                    && v[j].1 == item;
                            assert(j < i);
                            assert(in_session(v, i as int, ids@[s], item));
                        }
                        if in_session(v, i as int, ids@[s], item) {
                            let j = choose|j: int|
                                0 <= j < i && j < v.len() && (#[trigger] v[j]).0 == ids@[s]
                                    && v[j].1 == item;
                            assert(0 <= j < i + 1 && v[j].0 == ids@[s] && v[j].1 == item);
                        }
                    } else {
                        if new_items[s].contains(item) {
                            assert(item == e.1);
                            assert(v[i as int].0 == ids@[s] && v[i as int].1 == item);
                        }
                        if in_session(v, next, ids@[s], item) {
                            let j = choose|j: int|
                                0 <= j < i + 1 && j < v.len() && (#[trigger] v[j]).0 == ids@[s]
                                    && v[j].1 == item;
                            if j < i {
                                assert(has_session(v, i as int, e.0));
                                let s2 = choose|s2: int|
                                    0 <= s2 < ids_before.len() && #[trigger] ids_before[s2] == e.0;
                                assert(ids_before[s2] < e.0);
                            }
                            assert(new_items[s][0] == item);
                        }
                    }
                }
                assert forall|s: int| 0 <= s < ids@.len() implies is_latest(v, next,
                    #[trigger] ids@[s],
                    times@[s],
                ) by {
                    if s < g {
                        assert(is_latest(v, i as int, ids_before[s], times_before[s]));
                        let j = choose|j: int|
                            0 <= j < i && j < v.len() && (#[trigger] v[j]).0 == ids_before[s]
                                && v[j].2 == times_before[s];
                        assert(0 <= j < i + 1 && v[j].0 == ids@[s] && v[j].2 == times@[s]);
                    } else {
                        assert(v[i as int].0 == ids@[s] && v[i as int].2 == times@[s]);
                        assert forall|j: int|
                            0 <= j < i + 1 && j < v.len() && (#[trigger] v[j]).0 == ids@[s] implies v[j].2
                            <= times@[s] by {
                            if j < i {
                                assert(has_session(v, i as int, e.0));
                                let s2 = choose|s2: int|
                                    0 <= s2 < ids_before.len() && #[trigger] ids_before[s2] == e.0;
                                assert(ids_before[s2] < e.0);
                            }
                        }
                    }
                }
                assert forall|s: int, a: int, b: int|
                    0 <= s < new_items.len() && 0 <= a < b < new_items[s].len() implies (
                #[trigger] new_items[s][a]) < (#[trigger] new_items[s][b]) by {
                    if s < g {
                        assert(items_before[s][a] < items_before[s][b]);
                    }
                }
            }
        } else {
            let last: usize = g - 1;
            let width: usize = items[last].len();
            let newest: u64 = items[last][width - 1];
            let ghost row_before = items@[last as int]@;
            if newest != e.1 {
                items[last].push(e.1);
            }
            if e.2 > times[last] {
                times.set(last, e.2);
            }
            proof {
                let next: int = i + 1;
                let new_items = items_of(items@);
                assert(items_before[last as int] == row_before);
                assert forall|s: int| 0 <= s < last implies new_items[s] == items_before[s] by {}
                assert(newest <= e.1);
                assert(new_items[last as int] == (if newest != e.1 {
                    row_before.push(e.1)
                } else {
                    row_before
                }));
                assert forall|session: u32|
                    has_session(v, next, session) <==> exists|s: int|
                        0 <= s < ids@.len() && #[trigger] ids@[s] == session by {
                    if has_session(v, next, session) {
                        let j = choose|j: int|
                            0 <= j < i + 1 && j < v.len() && (#[trigger] v[j]).0 == session;
                        if j < i {
                            assert(has_session(v, i as int, session));
                        } else {
                            assert(ids@[last as int] == session);
                        }
                    }
                    if exists|s: int| 0 <= s < ids@.len() && #[trigger] ids@[s] == session {
                        assert(has_session(v, i as int, session));
                        let j = choose|j: int|
                            0 <= j < i && j < v.len() && (#[trigger] v[j]).0 == session;
                        assert(0 <= j < i + 1 && v[j].0 == session);
                    }
                }
                assert forall|s: int, a: int, b: int|
                    0 <= s < new_items.len() && 0 <= a < b < new_items[s].len() implies (
                #[trigger] new_items[s][a]) < (#[trigger] new_items[s][b]) by {
                    if s < last {
                        assert(items_before[s][a] < items_before[s][b]);
                    } else {
                        if b < row_before.len() {
                            assert(items_before[s][a] < items_before[s][b]);
                        } else {
                            if a < row_before.len() - 1 {
                                assert(items_before[s][a] < items_before[s][row_before.len() - 1]);
                            }
                        }
                    }
                }
                assert forall|s: int, item: u64| 0 <= s < new_items.len() implies (
                #[trigger] new_items[s].contains(item) <==> in_session(v, next, ids@[s], item)) by {
                    assert(items_before[s].contains(item) <==> in_session(v, i as int, ids@[s], item));
                    if in_session(v, i as int, ids@[s], item) {
                        let j = choose|j: int|
                            0 <= j < i && j < v.len() && (#[trigger] v[j]).0 == ids@[s] && v[j].1
                                == item;
                        assert(0 <= j < i + 1 && v[j].0 == ids@[s] && v[j].1 == item);
                    }
                    if s < last {
                        if in_session(v, next, ids@[s], item) {
                            let j = choose|j: int|
                                0 <= j < i + 1 && j < v.len() && (#[trigger] v[j]).0 == ids@[s]
                                    && v[j].1 == item;
                            assert(j < i);
                            assert(in_session(v, i as int, ids@[s], item));
                        }
                    } else {
                        if new_items[s].contains(item) {
                            let a = choose|a: int| 0 <= a < new_items[s].len() && new_items[s][a] == item;
                            if a < row_before.len() {
                                assert(row_before[a] == item);
                                assert(items_before[s].contains(item));
                            } else {
                                assert(v[i as int].0 == ids@[s] && v[i as int].1 == item);
                            }
                        }
                        if in_session(v, next, ids@[s], item) {
                            let j = choose|j: int|
                                0 <= j < i + 1 && j < v.len() && (#[trigger] v[j]).0 == ids@[s]
                                    && v[j].1 == item;
                            if j < i {
                                assert(in_session(v, i as int, ids@[s], item));
                                let a = choose|a: int|
                                    0 <= a < row_before.len() && row_before[a] == item;
                                assert(new_items[s][a] == item);
                            } else {
                                if newest != e.1 {
                                    assert(new_items[s][row_before.len() as int] == item);
                                } else {
                                    assert(new_items[s][row_before.len() - 1] == item);
                                }
                            }
                        }
                    }
                }
                assert forall|s: int| 0 <= s < ids@.len() implies is_latest(v, next,
                    #[trigger] ids@[s],
                    times@[s],
                ) by {
                    assert(is_latest(v, i as int, ids_before[s], times_before[s]));
                    let j = choose|j: int|
                        0 <= j < i && j < v.len() && (#[trigger] v[j]).0 == ids_before[s] && v[j].2
                            == times_before[s];
                    if s < last {
                        assert(0 <= j < i + 1 && v[j].0 == ids@[s] && v[j].2 == times@[s]);
                    } else {
                        if e.2 > times_before[s] {
                            assert(v[i as int].0 == ids@[s] && v[i as int].2 == times@[s]);
                        } else {
                            assert(0 <= j < i + 1 && v[j].0 == ids@[s] && v[j].2 == times@[s]);
                        }
                    }
                }
            }
        }
        i = i + 1;
    }
    proof {
        lemma_grouping_permutation(v, given, ids@, items_of(items@), times@);
        let as_ints = ids@.map_values(|id: u32| id as int);
        assert forall|a: int, b: int| 0 <= a < b < as_ints.len() implies as_ints[a] != as_ints[b] by {
            assert(ids@[a] < ids@[b]);
        }
        lemma_distinct_below(as_ints, 0x1_0000_0000);
        assert forall|s: int| 0 <= s < items@.len() implies (#[trigger] items@[s])@.no_duplicates() by {
            assert forall|a: int, b: int|
                0 <= a < items@[s]@.len() && 0 <= b < items@[s]@.len() && a != b implies items@[s]@[a]
                != items@[s]@[b] by {
                if a < b {
                    assert(items_of(items@)[s][a] < items_of(items@)[s][b]);
                } else {
                    assert(items_of(items@)[s][b] < items_of(items@)[s][a]);
                }
            }
        }
    }
    Ok(TrainingSessions { session_ids: ids, items, max_timestamps: times })
}

/// Reads training data and groups it by session. Fails with the number of the first
/// line that is no record, or with `EmptyCorpus` where there is no record.
pub fn read_from_file(training_data: &[u8]) -> (result: Result<TrainingSessions, IngestError>)
    ensures
        match result {
            Ok(t) => {
                &&& is_training_data(training_data@, Ok(training_records(training_data@)))
                &&& training_records(training_data@).len() > 0
                &&& is_grouping(
                    training_records(training_data@),
                    training_records(training_data@).len() as int,
                    t.session_ids@,
                    items_of(t.items@),
                    t.max_timestamps@,
                )
                &&& valid_training(t.items@, t.max_timestamps@)
            },
            Err(IngestError::EmptyCorpus) => is_training_data(training_data@, Ok(Seq::empty())),
            Err(e) => is_training_data(training_data@, Err(e)),
        },
{
    match read_training_data(training_data) {
        Ok(records) => {
            let ghost parsed = records@;
            let grouped = group_sessions(records);
            proof {
                lemma_training_records(training_data@, parsed);
                if parsed.len() == 0 {
                    assert(parsed =~= Seq::empty());
                }
            }
            grouped
        },
        Err(e) => Err(e),
    }
}

/// The items of one session of test data, in the order of their events.
pub struct TestSession {
    pub session_id: u32,
    pub items: Vec<u64>,
}

/// A record with its time first and its session last: `(time, item, session)`.
pub open spec fn by_time(r: (u32, u64, u32)) -> (u32, u64, u32) {
    (r.2, r.1, r.0)
}

/// The order of records: field by field.
pub open spec fn record_order() -> spec_fn((u32, u64, u32), (u32, u64, u32)) -> bool {
    |a: (u32, u64, u32), b: (u32, u64, u32)| record_le(a, b)
}

/// The events of test data in order: as `(time, item, session)`, by time, then by
/// item, then by session.
pub open spec fn events_in_order(records: Seq<(u32, u64, u32)>) -> Seq<(u32, u64, u32)> {
    records.map_values(|r: (u32, u64, u32)| by_time(r)).sort_by(record_order())
}

/// The items of the first `upto` events that belong to the session, in their order.
pub open spec fn items_upto(events: Seq<(u32, u64, u32)>, upto: nat, session: u32) -> Seq<u64>
    decreases upto,
{
    if upto == 0 || upto > events.len() {
        Seq::empty()
    } else if events[upto - 1].2 == session {
        items_upto(events, (upto - 1) as nat, session).push(events[upto - 1].1)
    } else {
        items_upto(events, (upto - 1) as nat, session)
    }
}

/// Whether one of the sessions has the identifier.
pub open spec fn is_listed(sessions: Seq<TestSession>, session: u32) -> bool {
    exists|s: int| 0 <= s < sessions.len() && (#[trigger] sessions[s]).session_id == session
}

/// The order of records is total.
pub proof fn lemma_record_order_total()
    ensures
        total_ordering(record_order()),
{
    let leq = record_order();
    assert(vstd::relations::reflexive(leq));
    assert(vstd::relations::antisymmetric(leq)) by {
        assert forall|a: (u32, u64, u32), b: (u32, u64, u32)| #[trigger]
            leq(a, b) && #[trigger] leq(b, a) implies a == b by {}
    }
    assert(vstd::relations::transitive(leq));
    assert(vstd::relations::strongly_connected(leq));
}

/// Groups the records of test data into evolving sessions: for each session its
/// items in the order of their events, by time and among events of one time by
/// item. The sessions stand in the order of their first events.
pub fn evolving_sessions(records: Vec<(u32, u64, u32)>) -> (sessions: Vec<TestSession>)
    ensures
        forall|a: int, b: int|
            0 <= a < b < sessions@.len() ==> sessions@[a].session_id != sessions@[b].session_id,
        forall|s: int|
            0 <= s < sessions@.len() ==> (#[trigger] sessions@[s]).items@ == items_upto(
                events_in_order(records@),
                records@.len(),
                sessions@[s].session_id,
            ) && sessions@[s].items@.len() > 0,
        forall|j: int| 0 <= j < records@.len() ==> is_listed(sessions@, (#[trigger] records@[j]).0),
{
    let ghost given = records@;
    let ghost turned = given.map_values(|r: (u32, u64, u32)| by_time(r));
    let n: usize = records.len();
    let mut events: Vec<(u32, u64, u32)> = Vec::new();
    let mut i: usize = 0;
    while i < n
        invariant
            0 <= i <= n,
            n == records@.len(),
            given == records@,
            turned == given.map_values(|r: (u32, u64, u32)| by_time(r)),
            events@ == turned.take(i as int),
        decreases n - i,
    {
        let r: (u32, u64, u32) = records[i];
        events.push((r.2, r.1, r.0));
        proof {
            assert(turned.take(i as int + 1) =~= turned.take(i as int).push(by_time(given[i as int])));
        }
        i = i + 1;
    }
    proof {
        assert(turned.take(n as int) =~= turned);
    }
    sort_records(&mut events);
    let ghost sorted = events@;
    proof {
        lemma_record_order_total();
        turned.lemma_sort_by_ensures(record_order());
        assert(sorted_by(sorted, record_order()));
        vstd::seq_lib::lemma_sorted_unique(sorted, turned.sort_by(record_order()), record_order());
        vstd::seq_lib::to_multiset_len(sorted);
        vstd::seq_lib::to_multiset_len(turned);
        assert(sorted.len() == n);
    }
    let mut slots = table_new();
    let mut sessions: Vec<TestSession> = Vec::new();
    let mut e: usize = 0;
    while e < n
        invariant
            0 <= e <= n,
            n == sorted.len(),
            sorted == events@,
            forall|key: u64| #[trigger]
                slots@.contains_key(key) ==> slots@[key] < sessions@.len()
                    && sessions@[slots@[key] as int].session_id == key,
            forall|s: int|
                0 <= s < sessions@.len() ==> slots@.contains_key(
                    (#[trigger] sessions@[s]).session_id as u64,
                ) && slots@[sessions@[s].session_id as u64] == s,
            forall|s: int|
                0 <= s < sessions@.len() ==> (#[trigger] sessions@[s]).items@ == items_upto(
                    sorted,
                    e as nat,
                    sessions@[s].session_id,
                ) && sessions@[s].items@.len() > 0,
            forall|j: int| 0 <= j < e ==> slots@.contains_key((#[trigger] sorted[j]).2 as u64),
            forall|session: u32|
                !slots@.contains_key(session as u64) ==> items_upto(sorted, e as nat, session).len() == 0,
        decreases n - e,
    {
        let event: (u32, u64, u32) = events[e];
        let ghost slots_before = slots@;
        let ghost sessions_before = sessions@;
        let ghost mut changed: int = 0;
        match table_get(&slots, event.2 as u64) {
            Some(slot) => {
                assert(slot < sessions.len());
                proof {
                    changed = slot as int;
                }
                sessions[slot as usize].items.push(event.1);
            },
            None => {
                proof {
                    changed = sessions.len() as int;
                    assert(items_upto(sorted, e as nat, event.2).len() == 0);
                    assert(items_upto(sorted, e as nat, event.2) =~= Seq::<u64>::empty());
                }
                let slot: usize = sessions.len();
                let _ = table_insert(&mut slots, event.2 as u64, slot as u64);
                let mut items: Vec<u64> = Vec::new();
                items.push(event.1);
                sessions.push(TestSession { session_id: event.2, items });
            },
        }
        proof {
            assert forall|s: int| 0 <= s < sessions@.len() implies (#[trigger] sessions@[s]).items@
                == items_upto(sorted, (e + 1) as nat, sessions@[s].session_id)
                && sessions@[s].items@.len() > 0 by {
                if s != changed {
                    assert(s < sessions_before.len());
                    assert(sessions@[s] == sessions_before[s]);
                    assert(sessions@[s].session_id != event.2) by {
                        if sessions_before[s].session_id == event.2 {
                            assert(slots_before.contains_key(sessions_before[s].session_id as u64));
                        }
                    }
                }
            }
            assert forall|s: int| 0 <= s < sessions@.len() implies slots@.contains_key(
                (#[trigger] sessions@[s]).session_id as u64,
            ) && slots@[sessions@[s].session_id as u64] == s by {
                if s < sessions_before.len() {
                    assert(sessions@[s].session_id == sessions_before[s].session_id);
                    assert(slots_before.contains_key(sessions_before[s].session_id as u64));
                }
            }
            assert forall|key: u64| #[trigger] slots@.contains_key(key) implies slots@[key]
                < sessions@.len() && sessions@[slots@[key] as int].session_id == key by {
                if key != event.2 as u64 {
                    assert(slots_before.contains_key(key));
                    assert(sessions@[slots_before[key] as int].session_id
                        == sessions_before[slots_before[key] as int].session_id);
                }
            }
            assert forall|j: int| 0 <= j < e + 1 implies slots@.contains_key(
                (#[trigger] sorted[j]).2 as u64,
            ) by {
                if j < e {
                    assert(slots_before.contains_key(sorted[j].2 as u64));
                }
            }
            let next: nat = (e + 1) as nat;
            assert forall|session: u32| !slots@.contains_key(session as u64) implies (#[trigger] items_upto(
                sorted,
                next,
                session,
            )).len() == 0 by {
                assert(!slots_before.contains_key(session as u64));
                assert(items_upto(sorted, e as nat, session).len() == 0);
                assert(session != event.2);
            }
        }
        e = e + 1;
    }
    proof {
        assert forall|a: int, b: int| 0 <= a < b < sessions@.len() implies sessions@[a].session_id
            != sessions@[b].session_id by {
            assert(slots@[sessions@[a].session_id as u64] == a);
            assert(slots@[sessions@[b].session_id as u64] == b);
        }
        assert forall|j: int| 0 <= j < given.len() implies is_listed(
            sessions@,
            (#[trigger] given[j]).0,
        ) by {
            let t = turned[j];
            assert(t == by_time(given[j]));
            vstd::seq_lib::to_multiset_contains(turned, t);
            vstd::seq_lib::to_multiset_contains(sorted, t);
            assert(turned.contains(t));
            let k = choose|k: int| 0 <= k < sorted.len() && sorted[k] == t;
            assert(slots@.contains_key(sorted[k].2 as u64));
            let s = slots@[sorted[k].2 as u64] as int;
            assert(sessions@[s].session_id == given[j].0);
        }
    }
    sessions
}

/// Reads test data and groups it into evolving sessions as [`evolving_sessions`]
/// does. Fails with the number of the first line that is no record.
pub fn read_test_data_evolving(test_data: &[u8]) -> (result: Result<Vec<TestSession>, IngestError>)
    ensures
        match result {
            Ok(sessions) => {
                &&& is_training_data(test_data@, Ok(training_records(test_data@)))
                &&& forall|a: int, b: int|
                    0 <= a < b < sessions@.len() ==> sessions@[a].session_id
                        != sessions@[b].session_id
                &&& forall|s: int|
                    0 <= s < sessions@.len() ==> (#[trigger] sessions@[s]).items@ == items_upto(
                        events_in_order(training_records(test_data@)),
                        training_records(test_data@).len(),
                        sessions@[s].session_id,
                    ) && sessions@[s].items@.len() > 0
                &&& forall|j: int|
                    0 <= j < training_records(test_data@).len() ==> is_listed(
                        sessions@,
                        (#[trigger] training_records(test_data@)[j]).0,
                    )
            },
            Err(e) => is_training_data(test_data@, Err(e)),
        },
{
    match read_training_data(test_data) {
        Ok(records) => {
            proof {
                lemma_training_records(test_data@, records@);
            }
            Ok(evolving_sessions(records))
        },
        Err(e) => Err(e),
    }
}

} // verus!
