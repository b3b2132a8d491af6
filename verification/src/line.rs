//! Lines of a measurement file and the `station;temperature` records in them.
use vstd::prelude::*;
use crate::float_text::{accepts_float_text, is_float_text, lemma_float_text_bytes};

verus! {

/// ASCII line feed.
pub const NEWLINE_BYTE: u8 = 10;

/// ASCII carriage return.
pub const RETURN_BYTE: u8 = 13;

/// ASCII `;`, between a station's name and its temperature.
pub const SEPARATOR_BYTE: u8 = 59;

/// The index of the first `b` in `s` at or after `from`, or `s.len()` when there is none.
pub open spec fn find_byte(s: Seq<u8>, b: u8, from: int) -> int
    decreases s.len() - from,
{
    if from >= s.len() {
        s.len() as int
    } else if s[from] == b {
        from
    } else {
        find_byte(s, b, from + 1)
    }
}

pub proof fn lemma_find_byte(s: Seq<u8>, b: u8, from: int)
    requires
        0 <= from <= s.len(),
    ensures
        from <= find_byte(s, b, from) <= s.len(),
        find_byte(s, b, from) < s.len() ==> s[find_byte(s, b, from)] == b,
        forall|k: int| from <= k < find_byte(s, b, from) ==> s[k] != b,
    decreases s.len() - from,
{
    if from < s.len() && s[from] != b {
        lemma_find_byte(s, b, from + 1);
    }
}

/// A line without one trailing carriage return.
pub open spec fn strip_return(l: Seq<u8>) -> Seq<u8> {
    if l.len() > 0 && l.last() == RETURN_BYTE {
        l.drop_last()
    } else {
        l
    }
}

/// The lines of `s` from `from` on: the pieces ended by a line feed (the
/// last one need not be), each without a trailing carriage return. Nothing
/// follows a final line feed.
pub open spec fn lines_from(s: Seq<u8>, from: int) -> Seq<Seq<u8>>
    decreases s.len() + 1 - from,
    via lines_from_decreases
{
    if from < 0 || from >= s.len() {
        seq![]
    } else {
        let e = find_byte(s, NEWLINE_BYTE, from);
        seq![strip_return(s.subrange(from, e))] + lines_from(s, e + 1)
    }
}

#[via_fn]
proof fn lines_from_decreases(s: Seq<u8>, from: int) {
    if 0 <= from < s.len() {
        lemma_find_byte(s, NEWLINE_BYTE, from);
    }
}

/// The lines of a text.
pub open spec fn text_lines(s: Seq<u8>) -> Seq<Seq<u8>> {
    lines_from(s, 0)
}

/// The lines of `s` from `from` on as a buffered reader reads them: the
/// pieces ended by a line feed (the last one need not be); a piece ended by
/// a line feed loses one carriage return before it, the last piece keeps
/// one. Nothing follows a final line feed.
pub open spec fn read_lines_from(s: Seq<u8>, from: int) -> Seq<Seq<u8>>
    decreases s.len() + 1 - from,
    via read_lines_from_decreases
{
    if from < 0 || from >= s.len() {
        seq![]
    } else {
        let e = find_byte(s, NEWLINE_BYTE, from);
        let piece = s.subrange(from, e);
        seq![if e < s.len() { strip_return(piece) } else { piece }] + read_lines_from(s, e + 1)
    }
}

#[via_fn]
proof fn read_lines_from_decreases(s: Seq<u8>, from: int) {
    if 0 <= from < s.len() {
        lemma_find_byte(s, NEWLINE_BYTE, from);
    }
}

/// The lines of a text as a buffered reader reads them.
pub open spec fn read_lines(s: Seq<u8>) -> Seq<Seq<u8>> {
    read_lines_from(s, 0)
}

/// A text that is empty or ends with a line feed is read as its lines.
pub proof fn lemma_read_lines_ended(s: Seq<u8>, from: int)
    requires
        s.len() == 0 || s.last() == NEWLINE_BYTE,
        0 <= from,
    ensures
        read_lines_from(s, from) == lines_from(s, from),
    decreases s.len() + 1 - from,
{
    if from < s.len() {
        lemma_find_byte(s, NEWLINE_BYTE, from);
        let e = find_byte(s, NEWLINE_BYTE, from);
        if e == s.len() {
            assert(s[s.len() - 1] != NEWLINE_BYTE);
        }
        lemma_read_lines_ended(s, e + 1);
    }
}

/// The index of the `;` that ends a line's station name, or the line's length.
pub open spec fn separator_index(l: Seq<u8>) -> int {
    find_byte(l, SEPARATOR_BYTE, 0)
}

pub open spec fn has_separator(l: Seq<u8>) -> bool {
    separator_index(l) < l.len()
}

/// The station name: everything before the first `;`.
pub open spec fn station_part(l: Seq<u8>) -> Seq<u8> {
    l.take(separator_index(l))
}

/// The temperature text: from the first `;` to the next one or to the end.
pub open spec fn temperature_part(l: Seq<u8>) -> Seq<u8> {
    let sep = separator_index(l);
    l.subrange(sep + 1, find_byte(l, SEPARATOR_BYTE, sep + 1))
}

/// Why a line is not a measurement.
#[derive(Debug, Clone, Copy, PartialEq, Eq, Structural)]
pub enum LineError {
    /// The line has no `;`, so no temperature.
    MissingTemperature,
    /// The text after the `;` is not a temperature (see `is_float_text`).
    BadTemperature,
}

/// A line of a file that is not a measurement where one was wanted.
#[derive(Debug, Clone, Copy, PartialEq, Eq, Structural)]
pub struct MeasurementError {
    /// Its index among the file's lines, counting from 0.
    pub line: usize,
    /// Why it is not a measurement.
    pub error: LineError,
}

/// Whether a line is a measurement that `parse_line` accepts: a `;`, and
/// the text of a temperature after it.
pub open spec fn is_measurement(l: Seq<u8>) -> bool {
    &&& has_separator(l)
    &&& is_float_text(temperature_part(l))
}

/// What `parse_line` answers for a line that is not a measurement.
pub open spec fn line_error(l: Seq<u8>) -> LineError {
    if !has_separator(l) {
        LineError::MissingTemperature
    } else {
        LineError::BadTemperature
    }
}

/// Finds the first `b` in `s` at or after `from` (see `find_byte`).
pub fn find_in(s: &[u8], b: u8, from: usize) -> (r: usize)
    requires
        from <= s@.len(),
    ensures
        r == find_byte(s@, b, from as int),
        from <= r <= s@.len(),
{
    let mut j = from;
    while j < s.len() && s[j] != b
        invariant
            from <= j <= s@.len(),
            find_byte(s@, b, from as int) == find_byte(s@, b, j as int),
        decreases s@.len() - j,
    {
        j = j + 1;
    }
    j
}

/// Finds where a measurement line's parts are: the index of its first `;`
/// and the end of its temperature text; refuses a line without `;` or
/// whose temperature text is not one.
pub fn split_line(line: &[u8]) -> (r: Result<(usize, usize), LineError>)
    ensures
        r is Ok <==> is_measurement(line@),
        r matches Ok((sep, end)) ==> sep == separator_index(line@) && end == find_byte(
            line@,
            SEPARATOR_BYTE,
            sep + 1,
        ) && sep < end <= line@.len(),
        r matches Err(e) ==> e == line_error(line@),
{
    let n = line.len();
    let sep = find_in(line, SEPARATOR_BYTE, 0);
    if sep == n {
        return Err(LineError::MissingTemperature);
    }
    let end = find_in(line, SEPARATOR_BYTE, sep + 1);
    if accepts_float_text(&line[sep + 1..end]) {
        Ok((sep, end))
    } else {
        Err(LineError::BadTemperature)
    }
}

/// Splits a measurement line into its station name and its temperature
/// text; refuses a line without `;` or whose temperature text is not one.
pub fn parse_line(line: &[u8]) -> (r: Result<(Vec<u8>, Vec<u8>), LineError>)
    ensures
        r is Ok <==> is_measurement(line@),
        r matches Ok((name, temp)) ==> name@ == station_part(line@) && temp@ == temperature_part(
            line@,
        ),
        r matches Err(e) ==> e == line_error(line@),
{
    match split_line(line) {
        Ok((sep, end)) => {
            let name = vstd::slice::slice_to_vec(&line[0..sep]);
            let temp = vstd::slice::slice_to_vec(&line[sep + 1..end]);
            assert(name@ =~= station_part(line@));
            Ok((name, temp))
        },
        Err(e) => Err(e),
    }
}

/// The bounds of the line that starts at `pos`: it spans `start..end`,
/// and the next line starts at `next` (see `lines_from`).
pub fn next_line(input: &[u8], pos: usize) -> (r: (usize, usize, usize))
    requires
        pos < input@.len(),
    ensures
        r.0 == pos <= r.1 <= r.2 <= input@.len(),
        pos < r.2,
        lines_from(input@, pos as int) == seq![input@.subrange(r.0 as int, r.1 as int)]
            + lines_from(input@, r.2 as int),
{
    let ghost s = input@;
    let n = input.len();
    let e = find_in(input, NEWLINE_BYTE, pos);
    let end: usize = if e > pos && input[e - 1] == RETURN_BYTE {
        e - 1
    } else {
        e
    };
    assert(s.subrange(pos as int, end as int) == strip_return(s.subrange(pos as int, e as int)))
        by {
        if e > pos && s[e - 1] == RETURN_BYTE {
            assert(s.subrange(pos as int, end as int) =~= s.subrange(pos as int, e as int).drop_last());
        } else {
            assert(s.subrange(pos as int, end as int) =~= s.subrange(pos as int, e as int));
        }
    }
    let next: usize = if e == n {
        n
    } else {
        e + 1
    };
    if e == n {
        assert(lines_from(s, n + 1) =~= lines_from(s, n as int));
    }
    (pos, end, next)
}

/// An unended last line is read whole: adding a line feed to a text that
/// ends in neither a line feed nor a carriage return reads the same lines.
pub proof fn lemma_read_unended_last_line(s: Seq<u8>, from: int)
    requires
        s.len() > 0,
        s.last() != NEWLINE_BYTE,
        s.last() != RETURN_BYTE,
        0 <= from < s.len(),
    ensures
        read_lines_from(s, from) == read_lines_from(s.push(NEWLINE_BYTE), from),
    decreases s.len() + 1 - from,
{
    let t = s.push(NEWLINE_BYTE);
    lemma_find_byte(s, NEWLINE_BYTE, from);
    let e = find_byte(s, NEWLINE_BYTE, from);
    assert forall|j: int| from <= j < e implies t[j] != NEWLINE_BYTE by {
        assert(t[j] == s[j]);
    }
    if e < s.len() {
        assert(t[e] == s[e]);
    }
    lemma_find_byte_is(t, NEWLINE_BYTE, from, e);
    assert(t.subrange(from, e) =~= s.subrange(from, e));
    if e < s.len() {
        assert(e + 1 < s.len());
        lemma_read_unended_last_line(s, e + 1);
    } else {
        let piece = s.subrange(from, e);
        assert(piece.last() == s.last());
        assert(strip_return(piece) == piece);
        assert(read_lines_from(t, e + 1) =~= Seq::<Seq<u8>>::empty());
        assert(read_lines_from(s, e + 1) =~= Seq::<Seq<u8>>::empty());
    }
}

/// A text that ends in neither a line feed nor a carriage return reads as
/// the same text with a line feed added.
pub proof fn lemma_read_lines_unended(s: Seq<u8>)
    requires
        s.len() > 0,
        s.last() != NEWLINE_BYTE,
        s.last() != RETURN_BYTE,
    ensures
        read_lines(s) == read_lines(s.push(NEWLINE_BYTE)),
{
    lemma_read_unended_last_line(s, 0);
}

proof fn lemma_read_lines_shift(a: Seq<u8>, c: Seq<u8>, j: int)
    requires
        0 <= j,
    ensures
        read_lines_from(a + c, a.len() + j) == read_lines_from(c, j),
    decreases c.len() + 1 - j,
{
    if j < c.len() {
        lemma_find_byte_shift(a, c, NEWLINE_BYTE, j);
        lemma_find_byte(c, NEWLINE_BYTE, j);
        let e = find_byte(c, NEWLINE_BYTE, j);
        assert((a + c).subrange(a.len() + j, a.len() + e) =~= c.subrange(j, e));
        lemma_read_lines_shift(a, c, e + 1);
        assert(a.len() + e + 1 == a.len() + (e + 1));
    }
}

/// A text read line by line: a first line `a` ended by a line feed is read
/// as `a` without one trailing carriage return, and the rest of the text
/// is read on its own; a non-empty text with no line feed is one line, the
/// whole text.
pub proof fn lemma_read_lines_split(a: Seq<u8>, rest: Seq<u8>)
    requires
        forall|i: int| 0 <= i < a.len() ==> a[i] != NEWLINE_BYTE,
    ensures
        read_lines(a + seq![NEWLINE_BYTE] + rest) == seq![strip_return(a)] + read_lines(rest),
        a.len() > 0 ==> read_lines(a) == seq![a],
{
    let head = a + seq![NEWLINE_BYTE];
    let t = head + rest;
    assert forall|j: int| 0 <= j < a.len() implies t[j] != NEWLINE_BYTE by {
        assert(t[j] == a[j]);
    }
    assert(t[a.len() as int] == NEWLINE_BYTE);
    lemma_find_byte_is(t, NEWLINE_BYTE, 0, a.len() as int);
    assert(t.subrange(0, a.len() as int) =~= a);
    lemma_read_lines_shift(head, rest, 0);
    assert(head.len() + 0 == a.len() + 1);
    if a.len() > 0 {
        lemma_find_byte_is(a, NEWLINE_BYTE, 0, a.len() as int);
        assert(a.subrange(0, a.len() as int) =~= a);
        assert(read_lines_from(a, a.len() + 1int) =~= Seq::<Seq<u8>>::empty());
    }
}

/// The bounds of the line that starts at `pos` as a buffered reader reads
/// it: it spans `start..end`, and the next line starts at `next` (see
/// `read_lines_from`).
pub fn next_read_line(input: &[u8], pos: usize) -> (r: (usize, usize, usize))
    requires
        pos < input@.len(),
    ensures
        r.0 == pos <= r.1 <= r.2 <= input@.len(),
        pos < r.2,
        read_lines_from(input@, pos as int) == seq![input@.subrange(r.0 as int, r.1 as int)]
            + read_lines_from(input@, r.2 as int),
{
    let ghost s = input@;
    let n = input.len();
    let e = find_in(input, NEWLINE_BYTE, pos);
    let end: usize = if e < n && e > pos && input[e - 1] == RETURN_BYTE {
        e - 1
    } else {
        e
    };
    assert(s.subrange(pos as int, end as int) == (if e < n {
        strip_return(s.subrange(pos as int, e as int))
    } else {
        s.subrange(pos as int, e as int)
    })) by {
        if e < n && e > pos && s[e - 1] == RETURN_BYTE {
            assert(s.subrange(pos as int, end as int) =~= s.subrange(pos as int, e as int).drop_last());
        } else {
            assert(s.subrange(pos as int, end as int) =~= s.subrange(pos as int, e as int));
        }
    }
    let next: usize = if e == n {
        n
    } else {
        e + 1
    };
    if e == n {
        assert(read_lines_from(s, n + 1) =~= read_lines_from(s, n as int));
    }
    (pos, end, next)
}

/// The line that states one measurement: `station;temperature` and a line feed.
pub open spec fn measurement_text(station: Seq<u8>, temp: Seq<u8>) -> Seq<u8> {
    station + seq![SEPARATOR_BYTE] + temp + seq![NEWLINE_BYTE]
}

fn push_all(out: &mut Vec<u8>, bytes: &[u8])
    ensures
        final(out)@ == old(out)@ + bytes@,
{
    let mut i: usize = 0;
    while i < bytes.len()
        invariant
            i <= bytes@.len(),
            out@ == old(out)@ + bytes@.take(i as int),
        decreases bytes@.len() - i,
    {
        out.push(bytes[i]);
        i = i + 1;
        assert(out@ =~= old(out)@ + bytes@.take(i as int));
    }
    assert(bytes@.take(i as int) =~= bytes@);
}

/// Appends the line of one measurement (see `measurement_text`).
pub fn push_measurement(out: &mut Vec<u8>, station: &[u8], temp: &[u8])
    ensures
        final(out)@ == old(out)@ + measurement_text(station@, temp@),
{
    push_all(out, station);
    out.push(SEPARATOR_BYTE);
    push_all(out, temp);
    out.push(NEWLINE_BYTE);
    assert(final(out)@ =~= old(out)@ + measurement_text(station@, temp@));
}

/// The line of one measurement (see `measurement_text`).
pub fn measurement_line(station: &[u8], temp: &[u8]) -> (r: Vec<u8>)
    ensures
        r@ == measurement_text(station@, temp@),
{
    let mut out: Vec<u8> = Vec::new();
    push_measurement(&mut out, station, temp);
    assert(out@ =~= measurement_text(station@, temp@));
    out
}

/// A measurement line without its line feed: `station;temperature`.
pub open spec fn measurement_record(station: Seq<u8>, temp: Seq<u8>) -> Seq<u8> {
    station + seq![SEPARATOR_BYTE] + temp
}

/// Whether a station name can stand in a measurement line: it holds no
/// `;` and no line feed.
pub open spec fn plain_name(name: Seq<u8>) -> bool {
    forall|i: int| 0 <= i < name.len() ==> #[trigger] name[i] != SEPARATOR_BYTE && name[i] != NEWLINE_BYTE
}

/// The file that states the measurements `ms`, one line each, in order.
pub open spec fn measurement_file(ms: Seq<(Seq<u8>, Seq<u8>)>) -> Seq<u8>
    decreases ms.len(),
{
    if ms.len() == 0 {
        seq![]
    } else {
        measurement_text(ms[0].0, ms[0].1) + measurement_file(ms.drop_first())
    }
}

/// Whether each measurement of `ms` has a plain name and the text of a temperature.
pub open spec fn writable(ms: Seq<(Seq<u8>, Seq<u8>)>) -> bool {
    forall|i: int| 0 <= i < ms.len() ==> plain_name((#[trigger] ms[i]).0) && is_float_text(ms[i].1)
}

/// The file of some measurements is empty or ends with a line feed.
pub proof fn lemma_measurement_file_ended(ms: Seq<(Seq<u8>, Seq<u8>)>)
    ensures
        measurement_file(ms).len() == 0 || measurement_file(ms).last() == NEWLINE_BYTE,
    decreases ms.len(),
{
    if ms.len() > 0 {
        lemma_measurement_file_ended(ms.drop_first());
        let head = measurement_text(ms[0].0, ms[0].1);
        let tail = measurement_file(ms.drop_first());
        assert(measurement_file(ms) == head + tail);
        if tail.len() == 0 {
            assert(head + tail =~= head);
        } else {
            assert((head + tail).last() == tail.last());
        }
    }
}

proof fn lemma_find_byte_is(s: Seq<u8>, b: u8, from: int, k: int)
    requires
        0 <= from <= k <= s.len(),
        k < s.len() ==> s[k] == b,
        forall|j: int| from <= j < k ==> s[j] != b,
    ensures
        find_byte(s, b, from) == k,
    decreases k - from,
{
    if from < k {
        lemma_find_byte_is(s, b, from + 1, k);
    }
}

proof fn lemma_find_byte_shift(a: Seq<u8>, c: Seq<u8>, b: u8, j: int)
    requires
        0 <= j,
    ensures
        find_byte(a + c, b, a.len() + j) == a.len() + find_byte(c, b, j),
    decreases c.len() - j,
{
    if j < c.len() {
        assert((a + c)[a.len() + j] == c[j]);
        if c[j] != b {
            lemma_find_byte_shift(a, c, b, j + 1);
        }
    }
}

proof fn lemma_lines_shift(a: Seq<u8>, c: Seq<u8>, j: int)
    requires
        0 <= j,
    ensures
        lines_from(a + c, a.len() + j) == lines_from(c, j),
    decreases c.len() + 1 - j,
{
    if j < c.len() {
        lemma_find_byte_shift(a, c, NEWLINE_BYTE, j);
        lemma_find_byte(c, NEWLINE_BYTE, j);
        let e = find_byte(c, NEWLINE_BYTE, j);
        assert((a + c).subrange(a.len() + j, a.len() + e) =~= c.subrange(j, e));
        lemma_lines_shift(a, c, e + 1);
        assert(a.len() + e + 1 == a.len() + (e + 1));
    }
}

/// A measurement line with a plain name and the text of a temperature
/// reads back as that measurement: it is a measurement of `station` with
/// temperature text `temp`, and it has no line feed and no trailing
/// carriage return.
pub proof fn lemma_measurement_record(station: Seq<u8>, temp: Seq<u8>)
    requires
        plain_name(station),
        is_float_text(temp),
    ensures
        is_measurement(measurement_record(station, temp)),
        station_part(measurement_record(station, temp)) == station,
        temperature_part(measurement_record(station, temp)) == temp,
        measurement_record(station, temp).len() > 0,
        strip_return(measurement_record(station, temp)) == measurement_record(station, temp),
        forall|i: int|
            0 <= i < measurement_record(station, temp).len() ==> #[trigger] measurement_record(
                station,
                temp,
            )[i] != NEWLINE_BYTE,
{
    let rec = measurement_record(station, temp);
    let n = station.len() as int;
    lemma_float_text_bytes(temp);
    assert forall|i: int| 0 <= i < rec.len() implies #[trigger] rec[i] != NEWLINE_BYTE && (n < i
        ==> rec[i] != SEPARATOR_BYTE) by {
        if i < n {
            assert(rec[i] == station[i]);
        } else if i > n {
            assert(rec[i] == temp[i - n - 1]);
        }
    }
    lemma_find_byte_is(rec, SEPARATOR_BYTE, 0, n);
    lemma_find_byte_is(rec, SEPARATOR_BYTE, n + 1, rec.len() as int);
    assert(rec.subrange(n + 1, rec.len() as int) =~= temp);
    assert(rec.take(n) =~= station);
    if temp.len() > 0 {
        assert(rec.last() == temp.last());
    } else {
        assert(rec.last() == SEPARATOR_BYTE);
    }
}

/// The file of some writable measurements has exactly one line per
/// measurement, in order, each `station;temperature`; every line is a
/// measurement that gives back the station and the temperature text written.
pub proof fn lemma_measurement_file_lines(ms: Seq<(Seq<u8>, Seq<u8>)>)
    requires
        writable(ms),
    ensures
        text_lines(measurement_file(ms)) == ms.map_values(
            |m: (Seq<u8>, Seq<u8>)| measurement_record(m.0, m.1),
        ),
        forall|i: int|
            0 <= i < ms.len() ==> is_measurement(#[trigger] text_lines(measurement_file(ms))[i])
                && station_part(text_lines(measurement_file(ms))[i]) == ms[i].0 && temperature_part(
                text_lines(measurement_file(ms))[i],
            ) == ms[i].1,
    decreases ms.len(),
{
    if ms.len() > 0 {
        let rest = ms.drop_first();
        assert(writable(rest)) by {
            assert forall|i: int| 0 <= i < rest.len() implies plain_name((#[trigger] rest[i]).0)
                && is_float_text(rest[i].1) by {
                assert(rest[i] == ms[i + 1]);
            }
        }
        lemma_measurement_file_lines(rest);
        assert(plain_name(ms[0].0) && is_float_text(ms[0].1));
        let rec = measurement_record(ms[0].0, ms[0].1);
        lemma_measurement_record(ms[0].0, ms[0].1);
        let head = measurement_text(ms[0].0, ms[0].1);
        assert(head =~= rec.push(NEWLINE_BYTE));
        let file = measurement_file(ms);
        let tail = measurement_file(rest);
        assert(file == head + tail);
        assert forall|j: int| 0 <= j < rec.len() implies file[j] != NEWLINE_BYTE by {
            assert(file[j] == rec[j]);
        }
        assert(file[rec.len() as int] == NEWLINE_BYTE);
        lemma_find_byte_is(file, NEWLINE_BYTE, 0, rec.len() as int);
        assert(file.subrange(0, rec.len() as int) =~= rec);
        lemma_lines_shift(head, tail, 0);
        assert(head.len() + 0 == rec.len() + 1);
        assert(text_lines(file) == seq![rec] + text_lines(tail));
        assert(text_lines(file) =~= ms.map_values(
            |m: (Seq<u8>, Seq<u8>)| measurement_record(m.0, m.1),
        ));
        assert forall|i: int| 0 <= i < ms.len() implies is_measurement(
            #[trigger] text_lines(measurement_file(ms))[i],
        ) && station_part(text_lines(measurement_file(ms))[i]) == ms[i].0 && temperature_part(
            text_lines(measurement_file(ms))[i],
        ) == ms[i].1 by {
            if i > 0 {
                assert(text_lines(file)[i] == text_lines(tail)[i - 1]);
                assert(rest[i - 1] == ms[i]);
            }
        }
    }
}

} // verus!
