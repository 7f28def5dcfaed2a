//! The line-oriented pipeline: split the input into chunks that end on a
//! line boundary, tally each chunk into a table of stations, and merge the
//! tables.
use vstd::prelude::*;

use fxhash::FxHashMap;

use super::bytes::{
    first_at_or_after, index_positions, lemma_first_at_or_after, lemma_first_at_or_after_bounds,
    lemma_index_positions, memchr_all, memchr_first, position_from,
};
use super::table::{
    new_station_table, station_entries, station_get_mut, station_insert,
    station_table,
};
use super::{single, Name, Summary, Temperature};
use crate::{decimal_fits, decimal_value, parse_decimal_bytes};

verus! {

/// Room reserved in each table for the stations that it will hold.
pub const UNIQUE_STATIONS: usize = 512;

/// The byte that ends a line.
pub const NEWLINE: u8 = 10;

/// The byte that separates a station's name from its reading.
pub const SEPARATOR: u8 = 59;

// ---------------------------------------------------------------------------
// Splitting the input
// ---------------------------------------------------------------------------

/// The split points after `start`, at most `remaining` of them: each is
/// found by stepping `chunk` bytes past the previous one and moving on to
/// just after the next newline; the search stops where no newline is left.
pub open spec fn split_from(data: Seq<u8>, chunk: int, start: int, remaining: nat) -> Seq<int>
    decreases remaining,
{
    if remaining == 0 {
        Seq::empty()
    } else {
        let newline = first_at_or_after(data, NEWLINE, start + chunk);
        if newline < data.len() {
            seq![newline + 1] + split_from(data, chunk, newline + 1, (remaining - 1) as nat)
        } else {
            Seq::empty()
        }
    }
}

/// No step of `split_from` goes past the end of the data.
pub open spec fn split_fits(data: Seq<u8>, chunk: int, start: int, remaining: nat) -> bool
    decreases remaining,
{
    remaining == 0 || (start + chunk <= data.len() && (first_at_or_after(
        data,
        NEWLINE,
        start + chunk,
    ) < data.len() ==> split_fits(
        data,
        chunk,
        first_at_or_after(data, NEWLINE, start + chunk) + 1,
        (remaining - 1) as nat,
    )))
}

/// The split points for `n` workers: up to `n - 1` points found with
/// steps of `data.len() / n` bytes, then the end of the data.
pub open spec fn split_points(n: int, data: Seq<u8>) -> Seq<int> {
    split_from(data, data.len() as int / n, 0, (n - 1) as nat).push(data.len() as int)
}

/// `split_file` can split the data among `n` workers: `n` is positive and
/// no step goes past the end of the data.
pub open spec fn can_split(n: int, data: Seq<u8>) -> bool {
    n > 0 && split_fits(data, data.len() as int / n, 0, (n - 1) as nat)
}

/// The points that `split_from` finds lie after `start`, each just after a
/// newline, in strictly increasing order, and not past the end.
pub proof fn lemma_split_from_shape(data: Seq<u8>, chunk: int, start: int, remaining: nat)
    requires
        0 <= start,
        0 <= chunk,
        split_fits(data, chunk, start, remaining),
    ensures
        forall|i: int|
            0 <= i < split_from(data, chunk, start, remaining).len() ==> start < #[trigger] split_from(
                data,
                chunk,
                start,
                remaining,
            )[i] <= data.len() && data[split_from(data, chunk, start, remaining)[i] - 1]
                == NEWLINE,
        forall|i: int, j: int|
            0 <= i < j < split_from(data, chunk, start, remaining).len() ==> #[trigger] split_from(
                data,
                chunk,
                start,
                remaining,
            )[i] < #[trigger] split_from(data, chunk, start, remaining)[j],
    decreases remaining,
{
    if remaining > 0 {
        let next = start + chunk;
        let newline = first_at_or_after(data, NEWLINE, next);
        lemma_first_at_or_after_bounds(data, NEWLINE, next);
        if newline < data.len() {
            lemma_split_from_shape(data, chunk, newline + 1, (remaining - 1) as nat);
            let rest = split_from(data, chunk, newline + 1, (remaining - 1) as nat);
            let all = split_from(data, chunk, start, remaining);
            assert(all == seq![newline + 1] + rest);
            assert forall|i: int, j: int| 0 <= i < j < all.len() implies #[trigger] all[i]
                < #[trigger] all[j] by {
                if i > 0 {
                    assert(all[i] == rest[i - 1]);
                }
                assert(all[j] == rest[j - 1]);
            }
            assert forall|i: int| 0 <= i < all.len() implies start < #[trigger] all[i]
                <= data.len() && data[all[i] - 1] == NEWLINE by {
                if i > 0 {
                    assert(all[i] == rest[i - 1]);
                }
            }
        }
    }
}

/// Splits the data among `num_of_threads` workers, as `split_file` does;
/// where `split_file` would fail (no worker, or a step past the end of the
/// data), it returns `None`.
pub fn try_split_file(num_of_threads: usize, data: &[u8]) -> (points: Option<Vec<usize>>)
    ensures
        points is Some <==> can_split(num_of_threads as int, data@),
        points matches Some(v) ==> v@.map_values(|p: usize| p as int) == split_points(
            num_of_threads as int,
            data@,
        ),
{
    if num_of_threads == 0 {
        return None;
    }
    let mut split_points: Vec<usize> = Vec::with_capacity(num_of_threads);
    let chunk_size = data.len() / num_of_threads;
    let ghost chunk: int = chunk_size as int;
    let ghost total = split_from(data@, chunk, 0, (num_of_threads - 1) as nat);
    let mut start: usize = 0;
    let mut k: usize = 1;
    assert(split_points@.map_values(|p: usize| p as int) + split_from(
        data@,
        chunk,
        0,
        (num_of_threads - k) as nat,
    ) =~= total);
    while k < num_of_threads
        invariant
            chunk == data@.len() as int / num_of_threads as int,
            chunk_size == chunk,
            total == split_from(data@, chunk, 0, (num_of_threads - 1) as nat),
            1 <= k <= num_of_threads,
            start <= data@.len(),
            split_points@.map_values(|p: usize| p as int) + split_from(
                data@,
                chunk,
                start as int,
                (num_of_threads - k) as nat,
            ) == total,
            split_fits(data@, chunk, 0, (num_of_threads - 1) as nat) <==> split_fits(
                data@,
                chunk,
                start as int,
                (num_of_threads - k) as nat,
            ),
        ensures
            split_points@.map_values(|p: usize| p as int) == total,
            split_fits(data@, chunk, 0, (num_of_threads - 1) as nat),
        decreases num_of_threads - k,
    {
        let ghost remaining = (num_of_threads - k) as nat;
        if chunk_size > data.len() - start {
            return None;
        }
        let next_split = start + chunk_size;
        let rest = &data[next_split..data.len()];
        let found = memchr_first(NEWLINE, rest);
        match found {
            Some(newline_pos) => {
                proof {
                    assert forall|j: int| next_split <= j < next_split + newline_pos implies data@[j]
                        != NEWLINE by {
                        assert(rest@[j - next_split] == data@[j]);
                    }
                    assert(rest@[newline_pos as int] == data@[next_split + newline_pos]);
                    lemma_first_at_or_after(
                        data@,
                        NEWLINE,
                        next_split as int,
                        next_split + newline_pos,
                    );
                }
                let ghost before = split_points@.map_values(|p: usize| p as int);
                start = next_split + newline_pos + 1;
                split_points.push(start);
                assert(split_points@.map_values(|p: usize| p as int) =~= before.push(
                    start as int,
                ));
                assert(split_from(data@, chunk, (start - newline_pos - 1 - chunk) as int, remaining)
                    == seq![start as int] + split_from(
                    data@,
                    chunk,
                    start as int,
                    (remaining - 1) as nat,
                ));
                assert(before.push(start as int) + split_from(
                    data@,
                    chunk,
                    start as int,
                    (remaining - 1) as nat,
                ) =~= before + (seq![start as int] + split_from(
                    data@,
                    chunk,
                    start as int,
                    (remaining - 1) as nat,
                )));
            },
            None => {
                proof {
                    assert forall|j: int| next_split <= j < data@.len() implies data@[j]
                        != NEWLINE by {
                        assert(rest@[j - next_split] == data@[j]);
                    }
                    lemma_first_at_or_after(data@, NEWLINE, next_split as int, data@.len() as int);
                }
                assert(split_points@.map_values(|p: usize| p as int) =~= total);
                break ;
            },
        }
        k = k + 1;
    }
    let ghost before = split_points@.map_values(|p: usize| p as int);
    split_points.push(data.len());
    assert(split_points@.map_values(|p: usize| p as int) =~= before.push(data@.len() as int));
    Some(split_points)
}

/// The positions at which the data is cut among `num_of_threads` workers:
/// starting from the front, each point steps `data.len() / num_of_threads`
/// bytes past the previous one and moves on to just after the next newline;
/// at most `num_of_threads - 1` such points are found, fewer where no
/// newline is left, and the length of the data always comes last. The
/// front of the data is not itself a point.
pub fn split_file(num_of_threads: usize, data: &[u8]) -> (points: Vec<usize>)
    requires
        can_split(num_of_threads as int, data@),
    ensures
        points@.map_values(|p: usize| p as int) == split_points(num_of_threads as int, data@),
{
    try_split_file(num_of_threads, data).unwrap()
}

// ---------------------------------------------------------------------------
// Lines and readings
// ---------------------------------------------------------------------------

/// Where line `k` of `s` starts: at the front for the first line, else just
/// after the newline that ends line `k - 1`.
pub open spec fn line_start(s: Seq<u8>, k: int) -> int {
    if k == 0 {
        0
    } else {
        index_positions(s, NEWLINE)[k - 1] + 1
    }
}

/// The complete lines of `s`, without their newlines. Bytes after the last
/// newline form no line.
pub open spec fn lines_of(s: Seq<u8>) -> Seq<Seq<u8>> {
    Seq::new(
        index_positions(s, NEWLINE).len(),
        |k: int| s.subrange(line_start(s, k), index_positions(s, NEWLINE)[k]),
    )
}

/// Where the first `;` of a line stands (its length where there is none).
pub open spec fn separator_at(line: Seq<u8>) -> int {
    first_at_or_after(line, SEPARATOR, 0)
}

/// The station named by a line: what stands before its first `;`.
pub open spec fn line_station(line: Seq<u8>) -> Seq<u8> {
    line.take(separator_at(line))
}

/// The reading field of a line: what stands between its first `;` and the
/// next `;` or the end of the line.
pub open spec fn line_field(line: Seq<u8>) -> Seq<u8> {
    line.subrange(separator_at(line) + 1, first_at_or_after(line, SEPARATOR, separator_at(line) + 1))
}

/// The reading of a line, in tenths.
pub open spec fn line_reading(line: Seq<u8>) -> int {
    decimal_value(line_field(line))
}

/// The line has a `;`, and its reading fits an `i16`.
pub open spec fn line_readable(line: Seq<u8>) -> bool {
    separator_at(line) < line.len() && decimal_fits(line_field(line))
}

// ---------------------------------------------------------------------------
// Tallying readings into a table
// ---------------------------------------------------------------------------

/// A table after one more reading `temp` of station `name`: a station seen
/// before gets the reading added to its sum and count and folded into its
/// lowest and highest reading; a new station gets a summary of the reading.
pub open spec fn add_reading(m: Map<Seq<u8>, Summary>, name: Seq<u8>, temp: int) -> Map<
    Seq<u8>,
    Summary,
> {
    if m.contains_key(name) {
        let t = m[name];
        m.insert(
            name,
            (
                t.0,
                if temp < t.1 {
                    temp as i16
                } else {
                    t.1
                },
                (t.2 + temp) as i16,
                if temp > t.3 {
                    temp as i16
                } else {
                    t.3
                },
                (t.4 + 1) as u16,
            ),
        )
    } else {
        m.insert(name, single(name, temp as i16))
    }
}

/// Adding the reading overflows neither the sum (`i16`) nor the count
/// (`u16`) of the station.
pub open spec fn reading_fits(m: Map<Seq<u8>, Summary>, name: Seq<u8>, temp: int) -> bool {
    m.contains_key(name) ==> (i16::MIN <= m[name].2 + temp <= i16::MAX && m[name].4 + 1
        <= u16::MAX)
}

/// The table of the readings of `lines`, taken in order.
pub open spec fn tally(lines: Seq<Seq<u8>>) -> Map<Seq<u8>, Summary>
    decreases lines.len(),
{
    if lines.len() == 0 {
        Map::empty()
    } else {
        add_reading(
            tally(lines.drop_last()),
            line_station(lines.last()),
            line_reading(lines.last()),
        )
    }
}

/// Every line can be read and tallied without overflow.
pub open spec fn tally_ok(lines: Seq<Seq<u8>>) -> bool
    decreases lines.len(),
{
    lines.len() == 0 || {
        &&& tally_ok(lines.drop_last())
        &&& line_readable(lines.last())
        &&& reading_fits(
            tally(lines.drop_last()),
            line_station(lines.last()),
            line_reading(lines.last()),
        )
    }
}

/// A summary that holds at least one reading and is consistent: its lowest
/// reading is at most its highest, and the sum lies between count times
/// the lowest and count times the highest.
pub open spec fn summary_wf(t: Summary) -> bool {
    &&& t.4 >= 1
    &&& t.1 <= t.3
    &&& t.1 * t.4 <= t.2 <= t.3 * t.4
}

/// Every summary of the table is stored under its own name.
pub open spec fn names_match(m: Map<Seq<u8>, Summary>) -> bool {
    forall|k: Seq<u8>| #[trigger] m.contains_key(k) ==> m[k].0 == k
}

/// Every summary of the table is consistent and is stored under its own
/// name.
pub open spec fn table_wf(m: Map<Seq<u8>, Summary>) -> bool {
    forall|k: Seq<u8>| #[trigger] m.contains_key(k) ==> m[k].0 == k && summary_wf(m[k])
}

/// Bounds on a sum of two groups of readings follow from bounds on each.
pub proof fn lemma_combined_bounds(
    lo1: int,
    s1: int,
    hi1: int,
    c1: int,
    lo2: int,
    s2: int,
    hi2: int,
    c2: int,
)
    requires
        c1 >= 0,
        c2 >= 0,
        lo1 * c1 <= s1 <= hi1 * c1,
        lo2 * c2 <= s2 <= hi2 * c2,
    ensures
        (if lo2 < lo1 {
            lo2
        } else {
            lo1
        }) * (c1 + c2) <= s1 + s2,
        s1 + s2 <= (if hi2 > hi1 {
            hi2
        } else {
            hi1
        }) * (c1 + c2),
{
    let lo = if lo2 < lo1 {
        lo2
    } else {
        lo1
    };
    let hi = if hi2 > hi1 {
        hi2
    } else {
        hi1
    };
    assert(lo * c1 <= lo1 * c1) by (nonlinear_arith)
        requires
            lo <= lo1,
            c1 >= 0,
    ;
    assert(lo * c2 <= lo2 * c2) by (nonlinear_arith)
        requires
            lo <= lo2,
            c2 >= 0,
    ;
    assert(hi1 * c1 <= hi * c1) by (nonlinear_arith)
        requires
            hi1 <= hi,
            c1 >= 0,
    ;
    assert(hi2 * c2 <= hi * c2) by (nonlinear_arith)
        requires
            hi2 <= hi,
            c2 >= 0,
    ;
    assert(lo * (c1 + c2) == lo * c1 + lo * c2) by (nonlinear_arith);
    assert(hi * (c1 + c2) == hi * c1 + hi * c2) by (nonlinear_arith);
}

/// One more reading keeps a consistent table consistent.
pub proof fn lemma_add_reading_wf(m: Map<Seq<u8>, Summary>, name: Seq<u8>, temp: int)
    requires
        table_wf(m),
        i16::MIN <= temp <= i16::MAX,
        reading_fits(m, name, temp),
    ensures
        table_wf(add_reading(m, name, temp)),
{
    let r = add_reading(m, name, temp);
    if m.contains_key(name) {
        let t = m[name];
        lemma_combined_bounds(t.1 as int, t.2 as int, t.3 as int, t.4 as int, temp, temp, temp, 1);
    }
    assert forall|k: Seq<u8>| #[trigger] r.contains_key(k) implies r[k].0 == k && summary_wf(
        r[k],
    ) by {
        if k != name {
            assert(m.contains_key(k));
        }
    }
}

/// The table of any readable prefix of the lines is consistent.
pub proof fn lemma_tally_wf(lines: Seq<Seq<u8>>)
    requires
        tally_ok(lines),
    ensures
        table_wf(tally(lines)),
    decreases lines.len(),
{
    if lines.len() > 0 {
        lemma_tally_wf(lines.drop_last());
        lemma_digits_fit_i16(line_field(lines.last()));
        lemma_add_reading_wf(
            tally(lines.drop_last()),
            line_station(lines.last()),
            line_reading(lines.last()),
        );
    }
}

/// A readable field reads as an `i16`.
pub proof fn lemma_digits_fit_i16(field: Seq<u8>)
    requires
        decimal_fits(field),
    ensures
        i16::MIN <= decimal_value(field) <= i16::MAX,
{
    crate::lemma_digits_value_nonneg(crate::unsigned_part(field));
}

/// What can be tallied as a whole can be tallied up to any point.
pub proof fn lemma_tally_ok_prefix(lines: Seq<Seq<u8>>, k: int)
    requires
        tally_ok(lines),
        0 <= k <= lines.len(),
    ensures
        tally_ok(lines.take(k)),
    decreases lines.len(),
{
    if k == lines.len() {
        assert(lines.take(k) =~= lines);
    } else {
        assert(lines.drop_last().take(k) =~= lines.take(k));
        lemma_tally_ok_prefix(lines.drop_last(), k);
    }
}

/// The bytes of line `k` of `s`, with the bounds that make them a range.
pub proof fn lemma_line_bounds(s: Seq<u8>, k: int)
    requires
        0 <= k < index_positions(s, NEWLINE).len(),
    ensures
        0 <= line_start(s, k) <= index_positions(s, NEWLINE)[k] < s.len(),
        lines_of(s)[k] == s.subrange(line_start(s, k), index_positions(s, NEWLINE)[k]),
{
    lemma_index_positions(s, NEWLINE);
    if k > 0 {
        assert(index_positions(s, NEWLINE)[k - 1] < index_positions(s, NEWLINE)[k]);
    }
}

/// One more line can be tallied exactly when it is readable and its
/// reading fits; and a prefix that cannot be tallied spoils the whole.
pub proof fn lemma_tally_ok_step(lines: Seq<Seq<u8>>, i: int)
    requires
        0 <= i < lines.len(),
        tally_ok(lines.take(i)),
    ensures
        tally_ok(lines.take(i + 1)) <==> (line_readable(lines[i]) && reading_fits(
            tally(lines.take(i)),
            line_station(lines[i]),
            line_reading(lines[i]),
        )),
        !tally_ok(lines.take(i + 1)) ==> !tally_ok(lines),
{
    assert(lines.take(i + 1).drop_last() =~= lines.take(i));
    assert(lines.take(i + 1).last() == lines[i]);
    if tally_ok(lines) {
        lemma_tally_ok_prefix(lines, i + 1);
    }
}

/// Tallies the complete lines of `data[start..end]`, each of the form
/// `name;reading`, into a table of stations, as `process` does; where
/// `process` would fail (a range outside the data, a line without `;`, a
/// reading or a sum that overflows its integer), it returns `None`.
pub fn try_process(start: usize, end: usize, data: &[u8]) -> (record: Option<
    FxHashMap<Name, Temperature>,
>)
    ensures
        record is Some <==> (start <= end <= data@.len() && tally_ok(
            lines_of(data@.subrange(start as int, end as int)),
        )),
        record matches Some(m) ==> station_table(m) == tally(
            lines_of(data@.subrange(start as int, end as int)),
        ),
        record matches Some(m) ==> table_wf(station_table(m)),
{
    if start > end || end > data.len() {
        return None;
    }
    let part = &data[start..end];
    let ghost chunk = part@;
    let ghost lines = lines_of(chunk);
    let ghost positions_spec = index_positions(chunk, NEWLINE);
    let mut record = new_station_table(UNIQUE_STATIONS);
    let positions = memchr_all(NEWLINE, part);
    assert(positions@.len() == positions_spec.len());
    assert(forall|k: int| 0 <= k < positions@.len() ==> positions@[k] as int == positions_spec[k]) by {
        assert forall|k: int| 0 <= k < positions@.len() implies positions@[k] as int
            == positions_spec[k] by {
            assert(positions@.map_values(|p: usize| p as int)[k] == positions@[k] as int);
        }
    }
    let mut last_pos: usize = 0;
    let mut i: usize = 0;
    assert(lines.take(0) =~= Seq::<Seq<u8>>::empty());
    while i < positions.len()
        invariant
            chunk == part@,
            chunk == data@.subrange(start as int, end as int),
            lines == lines_of(chunk),
            positions_spec == index_positions(chunk, NEWLINE),
            positions@.len() == positions_spec.len(),
            lines.len() == positions_spec.len(),
            forall|k: int| 0 <= k < positions@.len() ==> positions@[k] as int == positions_spec[k],
            0 <= i <= positions@.len(),
            tally_ok(lines.take(i as int)),
            last_pos == line_start(chunk, i as int),
            station_table(record) == tally(lines.take(i as int)),
        decreases positions@.len() - i,
    {
        let next_pos = positions[i];
        proof {
            lemma_line_bounds(chunk, i as int);
            if i + 1 < positions@.len() {
                lemma_index_positions(chunk, NEWLINE);
                assert(positions_spec[i as int] < positions_spec[i + 1]);
            }
        }
        assert(next_pos < part.len());
        let line = &part[last_pos..next_pos];
        assert(line@ == lines[i as int]);
        last_pos = next_pos + 1;

        let ghost before = lines.take(i as int);
        proof {
            lemma_tally_ok_step(lines, i as int);
            assert(lines.take(i + 1).drop_last() =~= before);
            assert(lines.take(i + 1).last() == lines[i as int]);
            lemma_tally_wf(before);
            lemma_first_at_or_after_bounds(line@, SEPARATOR, 0);
        }
        let sep = position_from(line, SEPARATOR, 0);
        if sep >= line.len() {
            return None;
        }
        let name = &line[0..sep];
        assert(name@ == line_station(line@));
        proof {
            lemma_first_at_or_after_bounds(line@, SEPARATOR, sep + 1);
        }
        let field_end = position_from(line, SEPARATOR, sep + 1);
        let field = &line[sep + 1..field_end];
        assert(field@ == line_field(line@));
        if !crate::decimal_fits_i16(field) {
            return None;
        }
        let temp = parse_decimal_bytes(field);
        proof {
            lemma_digits_fit_i16(field@);
        }
        match station_get_mut(&mut record, name) {
            Some(t) => {
                let new_sum: i32 = t.sum as i32 + temp as i32;
                if new_sum < -32768 || new_sum > 32767 || t.count == 65535 {
                    return None;
                }
                t.sum = t.sum + temp;
                t.count = t.count + 1;
                if t.min > temp {
                    t.min = temp;
                } else if t.max < temp {
                    t.max = temp;
                }
            },
            None => {
                station_insert(
                    &mut record,
                    vstd::slice::slice_to_vec(name),
                    Temperature::new(vstd::slice::slice_to_vec(name), temp),
                );
            },
        }
        assert(station_table(record) =~= add_reading(tally(before), line_station(line@), temp as int));
        i = i + 1;
    }
    assert(lines.take(i as int) =~= lines);
    proof {
        lemma_tally_wf(lines);
    }
    Some(record)
}

/// Tallies the complete lines of `data[start..end]`, each of the form
/// `name;reading`, into a table of stations. Bytes after the last newline
/// are not read. A station seen before gets the reading added to its sum
/// and count, and gets it as its lowest or else as its highest reading
/// where it is lower or higher; a new station gets a summary of the
/// reading alone.
pub fn process(start: usize, end: usize, data: &[u8]) -> (record: FxHashMap<Name, Temperature>)
    requires
        start <= end <= data@.len(),
        tally_ok(lines_of(data@.subrange(start as int, end as int))),
    ensures
        station_table(record) == tally(lines_of(data@.subrange(start as int, end as int))),
        table_wf(station_table(record)),
{
    try_process(start, end, data).unwrap()
}

// ---------------------------------------------------------------------------
// Merging tables
// ---------------------------------------------------------------------------

/// A station's summary after a part's summary of it is merged in: the sums
/// and counts add up, the lowest and highest readings are the lower and
/// the higher of the two.
pub open spec fn merge_summary(r: Summary, p: Summary) -> Summary {
    (
        r.0,
        if r.1 > p.1 {
            p.1
        } else {
            r.1
        },
        (r.2 + p.2) as i16,
        if r.3 < p.3 {
            p.3
        } else {
            r.3
        },
        (r.4 + p.4) as u16,
    )
}

/// `record` after the table `part` is merged into it: a station of both
/// gets the two summaries merged; a station of `part` alone enters with a
/// summary of a single reading, its lowest one in `part` (its sum, highest
/// reading and count in `part` are not carried over).
pub open spec fn merge_tables(record: Map<Seq<u8>, Summary>, part: Map<Seq<u8>, Summary>) -> Map<
    Seq<u8>,
    Summary,
> {
    Map::new(
        |k: Seq<u8>| record.contains_key(k) || part.contains_key(k),
        |k: Seq<u8>|
            if record.contains_key(k) {
                if part.contains_key(k) {
                    merge_summary(record[k], part[k])
                } else {
                    record[k]
                }
            } else {
                single(k, part[k].1)
            },
    )
}

/// Merging `part` into `record` overflows no sum (`i16`) and no count
/// (`u16`).
pub open spec fn merge_fits(record: Map<Seq<u8>, Summary>, part: Map<Seq<u8>, Summary>) -> bool {
    forall|k: Seq<u8>|
        #[trigger] record.contains_key(k) && part.contains_key(k) ==> i16::MIN <= record[k].2
            + part[k].2 <= i16::MAX && record[k].4 + part[k].4 <= u16::MAX
}

/// The tables merged in order into an empty one.
pub open spec fn merge_all(parts: Seq<Map<Seq<u8>, Summary>>) -> Map<Seq<u8>, Summary>
    decreases parts.len(),
{
    if parts.len() == 0 {
        Map::empty()
    } else {
        merge_tables(merge_all(parts.drop_last()), parts.last())
    }
}

/// Each merge in turn fits.
pub open spec fn merge_all_ok(parts: Seq<Map<Seq<u8>, Summary>>) -> bool
    decreases parts.len(),
{
    parts.len() == 0 || (merge_all_ok(parts.drop_last()) && merge_fits(
        merge_all(parts.drop_last()),
        parts.last(),
    ))
}

/// The plain contents of each table of a list.
pub open spec fn tables_of(maps: Seq<FxHashMap<Name, Temperature>>) -> Seq<Map<Seq<u8>, Summary>> {
    maps.map_values(|m: FxHashMap<Name, Temperature>| station_table(m))
}

/// Merges `part` into `record`, station by station; where a sum or a count
/// would overflow it stops and returns `false`.
fn try_merge_into(record: &mut FxHashMap<Name, Temperature>, part: FxHashMap<Name, Temperature>) -> (ok:
    bool)
    ensures
        ok == merge_fits(station_table(*old(record)), station_table(part)),
        ok ==> station_table(*final(record)) == merge_tables(
            station_table(*old(record)),
            station_table(part),
        ),
{
    let ghost r0 = station_table(*record);
    let ghost p = station_table(part);
    let entries = station_entries(part);
    let ghost mut done: Map<Seq<u8>, Summary> = Map::empty();
    let mut j: usize = 0;
    while j < entries.len()
        invariant
            r0 == station_table(*old(record)),
            p == station_table(part),
            forall|a: int, b: int|
                0 <= a < b < entries@.len() ==> (#[trigger] entries@[a]).0@ != (#[trigger] entries@[b]).0@,
            forall|a: int|
                0 <= a < entries@.len() ==> p.contains_key((#[trigger] entries@[a]).0@)
                    && p[entries@[a].0@] == entries@[a].1@,
            0 <= j <= entries@.len(),
            forall|k: Seq<u8>|
                #[trigger] done.contains_key(k) <==> exists|a: int|
                    0 <= a < j && (#[trigger] entries@[a]).0@ == k,
            forall|k: Seq<u8>| #[trigger] done.contains_key(k) ==> p.contains_key(k) && done[k] == p[k],
            merge_fits(r0, done),
            station_table(*record) == merge_tables(r0, done),
        decreases entries@.len() - j,
    {
        let key = &entries[j].0;
        let value = &entries[j].1;
        let ghost k = key@;
        assert(!done.contains_key(k)) by {
            if done.contains_key(k) {
                let a = choose|a: int| 0 <= a < j && (#[trigger] entries@[a]).0@ == k;
                assert(entries@[a].0@ != entries@[j as int].0@);
            }
        }
        match station_get_mut(record, key.as_slice()) {
            Some(t) => {
                let new_sum: i32 = t.sum as i32 + value.sum as i32;
                let new_count: u32 = t.count as u32 + value.count as u32;
                if new_sum < -32768 || new_sum > 32767 || new_count > 65535 {
                    assert(r0.contains_key(k) && p.contains_key(k));
                    assert(!merge_fits(r0, p));
                    return false;
                }
                t.sum = t.sum + value.sum;
                t.count = t.count + value.count;
                if t.min > value.min {
                    t.min = value.min;
                }
                if t.max < value.max {
                    t.max = value.max;
                }
            },
            None => {
                let name = key.clone();
                assert(name@ =~= key@);
                let owned = key.clone();
                assert(owned@ =~= key@);
                station_insert(record, name, Temperature::new(owned, value.min));
            },
        }
        proof {
            let done2 = done.insert(k, p[k]);
            assert forall|q: Seq<u8>| #[trigger] done2.contains_key(q) <==> exists|a: int|
                0 <= a < j + 1 && (#[trigger] entries@[a]).0@ == q by {
                if done2.contains_key(q) && q != k {
                    assert(done.contains_key(q));
                }
                if exists|a: int| 0 <= a < j + 1 && (#[trigger] entries@[a]).0@ == q {
                    let a = choose|a: int| 0 <= a < j + 1 && (#[trigger] entries@[a]).0@ == q;
                    if a < j {
                        assert(done.contains_key(q));
                    }
                }
            }
            assert(station_table(*record) =~= merge_tables(r0, done2));
            done = done2;
        }
        j = j + 1;
    }
    assert(done =~= p) by {
        assert forall|k: Seq<u8>| #[trigger] p.contains_key(k) implies done.contains_key(k) by {
            let a = choose|a: int| 0 <= a < entries@.len() && (#[trigger] entries@[a]).0@ == k;
        }
    }
    true
}

/// Merges the tables in order into one, as `merge_hashmaps` does; where a
/// sum or a count would overflow, it returns `None`.
pub fn try_merge_hashmaps(thread_data: Vec<FxHashMap<Name, Temperature>>) -> (record: Option<
    FxHashMap<Name, Temperature>,
>)
    ensures
        record is Some <==> merge_all_ok(tables_of(thread_data@)),
        record matches Some(m) ==> station_table(m) == merge_all(tables_of(thread_data@)),
        record matches Some(m) ==> names_match(station_table(m)),
{
    let ghost tables = tables_of(thread_data@);
    let mut record = new_station_table(UNIQUE_STATIONS);
    assert(tables.take(0) =~= Seq::<Map<Seq<u8>, Summary>>::empty());
    for t in it: thread_data
        invariant
            tables == tables_of(it.seq()),
            merge_all_ok(tables.take(it.index() as int)),
            station_table(record) == merge_all(tables.take(it.index() as int)),
    {
        let ghost i = it.index() as int;
        assert(tables.take(i + 1).drop_last() =~= tables.take(i));
        assert(tables.take(i + 1).last() == station_table(t));
        if !try_merge_into(&mut record, t) {
            proof {
                lemma_merge_all_ok_prefix(tables, i + 1);
            }
            return None;
        }
    }
    assert(tables.take(tables.len() as int) =~= tables);
    proof {
        lemma_merge_all_names(tables);
    }
    Some(record)
}

/// What merges without overflow as a whole does so up to any point.
pub proof fn lemma_merge_all_ok_prefix(parts: Seq<Map<Seq<u8>, Summary>>, k: int)
    requires
        0 <= k <= parts.len(),
    ensures
        merge_all_ok(parts) ==> merge_all_ok(parts.take(k)),
    decreases parts.len(),
{
    if k == parts.len() {
        assert(parts.take(k) =~= parts);
    } else {
        assert(parts.drop_last().take(k) =~= parts.take(k));
        lemma_merge_all_ok_prefix(parts.drop_last(), k);
    }
}

/// Merges the per-chunk tables, in order, into one table. A station that
/// the merged table already holds gets the part's sum and count added and
/// its lowest and highest readings folded in; a station that it does not
/// hold yet enters with a summary of a single reading, the part's lowest.
pub fn merge_hashmaps(thread_data: Vec<FxHashMap<Name, Temperature>>) -> (record: FxHashMap<
    Name,
    Temperature,
>)
    requires
        merge_all_ok(tables_of(thread_data@)),
    ensures
        station_table(record) == merge_all(tables_of(thread_data@)),
        names_match(station_table(record)),
{
    try_merge_hashmaps(thread_data).unwrap()
}

// ---------------------------------------------------------------------------
// Laws
// ---------------------------------------------------------------------------

/// Merging keeps tables consistent: each summary stays stored under its
/// own name, holds at least one reading, has its lowest reading at most its
/// highest, and a sum between count times the lowest and count times the
/// highest.
pub proof fn lemma_merge_tables_wf(record: Map<Seq<u8>, Summary>, part: Map<Seq<u8>, Summary>)
    requires
        table_wf(record),
        table_wf(part),
        merge_fits(record, part),
    ensures
        table_wf(merge_tables(record, part)),
{
    let m = merge_tables(record, part);
    assert forall|k: Seq<u8>| #[trigger] m.contains_key(k) implies m[k].0 == k && summary_wf(
        m[k],
    ) by {
        if record.contains_key(k) && part.contains_key(k) {
            let r = record[k];
            let p = part[k];
            lemma_combined_bounds(
                r.1 as int,
                r.2 as int,
                r.3 as int,
                r.4 as int,
                p.1 as int,
                p.2 as int,
                p.3 as int,
                p.4 as int,
            );
        }
    }
}

/// Whatever the parts hold, the merged table stores each summary under its
/// own name: a station enters under its name, and merging keeps the name.
pub proof fn lemma_merge_all_names(parts: Seq<Map<Seq<u8>, Summary>>)
    ensures
        names_match(merge_all(parts)),
    decreases parts.len(),
{
    if parts.len() > 0 {
        lemma_merge_all_names(parts.drop_last());
    }
}

/// Merging consistent tables in turn gives a consistent table.
pub proof fn lemma_merge_all_wf(parts: Seq<Map<Seq<u8>, Summary>>)
    requires
        forall|i: int| 0 <= i < parts.len() ==> table_wf(#[trigger] parts[i]),
        merge_all_ok(parts),
    ensures
        table_wf(merge_all(parts)),
    decreases parts.len(),
{
    if parts.len() > 0 {
        lemma_merge_all_wf(parts.drop_last());
        lemma_merge_tables_wf(merge_all(parts.drop_last()), parts.last());
    }
}

/// The merged table holds exactly the stations that some part holds.
pub proof fn lemma_merge_all_stations(parts: Seq<Map<Seq<u8>, Summary>>)
    ensures
        forall|k: Seq<u8>|
            #[trigger] merge_all(parts).contains_key(k) <==> exists|i: int|
                0 <= i < parts.len() && (#[trigger] parts[i]).contains_key(k),
    decreases parts.len(),
{
    if parts.len() > 0 {
        let front = parts.drop_last();
        lemma_merge_all_stations(front);
        assert forall|k: Seq<u8>| #[trigger] merge_all(parts).contains_key(k) <==> exists|i: int|
            0 <= i < parts.len() && (#[trigger] parts[i]).contains_key(k) by {
            if merge_all(front).contains_key(k) {
                let i = choose|i: int| 0 <= i < front.len() && (#[trigger] front[i]).contains_key(k);
                assert(parts[i] == front[i]);
            }
            if exists|i: int| 0 <= i < parts.len() && (#[trigger] parts[i]).contains_key(k) {
                let i = choose|i: int| 0 <= i < parts.len() && (#[trigger] parts[i]).contains_key(k);
                if i < parts.len() - 1 {
                    assert(front[i] == parts[i]);
                }
            }
        }
    }
}

/// The split points: at most `n` of them, the last being the length of
/// the data; every other one lies just after a newline, and they strictly
/// increase.
pub proof fn lemma_split_points_shape(n: int, data: Seq<u8>)
    requires
        can_split(n, data),
    ensures
        1 <= split_points(n, data).len() <= n,
        split_points(n, data).last() == data.len(),
        forall|i: int|
            0 <= i < split_points(n, data).len() - 1 ==> 0 < #[trigger] split_points(n, data)[i]
                <= data.len() && data[split_points(n, data)[i] - 1] == NEWLINE,
        forall|i: int, j: int|
            0 <= i < j < split_points(n, data).len() - 1 ==> #[trigger] split_points(n, data)[i]
                < #[trigger] split_points(n, data)[j],
{
    let chunk = data.len() as int / n;
    lemma_split_from_shape(data, chunk, 0, (n - 1) as nat);
    lemma_split_from_len(data, chunk, 0, (n - 1) as nat);
    let inner = split_from(data, chunk, 0, (n - 1) as nat);
    assert forall|i: int| 0 <= i < split_points(n, data).len() - 1 implies 0
        < #[trigger] split_points(n, data)[i] <= data.len() && data[split_points(n, data)[i] - 1]
        == NEWLINE by {
        assert(split_points(n, data)[i] == inner[i]);
    }
    assert forall|i: int, j: int| 0 <= i < j < split_points(n, data).len() - 1 implies #[trigger] split_points(
        n,
        data,
    )[i] < #[trigger] split_points(n, data)[j] by {
        assert(split_points(n, data)[i] == inner[i]);
        assert(split_points(n, data)[j] == inner[j]);
    }
}

/// `split_from` finds at most `remaining` points.
pub proof fn lemma_split_from_len(data: Seq<u8>, chunk: int, start: int, remaining: nat)
    ensures
        split_from(data, chunk, start, remaining).len() <= remaining,
    decreases remaining,
{
    if remaining > 0 {
        let newline = first_at_or_after(data, NEWLINE, start + chunk);
        lemma_split_from_len(data, chunk, newline + 1, (remaining - 1) as nat);
    }
}

/// The readings of station `k` among the lines, in order.
pub open spec fn readings_of(lines: Seq<Seq<u8>>, k: Seq<u8>) -> Seq<int>
    decreases lines.len(),
{
    if lines.len() == 0 {
        Seq::empty()
    } else {
        let earlier = readings_of(lines.drop_last(), k);
        if line_station(lines.last()) == k {
            earlier.push(line_reading(lines.last()))
        } else {
            earlier
        }
    }
}

/// The sum of a sequence of readings.
pub open spec fn seq_sum(s: Seq<int>) -> int
    decreases s.len(),
{
    if s.len() == 0 {
        0
    } else {
        seq_sum(s.drop_last()) + s.last()
    }
}

/// The lowest of a non-empty sequence of readings.
pub open spec fn seq_min(s: Seq<int>) -> int
    decreases s.len(),
{
    if s.len() <= 1 {
        s[0]
    } else if s.last() < seq_min(s.drop_last()) {
        s.last()
    } else {
        seq_min(s.drop_last())
    }
}

/// The highest of a non-empty sequence of readings.
pub open spec fn seq_max(s: Seq<int>) -> int
    decreases s.len(),
{
    if s.len() <= 1 {
        s[0]
    } else if s.last() > seq_max(s.drop_last()) {
        s.last()
    } else {
        seq_max(s.drop_last())
    }
}

/// The tally holds a station exactly when some line names it, and then its
/// count is the number of such lines, its sum the sum of their readings,
/// and its lowest and highest reading the lowest and highest of them.
pub proof fn lemma_tally_summarizes_readings(lines: Seq<Seq<u8>>)
    requires
        tally_ok(lines),
    ensures
        forall|k: Seq<u8>|
            #[trigger] tally(lines).contains_key(k) <==> readings_of(lines, k).len() > 0,
        forall|k: Seq<u8>|
            #[trigger] tally(lines).contains_key(k) ==> {
                let t = tally(lines)[k];
                let r = readings_of(lines, k);
                &&& t.4 == r.len()
                &&& t.2 == seq_sum(r)
                &&& t.1 == seq_min(r)
                &&& t.3 == seq_max(r)
            },
    decreases lines.len(),
{
    if lines.len() > 0 {
        let front = lines.drop_last();
        lemma_tally_summarizes_readings(front);
        lemma_digits_fit_i16(line_field(lines.last()));
        let name = line_station(lines.last());
        let temp = line_reading(lines.last());
        assert forall|k: Seq<u8>| #[trigger] tally(lines).contains_key(k) <==> readings_of(
            lines,
            k,
        ).len() > 0 by {
            if k != name {
                assert(readings_of(lines, k) == readings_of(front, k));
            }
        }
        assert forall|k: Seq<u8>| #[trigger] tally(lines).contains_key(k) implies {
            let t = tally(lines)[k];
            let r = readings_of(lines, k);
            &&& t.4 == r.len()
            &&& t.2 == seq_sum(r)
            &&& t.1 == seq_min(r)
            &&& t.3 == seq_max(r)
        } by {
            let r = readings_of(lines, k);
            if k == name {
                let r0 = readings_of(front, k);
                assert(r.drop_last() =~= r0);
                if !tally(front).contains_key(k) {
                    assert(r0.len() == 0);
                    assert(r.len() == 1);
                    assert(seq_sum(r0) == 0);
                }
            } else {
                assert(r == readings_of(front, k));
            }
        }
    }
}

/// The length of the part of `s` made of complete lines: up to and with its
/// last newline, or nothing where it has none.
pub open spec fn complete_lines_len(s: Seq<u8>) -> int {
    if index_positions(s, NEWLINE).len() == 0 {
        0
    } else {
        index_positions(s, NEWLINE).last() + 1
    }
}

/// Cutting bytes that hold no newline off the end leaves the newline
/// positions as they are.
pub proof fn lemma_index_positions_prefix(s: Seq<u8>, k: int)
    requires
        0 <= k <= s.len(),
        forall|j: int| k <= j < s.len() ==> s[j] != NEWLINE,
    ensures
        index_positions(s.take(k), NEWLINE) == index_positions(s, NEWLINE),
    decreases s.len() - k,
{
    if k == s.len() {
        assert(s.take(k) =~= s);
    } else {
        assert(s.drop_last().take(k) =~= s.take(k));
        lemma_index_positions_prefix(s.drop_last(), k);
    }
}

/// The bytes after the last newline are never read as a line: the lines of
/// `s` are those of its complete-line part, so the tally, and whether it can
/// be taken, do not depend on them. With no newline there is no line.
pub proof fn lemma_trailing_bytes_unread(s: Seq<u8>)
    ensures
        0 <= complete_lines_len(s) <= s.len(),
        lines_of(s.take(complete_lines_len(s))) == lines_of(s),
        index_positions(s, NEWLINE).len() == 0 ==> lines_of(s) == Seq::<Seq<u8>>::empty(),
{
    let p = index_positions(s, NEWLINE);
    let c = complete_lines_len(s);
    lemma_index_positions(s, NEWLINE);
    assert forall|j: int| c <= j < s.len() implies s[j] != NEWLINE by {
        if s[j] == NEWLINE {
            let k = choose|k: int| 0 <= k < p.len() && #[trigger] p[k] == j;
            if k < p.len() - 1 {
                assert(p[k] < p[p.len() - 1]);
            }
        }
    }
    lemma_index_positions_prefix(s, c);
    let t = s.take(c);
    assert forall|k: int| 0 <= k < p.len() implies #[trigger] lines_of(t)[k] =~= lines_of(s)[k] by {
        lemma_line_bounds(s, k);
        if k < p.len() - 1 {
            assert(p[k] < p[p.len() - 1]);
        }
    }
    assert(lines_of(t) =~= lines_of(s));
}

/// For `process(start, end, data)`: the range may end right after its last
/// newline (or at `start` where it has none) without changing the lines
/// read, hence the table.
pub proof fn lemma_process_ignores_trailing_bytes(data: Seq<u8>, start: int, end: int)
    requires
        0 <= start <= end <= data.len(),
    ensures
        lines_of(data.subrange(start, start + complete_lines_len(data.subrange(start, end))))
            == lines_of(data.subrange(start, end)),
{
    let s = data.subrange(start, end);
    lemma_trailing_bytes_unread(s);
    assert(data.subrange(start, start + complete_lines_len(s)) =~= s.take(complete_lines_len(s)));
}

/// The ranges that the workers tally: each pair of consecutive split
/// points, in order (nothing before the first point).
pub fn chunk_ranges(positions: &Vec<usize>) -> (ranges: Vec<(usize, usize)>)
    requires
        positions@.len() >= 1,
    ensures
        ranges@.len() == positions@.len() - 1,
        forall|i: int|
            0 <= i < ranges@.len() ==> #[trigger] ranges@[i] == (positions@[i], positions@[i + 1]),
{
    let mut ranges: Vec<(usize, usize)> = Vec::new();
    let mut i: usize = 0;
    while i < positions.len() - 1
        invariant
            positions@.len() >= 1,
            i <= positions@.len() - 1,
            ranges@.len() == i,
            forall|j: int|
                0 <= j < ranges@.len() ==> #[trigger] ranges@[j] == (positions@[j], positions@[j + 1]),
        decreases positions@.len() - 1 - i,
    {
        ranges.push((positions[i], positions[i + 1]));
        i = i + 1;
    }
    ranges
}

/// Taking line `i` out of the lines takes its reading out of the readings of
/// its station, and changes no other station's readings.
pub proof fn lemma_readings_remove(lines: Seq<Seq<u8>>, i: int, k: Seq<u8>)
    requires
        0 <= i < lines.len(),
    ensures
        readings_of(lines, k).to_multiset() == if line_station(lines[i]) == k {
            readings_of(lines.remove(i), k).to_multiset().insert(line_reading(lines[i]))
        } else {
            readings_of(lines.remove(i), k).to_multiset()
        },
    decreases lines.len(),
{
    broadcast use vstd::seq_lib::group_to_multiset_ensures;
    broadcast use vstd::multiset::group_multiset_axioms;

    if i == lines.len() - 1 {
        assert(lines.remove(i) =~= lines.drop_last());
    } else {
        let front = lines.drop_last();
        lemma_readings_remove(front, i, k);
        assert(lines.remove(i).drop_last() =~= front.remove(i));
        assert(lines.remove(i).last() == lines.last());
        assert(front[i] == lines[i]);
        let m = readings_of(front.remove(i), k).to_multiset();
        let a = line_reading(lines[i]);
        let b = line_reading(lines.last());
        assert(m.insert(a).insert(b) =~= m.insert(b).insert(a));
    }
}

/// Lines that are a permutation of each other give every station the same
/// readings, up to order.
pub proof fn lemma_readings_permutation(l1: Seq<Seq<u8>>, l2: Seq<Seq<u8>>, k: Seq<u8>)
    requires
        l1.to_multiset() == l2.to_multiset(),
    ensures
        readings_of(l1, k).to_multiset() == readings_of(l2, k).to_multiset(),
    decreases l1.len(),
{
    broadcast use vstd::seq_lib::group_to_multiset_ensures;
    broadcast use vstd::multiset::group_multiset_axioms;

    l1.to_multiset_ensures();
    l2.to_multiset_ensures();
    if l1.len() == 0 {
        assert(l2.len() == 0);
        assert(l1 =~= l2);
    } else {
        let x = l1.last();
        let front = l1.drop_last();
        assert(front.push(x) =~= l1);
        assert(l2.to_multiset().count(x) > 0);
        assert(l2.contains(x));
        let i = choose|i: int| 0 <= i < l2.len() && l2[i] == x;
        assert(front.to_multiset() =~= l1.to_multiset().remove(x));
        assert(l2.remove(i).to_multiset() =~= l2.to_multiset().remove(x));
        lemma_readings_permutation(front, l2.remove(i), k);
        lemma_readings_remove(l2, i, k);
    }
}

/// The sum drops by an element when the element is taken out.
pub proof fn lemma_seq_sum_remove(s: Seq<int>, i: int)
    requires
        0 <= i < s.len(),
    ensures
        seq_sum(s) == seq_sum(s.remove(i)) + s[i],
    decreases s.len(),
{
    if i == s.len() - 1 {
        assert(s.remove(i) =~= s.drop_last());
    } else {
        lemma_seq_sum_remove(s.drop_last(), i);
        assert(s.remove(i).drop_last() =~= s.drop_last().remove(i));
        assert(s.remove(i).last() == s.last());
    }
}

/// Readings that are a permutation of each other have the same number and
/// the same sum.
pub proof fn lemma_seq_sum_permutation(s: Seq<int>, t: Seq<int>)
    requires
        s.to_multiset() == t.to_multiset(),
    ensures
        s.len() == t.len(),
        seq_sum(s) == seq_sum(t),
    decreases s.len(),
{
    broadcast use vstd::seq_lib::group_to_multiset_ensures;
    broadcast use vstd::multiset::group_multiset_axioms;

    s.to_multiset_ensures();
    t.to_multiset_ensures();
    if s.len() == 0 {
        assert(t.len() == 0);
        assert(t =~= Seq::<int>::empty());
    } else {
        let x = s.last();
        let front = s.drop_last();
        assert(front.push(x) =~= s);
        assert(t.to_multiset().count(x) > 0);
        assert(t.contains(x));
        let i = choose|i: int| 0 <= i < t.len() && t[i] == x;
        assert(front.to_multiset() =~= s.to_multiset().remove(x));
        assert(t.remove(i).to_multiset() =~= t.to_multiset().remove(x));
        lemma_seq_sum_permutation(front, t.remove(i));
        lemma_seq_sum_remove(t, i);
    }
}

/// The lowest and highest of non-empty readings are among them and bound
/// them all.
pub proof fn lemma_seq_min_max(s: Seq<int>)
    requires
        s.len() > 0,
    ensures
        s.contains(seq_min(s)),
        s.contains(seq_max(s)),
        forall|j: int| 0 <= j < s.len() ==> seq_min(s) <= #[trigger] s[j] <= seq_max(s),
    decreases s.len(),
{
    if s.len() > 1 {
        lemma_seq_min_max(s.drop_last());
        let m = seq_min(s.drop_last());
        let n = seq_max(s.drop_last());
        let i = choose|i: int| 0 <= i < s.len() - 1 && s.drop_last()[i] == m;
        assert(s[i] == m);
        let i2 = choose|i: int| 0 <= i < s.len() - 1 && s.drop_last()[i] == n;
        assert(s[i2] == n);
        assert(s[s.len() - 1] == s.last());
        assert forall|j: int| 0 <= j < s.len() implies seq_min(s) <= #[trigger] s[j] <= seq_max(s) by {
            if j < s.len() - 1 {
                assert(s.drop_last()[j] == s[j]);
            }
        }
    } else {
        assert(s[0] == s[0]);
    }
}

/// Readings that are a permutation of each other have the same lowest and
/// highest reading.
pub proof fn lemma_seq_min_max_permutation(s: Seq<int>, t: Seq<int>)
    requires
        s.len() > 0,
        s.to_multiset() == t.to_multiset(),
    ensures
        seq_min(s) == seq_min(t),
        seq_max(s) == seq_max(t),
{
    broadcast use vstd::seq_lib::group_to_multiset_ensures;

    s.to_multiset_ensures();
    t.to_multiset_ensures();
    assert(t.len() == s.len());
    lemma_seq_min_max(s);
    lemma_seq_min_max(t);
    assert(s.to_multiset().count(seq_min(s)) > 0 && s.to_multiset().count(seq_max(s)) > 0);
    assert(t.to_multiset().count(seq_min(t)) > 0 && t.to_multiset().count(seq_max(t)) > 0);
    assert(t.contains(seq_min(s)) && t.contains(seq_max(s)));
    assert(s.contains(seq_min(t)) && s.contains(seq_max(t)));
    let a = choose|i: int| 0 <= i < t.len() && t[i] == seq_min(s);
    let b = choose|i: int| 0 <= i < s.len() && s[i] == seq_min(t);
    let c = choose|i: int| 0 <= i < t.len() && t[i] == seq_max(s);
    let d = choose|i: int| 0 <= i < s.len() && s[i] == seq_max(t);
}

/// The order of the lines does not matter: lines that are a permutation of
/// each other, each list readable and tallied without overflow, give the
/// same table.
pub proof fn lemma_tally_order_free(l1: Seq<Seq<u8>>, l2: Seq<Seq<u8>>)
    requires
        tally_ok(l1),
        tally_ok(l2),
        l1.to_multiset() == l2.to_multiset(),
    ensures
        tally(l1) == tally(l2),
{
    lemma_tally_summarizes_readings(l1);
    lemma_tally_summarizes_readings(l2);
    lemma_tally_wf(l1);
    lemma_tally_wf(l2);
    let t1 = tally(l1);
    let t2 = tally(l2);
    assert forall|k: Seq<u8>| #[trigger] t1.contains_key(k) == t2.contains_key(k) by {
        lemma_readings_permutation(l1, l2, k);
        lemma_seq_sum_permutation(readings_of(l1, k), readings_of(l2, k));
    }
    assert forall|k: Seq<u8>| #[trigger] t1.contains_key(k) implies t1[k] == t2[k] by {
        let r1 = readings_of(l1, k);
        let r2 = readings_of(l2, k);
        lemma_readings_permutation(l1, l2, k);
        lemma_seq_sum_permutation(r1, r2);
        lemma_seq_min_max_permutation(r1, r2);
    }
    assert(t1 =~= t2);
}

/// For `process`: ranges whose complete lines are a permutation of each
/// other, each readable and tallied without overflow, give the same table.
pub proof fn lemma_process_order_free(
    d1: Seq<u8>,
    s1: int,
    e1: int,
    d2: Seq<u8>,
    s2: int,
    e2: int,
)
    requires
        0 <= s1 <= e1 <= d1.len(),
        0 <= s2 <= e2 <= d2.len(),
        lines_of(d1.subrange(s1, e1)).to_multiset() == lines_of(d2.subrange(s2, e2)).to_multiset(),
        tally_ok(lines_of(d1.subrange(s1, e1))),
        tally_ok(lines_of(d2.subrange(s2, e2))),
    ensures
        tally(lines_of(d1.subrange(s1, e1))) == tally(lines_of(d2.subrange(s2, e2))),
{
    lemma_tally_order_free(lines_of(d1.subrange(s1, e1)), lines_of(d2.subrange(s2, e2)));
}

// ---------------------------------------------------------------------------
// Laws in terms of the bytes
// ---------------------------------------------------------------------------

/// `i` is where the first `;` of `line` stands.
pub open spec fn first_separator_is(line: Seq<u8>, i: int) -> bool {
    &&& 0 <= i < line.len()
    &&& line[i] == SEPARATOR
    &&& forall|j: int| 0 <= j < i ==> line[j] != SEPARATOR
}

/// Every line of a list that can be tallied has a `;`.
pub proof fn lemma_tally_ok_lines_readable(lines: Seq<Seq<u8>>)
    requires
        tally_ok(lines),
    ensures
        forall|n: int| 0 <= n < lines.len() ==> line_readable(#[trigger] lines[n]),
    decreases lines.len(),
{
    if lines.len() > 0 {
        lemma_tally_ok_lines_readable(lines.drop_last());
        assert forall|n: int| 0 <= n < lines.len() implies line_readable(#[trigger] lines[n]) by {
            if n < lines.len() - 1 {
                assert(lines.drop_last()[n] == lines[n]);
            }
        }
    }
}

/// A station has readings exactly when some line names it.
pub proof fn lemma_readings_nonempty(lines: Seq<Seq<u8>>, k: Seq<u8>)
    ensures
        readings_of(lines, k).len() > 0 <==> exists|n: int|
            0 <= n < lines.len() && line_station(#[trigger] lines[n]) == k,
    decreases lines.len(),
{
    if lines.len() > 0 {
        let front = lines.drop_last();
        lemma_readings_nonempty(front, k);
        if exists|n: int| 0 <= n < front.len() && line_station(#[trigger] front[n]) == k {
            let n = choose|n: int| 0 <= n < front.len() && line_station(#[trigger] front[n]) == k;
            assert(lines[n] == front[n]);
        }
        if exists|n: int| 0 <= n < lines.len() && line_station(#[trigger] lines[n]) == k {
            let n = choose|n: int| 0 <= n < lines.len() && line_station(#[trigger] lines[n]) == k;
            if n < lines.len() - 1 {
                assert(front[n] == lines[n]);
            }
        }
    }
}

/// A readable line names the station spelled by its bytes before the
/// first `;`.
pub proof fn lemma_line_station_is_prefix(line: Seq<u8>, i: int)
    requires
        first_separator_is(line, i),
    ensures
        line_station(line) == line.take(i),
{
    lemma_first_at_or_after(line, SEPARATOR, 0, i);
}

/// The stations of the table are exactly the names of the lines: for each
/// line, the bytes before its first `;` (a name may hold spaces or any other
/// byte); the table holds no other key.
pub proof fn lemma_tally_stations_are_names(lines: Seq<Seq<u8>>)
    requires
        tally_ok(lines),
    ensures
        forall|n: int, i: int|
            0 <= n < lines.len() && #[trigger] first_separator_is(lines[n], i) ==> tally(
                lines,
            ).contains_key(lines[n].take(i)),
        forall|k: Seq<u8>|
            #[trigger] tally(lines).contains_key(k) ==> exists|n: int, i: int|
                0 <= n < lines.len() && #[trigger] first_separator_is(lines[n], i) && lines[n].take(i)
                    == k,
        forall|n: int|
            0 <= n < lines.len() ==> #[trigger] first_separator_is(lines[n], separator_at(lines[n])),
{
    lemma_tally_summarizes_readings(lines);
    lemma_tally_ok_lines_readable(lines);
    assert forall|n: int| 0 <= n < lines.len() implies #[trigger] first_separator_is(
        lines[n],
        separator_at(lines[n]),
    ) by {
        assert(line_readable(lines[n]));
        lemma_first_at_or_after_bounds(lines[n], SEPARATOR, 0);
    }
    assert forall|n: int, i: int|
        0 <= n < lines.len() && #[trigger] first_separator_is(lines[n], i) implies tally(
        lines,
    ).contains_key(lines[n].take(i)) by {
        lemma_line_station_is_prefix(lines[n], i);
        lemma_readings_nonempty(lines, lines[n].take(i));
    }
    assert forall|k: Seq<u8>| #[trigger] tally(lines).contains_key(k) implies exists|n: int, i: int|
        0 <= n < lines.len() && #[trigger] first_separator_is(lines[n], i) && lines[n].take(i) == k by {
        lemma_readings_nonempty(lines, k);
        let n = choose|n: int| 0 <= n < lines.len() && line_station(#[trigger] lines[n]) == k;
        let i = separator_at(lines[n]);
        lemma_first_at_or_after_bounds(lines[n], SEPARATOR, 0);
        assert(first_separator_is(lines[n], i));
    }
}

/// Merging leaves a station that the part does not hold as it was.
pub proof fn lemma_merge_keeps_absent_stations(
    record: Map<Seq<u8>, Summary>,
    part: Map<Seq<u8>, Summary>,
    k: Seq<u8>,
)
    requires
        record.contains_key(k),
        !part.contains_key(k),
    ensures
        merge_tables(record, part).contains_key(k),
        merge_tables(record, part)[k] == record[k],
{
}

/// Merging a station that both hold adds the sums and counts and keeps the
/// lower lowest and the higher highest reading, under the same name.
pub proof fn lemma_merge_combines_shared_stations(
    record: Map<Seq<u8>, Summary>,
    part: Map<Seq<u8>, Summary>,
    k: Seq<u8>,
)
    requires
        record.contains_key(k),
        part.contains_key(k),
        merge_fits(record, part),
    ensures
        merge_tables(record, part).contains_key(k),
        merge_tables(record, part)[k].0 == record[k].0,
        merge_tables(record, part)[k].2 == record[k].2 + part[k].2,
        merge_tables(record, part)[k].4 == record[k].4 + part[k].4,
        merge_tables(record, part)[k].1 <= record[k].1,
        merge_tables(record, part)[k].1 <= part[k].1,
        merge_tables(record, part)[k].1 == record[k].1 || merge_tables(record, part)[k].1
            == part[k].1,
        merge_tables(record, part)[k].3 >= record[k].3,
        merge_tables(record, part)[k].3 >= part[k].3,
        merge_tables(record, part)[k].3 == record[k].3 || merge_tables(record, part)[k].3
            == part[k].3,
{
}

/// A station that only the part holds enters under its name as a single
/// reading, the part's lowest.
pub proof fn lemma_merge_enters_new_stations(
    record: Map<Seq<u8>, Summary>,
    part: Map<Seq<u8>, Summary>,
    k: Seq<u8>,
)
    requires
        !record.contains_key(k),
        part.contains_key(k),
    ensures
        merge_tables(record, part).contains_key(k),
        merge_tables(record, part)[k] == (k, part[k].1, part[k].1, part[k].1, 1u16),
{
}

/// Merging holds no station that neither table holds.
pub proof fn lemma_merge_adds_no_station(
    record: Map<Seq<u8>, Summary>,
    part: Map<Seq<u8>, Summary>,
    k: Seq<u8>,
)
    requires
        !record.contains_key(k),
        !part.contains_key(k),
    ensures
        !merge_tables(record, part).contains_key(k),
{
}

/// A line's reading is read from the bytes after its first `;`, up to the
/// next `;` or the end of the line, with the decimal reader.
pub proof fn lemma_line_reading_field(line: Seq<u8>, i: int, e: int)
    requires
        first_separator_is(line, i),
        i < e <= line.len(),
        e == line.len() || line[e] == SEPARATOR,
        forall|j: int| i < j < e ==> line[j] != SEPARATOR,
    ensures
        line_field(line) == line.subrange(i + 1, e),
        line_reading(line) == decimal_value(line.subrange(i + 1, e)),
{
    lemma_first_at_or_after(line, SEPARATOR, 0, i);
    lemma_first_at_or_after(line, SEPARATOR, i + 1, e);
}

/// The lines joined back, each followed by its newline.
pub open spec fn join_lines(lines: Seq<Seq<u8>>) -> Seq<u8>
    decreases lines.len(),
{
    if lines.len() == 0 {
        Seq::empty()
    } else {
        join_lines(lines.drop_last()) + lines.last() + seq![NEWLINE]
    }
}

/// The lines of `s` hold no newline, and joined back with a newline after
/// each they give `s` up to and with its last newline; after that point
/// `s` holds no newline, and just before it stands one.
pub proof fn lemma_lines_of_split_at_newlines(s: Seq<u8>)
    ensures
        forall|k: int, j: int|
            0 <= k < lines_of(s).len() && 0 <= j < lines_of(s)[k].len() ==> #[trigger] lines_of(
                s,
            )[k][j] != NEWLINE,
        join_lines(lines_of(s)) == s.take(complete_lines_len(s)),
        0 <= complete_lines_len(s) <= s.len(),
        complete_lines_len(s) > 0 ==> s[complete_lines_len(s) - 1] == NEWLINE,
        forall|j: int| complete_lines_len(s) <= j < s.len() ==> s[j] != NEWLINE,
{
    let p = index_positions(s, NEWLINE);
    let ls = lines_of(s);
    lemma_index_positions(s, NEWLINE);
    lemma_trailing_bytes_unread(s);
    assert forall|k: int, j: int| 0 <= k < ls.len() && 0 <= j < ls[k].len() implies #[trigger] ls[k][j]
        != NEWLINE by {
        lemma_line_bounds(s, k);
        let at = line_start(s, k) + j;
        assert(ls[k][j] == s[at]);
        if s[at] == NEWLINE {
            let m = choose|m: int| 0 <= m < p.len() && #[trigger] p[m] == at;
            if m < k {
                if m < k - 1 {
                    assert(p[m] < p[k - 1]);
                }
            } else if m > k {
                assert(p[k] < p[m]);
            }
        }
    }
    assert forall|j: int| complete_lines_len(s) <= j < s.len() implies s[j] != NEWLINE by {
        if s[j] == NEWLINE {
            let m = choose|m: int| 0 <= m < p.len() && #[trigger] p[m] == j;
            if m < p.len() - 1 {
                assert(p[m] < p[p.len() - 1]);
            }
        }
    }
    lemma_join_prefix(s, p.len() as int);
    if p.len() > 0 {
        assert(ls.take(p.len() as int) =~= ls);
    } else {
        assert(ls.take(0) =~= ls);
    }
}

/// Joining the first `k` lines gives `s` up to where line `k` starts.
proof fn lemma_join_prefix(s: Seq<u8>, k: int)
    requires
        0 <= k <= index_positions(s, NEWLINE).len(),
    ensures
        join_lines(lines_of(s).take(k)) == s.take(line_start(s, k)),
    decreases k,
{
    let ls = lines_of(s);
    if k == 0 {
        assert(ls.take(0) =~= Seq::<Seq<u8>>::empty());
        assert(s.take(0) =~= Seq::<u8>::empty());
    } else {
        lemma_join_prefix(s, k - 1);
        lemma_line_bounds(s, k - 1);
        lemma_index_positions(s, NEWLINE);
        assert(ls.take(k).drop_last() =~= ls.take(k - 1));
        assert(ls.take(k).last() == ls[k - 1]);
        assert(s.take(line_start(s, k)) =~= s.take(line_start(s, k - 1)) + ls[k - 1] + seq![NEWLINE]);
    }
}

/// Merging in turn: the parts merged so far, then the next part merged
/// into them; nothing merged is the empty table.
pub proof fn lemma_merge_all_in_order(parts: Seq<Map<Seq<u8>, Summary>>, p: Map<Seq<u8>, Summary>)
    ensures
        merge_all(Seq::<Map<Seq<u8>, Summary>>::empty()) == Map::<Seq<u8>, Summary>::empty(),
        merge_all(parts.push(p)) == merge_tables(merge_all(parts), p),
{
    assert(parts.push(p).drop_last() =~= parts);
}

/// The point before point `j` of a list of split points found from
/// `start`: `start` itself for the first.
pub open spec fn point_before(points: Seq<int>, start: int, j: int) -> int {
    if j == 0 {
        start
    } else {
        points[j - 1]
    }
}

/// Each split point found from `start` lies just after the first newline
/// at or past `chunk` bytes after the point before it; the search stops
/// early only where no newline is left past that step.
pub proof fn lemma_split_from_steps(data: Seq<u8>, chunk: int, start: int, remaining: nat)
    requires
        0 <= start,
        0 <= chunk,
        split_fits(data, chunk, start, remaining),
    ensures
        ({
            let r = split_from(data, chunk, start, remaining);
            &&& forall|j: int|
                0 <= j < r.len() ==> point_before(r, start, j) + chunk <= #[trigger] r[j] - 1 < data.len()
                    && data[r[j] - 1] == NEWLINE
            &&& forall|j: int, m: int|
                0 <= j < r.len() && point_before(r, start, j) + chunk <= m < #[trigger] r[j] - 1
                    ==> #[trigger] data[m] != NEWLINE
            &&& r.len() < remaining ==> {
                let last = point_before(r, start, r.len() as int);
                &&& last + chunk <= data.len()
                &&& forall|m: int| last + chunk <= m < data.len() ==> data[m] != NEWLINE
            }
        }),
    decreases remaining,
{
    let r = split_from(data, chunk, start, remaining);
    if remaining > 0 {
        let next = start + chunk;
        let newline = first_at_or_after(data, NEWLINE, next);
        lemma_first_at_or_after_bounds(data, NEWLINE, next);
        if newline < data.len() {
            let rest = split_from(data, chunk, newline + 1, (remaining - 1) as nat);
            lemma_split_from_steps(data, chunk, newline + 1, (remaining - 1) as nat);
            assert(r == seq![newline + 1] + rest);
            assert forall|j: int| 0 <= j < r.len() implies point_before(r, start, j) + chunk
                <= #[trigger] r[j] - 1 < data.len() && data[r[j] - 1] == NEWLINE by {
                if j > 0 {
                    assert(r[j] == rest[j - 1]);
                    assert(point_before(r, start, j) == point_before(rest, newline + 1, j - 1));
                }
            }
            assert forall|j: int, m: int|
                0 <= j < r.len() && point_before(r, start, j) + chunk <= m < #[trigger] r[j] - 1 implies #[trigger] data[m]
                != NEWLINE by {
                if j > 0 {
                    assert(r[j] == rest[j - 1]);
                    assert(point_before(r, start, j) == point_before(rest, newline + 1, j - 1));
                }
            }
            if r.len() < remaining {
                assert(point_before(r, start, r.len() as int) == point_before(
                    rest,
                    newline + 1,
                    rest.len() as int,
                ));
            }
        }
    }
}

/// The split points for `n` workers, in terms of the bytes: with steps of
/// `data.len() / n` bytes, each point but the last lies just after the
/// first newline at or past one step after the point before it (the front
/// of the data for the first); the length of the data comes last; fewer
/// than `n - 1` points are found only where no newline is left past the
/// step after the last point found.
pub proof fn lemma_split_points_steps(n: int, data: Seq<u8>)
    requires
        can_split(n, data),
    ensures
        ({
            let pts = split_points(n, data);
            let inner = pts.drop_last();
            let chunk = data.len() as int / n;
            &&& pts.last() == data.len()
            &&& forall|j: int|
                0 <= j < inner.len() ==> point_before(inner, 0, j) + chunk <= #[trigger] inner[j]
                    - 1 < data.len() && data[inner[j] - 1] == NEWLINE
            &&& forall|j: int, m: int|
                0 <= j < inner.len() && point_before(inner, 0, j) + chunk <= m < #[trigger] inner[j]
                    - 1 ==> #[trigger] data[m] != NEWLINE
            &&& inner.len() < n - 1 ==> forall|m: int|
                point_before(inner, 0, inner.len() as int) + chunk <= m < data.len() ==> data[m]
                    != NEWLINE
        }),
{
    let chunk = data.len() as int / n;
    lemma_split_from_steps(data, chunk, 0, (n - 1) as nat);
    let inner = split_from(data, chunk, 0, (n - 1) as nat);
    assert(split_points(n, data).drop_last() =~= inner);
}

} // verus!
