//! The final report: the stations in increasing order of name, one line
//! each, `name=min/mean/max`, every value in degrees with one decimal.
use vstd::prelude::*;

use fxhash::FxHashMap;

use super::soln::names_match;
use super::table::{station_entries, station_table};
use super::{abs, mean_defined, spec_mean, Name, Summary, Temperature};

verus! {

// ---------------------------------------------------------------------------
// The order of names
// ---------------------------------------------------------------------------

/// `a` comes strictly before `b` in the lexicographic order of byte
/// strings (the order of `Vec<u8>`): at the first byte where they differ,
/// `a`'s is lower, or `a` is a proper prefix of `b`.
pub open spec fn lex_lt(a: Seq<u8>, b: Seq<u8>) -> bool
    decreases a.len(),
{
    if a.len() == 0 {
        b.len() > 0
    } else if b.len() == 0 {
        false
    } else if a[0] != b[0] {
        a[0] < b[0]
    } else {
        lex_lt(a.drop_first(), b.drop_first())
    }
}

/// No name comes before itself.
pub proof fn lemma_lex_irreflexive(a: Seq<u8>)
    ensures
        !lex_lt(a, a),
    decreases a.len(),
{
    if a.len() > 0 {
        lemma_lex_irreflexive(a.drop_first());
    }
}

/// Of two different names, one comes before the other.
pub proof fn lemma_lex_total(a: Seq<u8>, b: Seq<u8>)
    requires
        a != b,
    ensures
        lex_lt(a, b) || lex_lt(b, a),
    decreases a.len(),
{
    if a.len() > 0 && b.len() > 0 && a[0] == b[0] {
        if a.drop_first() == b.drop_first() {
            assert(a =~= seq![a[0]] + a.drop_first());
            assert(b =~= seq![b[0]] + b.drop_first());
        }
        lemma_lex_total(a.drop_first(), b.drop_first());
    } else if a.len() == 0 && b.len() == 0 {
        assert(a =~= b);
    }
}

/// The order is transitive.
pub proof fn lemma_lex_transitive(a: Seq<u8>, b: Seq<u8>, c: Seq<u8>)
    requires
        lex_lt(a, b),
        lex_lt(b, c),
    ensures
        lex_lt(a, c),
    decreases a.len(),
{
    if a.len() > 0 && b.len() > 0 && c.len() > 0 && a[0] == b[0] && b[0] == c[0] {
        lemma_lex_transitive(a.drop_first(), b.drop_first(), c.drop_first());
    }
}

/// The order of two names that share their first `i` bytes is that of what
/// follows.
pub proof fn lemma_lex_common_prefix(a: Seq<u8>, b: Seq<u8>, i: int)
    requires
        0 <= i <= a.len(),
        i <= b.len(),
        a.take(i) == b.take(i),
    ensures
        lex_lt(a, b) == lex_lt(a.skip(i), b.skip(i)),
    decreases i,
{
    if i > 0 {
        assert(a[0] == a.take(i)[0]);
        assert(b[0] == b.take(i)[0]);
        assert(a.drop_first().take(i - 1) =~= a.take(i).drop_first());
        assert(b.drop_first().take(i - 1) =~= b.take(i).drop_first());
        lemma_lex_common_prefix(a.drop_first(), b.drop_first(), i - 1);
        assert(a.drop_first().skip(i - 1) =~= a.skip(i));
        assert(b.drop_first().skip(i - 1) =~= b.skip(i));
    } else {
        assert(a.skip(0) =~= a);
        assert(b.skip(0) =~= b);
    }
}

/// The order is that of unsigned bytes at the first place where two names
/// differ: when `a` and `b` agree on their first `i` bytes and `a[i] < b[i]`
/// as `u8` values, `a` comes first.
pub proof fn lemma_lex_first_difference(a: Seq<u8>, b: Seq<u8>, i: int)
    requires
        0 <= i < a.len(),
        i < b.len(),
        a.take(i) == b.take(i),
        a[i] < b[i],
    ensures
        lex_lt(a, b),
        !lex_lt(b, a),
{
    lemma_lex_common_prefix(a, b, i);
    lemma_lex_common_prefix(b, a, i);
    assert(a.skip(i)[0] == a[i]);
    assert(b.skip(i)[0] == b[i]);
}

/// A name comes before every longer name that it begins.
pub proof fn lemma_lex_proper_prefix(a: Seq<u8>, b: Seq<u8>)
    requires
        a.len() < b.len(),
        b.take(a.len() as int) == a,
    ensures
        lex_lt(a, b),
        !lex_lt(b, a),
{
    let i = a.len() as int;
    assert(a.take(i) =~= a);
    lemma_lex_common_prefix(a, b, i);
    lemma_lex_common_prefix(b, a, i);
    assert(a.skip(i).len() == 0);
}

/// Of two names, at most one comes before the other.
pub proof fn lemma_lex_asymmetric(a: Seq<u8>, b: Seq<u8>)
    ensures
        !(lex_lt(a, b) && lex_lt(b, a)),
    decreases a.len(),
{
    if a.len() > 0 && b.len() > 0 && a[0] == b[0] {
        lemma_lex_asymmetric(a.drop_first(), b.drop_first());
    }
}

/// Whether `a` comes strictly before `b`, comparing byte by byte as the
/// order of `Vec<u8>` does.
pub fn name_lt(a: &[u8], b: &[u8]) -> (lt: bool)
    ensures
        lt == lex_lt(a@, b@),
{
    let mut i: usize = 0;
    while i < a.len() && i < b.len() && a[i] == b[i]
        invariant
            i <= a@.len(),
            i <= b@.len(),
            a@.take(i as int) == b@.take(i as int),
        decreases a@.len() - i,
    {
        assert(a@.take(i + 1) =~= a@.take(i as int).push(a@[i as int]));
        assert(b@.take(i + 1) =~= b@.take(i as int).push(b@[i as int]));
        i = i + 1;
    }
    proof {
        lemma_lex_common_prefix(a@, b@, i as int);
    }
    if i == a.len() {
        i < b.len()
    } else if i == b.len() {
        false
    } else {
        a[i] < b[i]
    }
}

// ---------------------------------------------------------------------------
// Sorting the summaries
// ---------------------------------------------------------------------------

/// The summaries come in strictly increasing order of name.
pub open spec fn sorted_by_names(ts: Seq<Temperature>) -> bool {
    forall|i: int, j: int| 0 <= i < j < ts.len() ==> lex_lt(#[trigger] ts[i].name@, #[trigger] ts[j].name@)
}

/// Inserts `t` into summaries sorted by name, at the place its name takes
/// among them, and returns that place.
fn insert_by_name(results: &mut Vec<Temperature>, t: Temperature) -> (p: usize)
    requires
        sorted_by_names(old(results)@),
        forall|i: int|
            0 <= i < old(results)@.len() ==> (#[trigger] old(results)@[i]).name@ != t.name@,
    ensures
        p <= old(results)@.len(),
        final(results)@ == old(results)@.insert(p as int, t),
        sorted_by_names(final(results)@),
{
    let mut p: usize = 0;
    while p < results.len() && !name_lt(&t.name, &results[p].name)
        invariant
            p <= results@.len(),
            forall|q: int| 0 <= q < p ==> lex_lt((#[trigger] results@[q]).name@, t.name@),
            forall|i: int| 0 <= i < results@.len() ==> (#[trigger] results@[i]).name@ != t.name@,
        decreases results@.len() - p,
    {
        proof {
            lemma_lex_total(t.name@, results@[p as int].name@);
        }
        p = p + 1;
    }
    let ghost old_results = results@;
    proof {
        if p < results@.len() {
            assert forall|q: int| p <= q < old_results.len() implies lex_lt(
                t.name@,
                (#[trigger] old_results[q]).name@,
            ) by {
                if q > p {
                    lemma_lex_transitive(t.name@, old_results[p as int].name@, old_results[q].name@);
                }
            }
        }
    }
    results.insert(p, t);
    assert(sorted_by_names(results@)) by {
        assert forall|a: int, b: int| 0 <= a < b < results@.len() implies lex_lt(
            #[trigger] results@[a].name@,
            #[trigger] results@[b].name@,
        ) by {
            if b < p {
                assert(results@[a] == old_results[a] && results@[b] == old_results[b]);
            } else if b == p {
                assert(results@[a] == old_results[a]);
            } else if a < p {
                assert(results@[a] == old_results[a] && results@[b] == old_results[b - 1]);
                lemma_lex_transitive(old_results[a].name@, t.name@, old_results[b - 1].name@);
            } else if a == p {
                assert(results@[b] == old_results[b - 1]);
            } else {
                assert(results@[a] == old_results[a - 1] && results@[b] == old_results[b - 1]);
            }
        }
    }
    p
}

/// The summaries of the table, as a vector in increasing order of name
/// (`sort_unstable_by_key` on the name, of the table's values): each
/// summary of the table comes exactly once.
pub fn sorted_by_name(record: FxHashMap<Name, Temperature>) -> (results: Vec<Temperature>)
    requires
        names_match(station_table(record)),
    ensures
        sorted_by_names(results@),
        forall|i: int|
            0 <= i < results@.len() ==> station_table(record).contains_key(
                (#[trigger] results@[i]).name@,
            ) && results@[i]@ == station_table(record)[results@[i].name@],
        forall|k: Seq<u8>|
            #[trigger] station_table(record).contains_key(k) ==> exists|i: int|
                0 <= i < results@.len() && (#[trigger] results@[i]).name@ == k,
{
    let ghost table = station_table(record);
    let entries = station_entries(record);
    let mut results: Vec<Temperature> = Vec::new();
    // `source[i]` is the entry that `results[i]` comes from; `place[a]` is
    // where entry `a` stands in `results`.
    let ghost mut source: Seq<int> = Seq::empty();
    let ghost mut place: Seq<int> = Seq::empty();
    let mut j: usize = 0;
    while j < entries.len()
        invariant
            table == station_table(record),
            names_match(table),
            forall|a: int, b: int|
                0 <= a < b < entries@.len() ==> (#[trigger] entries@[a]).0@ != (#[trigger] entries@[b]).0@,
            forall|a: int|
                0 <= a < entries@.len() ==> table.contains_key((#[trigger] entries@[a]).0@)
                    && table[entries@[a].0@] == entries@[a].1@,
            0 <= j <= entries@.len(),
            results@.len() == j,
            source.len() == j,
            place.len() == j,
            sorted_by_names(results@),
            forall|i: int|
                0 <= i < j ==> 0 <= #[trigger] source[i] < j && results@[i].name@
                    == entries@[source[i]].0@ && results@[i]@ == entries@[source[i]].1@,
            forall|a: int|
                0 <= a < j ==> 0 <= #[trigger] place[a] < j && results@[place[a]].name@
                    == entries@[a].0@,
        decreases entries@.len() - j,
    {
        let source_summary = &entries[j].1;
        let name = source_summary.name.clone();
        assert(name@ =~= source_summary.name@);
        let t = Temperature {
            name,
            min: source_summary.min,
            sum: source_summary.sum,
            max: source_summary.max,
            count: source_summary.count,
        };
        assert(t@ == entries@[j as int].1@);
        assert(t.name@ == entries@[j as int].0@);
        assert forall|i: int| 0 <= i < results@.len() implies (#[trigger] results@[i]).name@
            != t.name@ by {
            assert(source[i] != j);
        }
        let ghost old_results = results@;
        let p = insert_by_name(&mut results, t);
        proof {
            let old_source = source;
            let old_place = place;
            source = old_source.insert(p as int, j as int);
            place = Seq::new(
                (j + 1) as nat,
                |a: int|
                    if a == j {
                        p as int
                    } else if old_place[a] >= p {
                        old_place[a] + 1
                    } else {
                        old_place[a]
                    },
            );
            assert forall|i: int| 0 <= i < j + 1 implies 0 <= #[trigger] source[i] < j + 1
                && results@[i].name@ == entries@[source[i]].0@ && results@[i]@
                == entries@[source[i]].1@ by {
                if i < p {
                    assert(source[i] == old_source[i] && results@[i] == old_results[i]);
                } else if i > p {
                    assert(source[i] == old_source[i - 1] && results@[i] == old_results[i - 1]);
                }
            }
            assert forall|a: int| 0 <= a < j + 1 implies 0 <= #[trigger] place[a] < j + 1
                && results@[place[a]].name@ == entries@[a].0@ by {
                if a < j {
                    if old_place[a] >= p {
                        assert(results@[old_place[a] + 1] == old_results[old_place[a]]);
                    } else {
                        assert(results@[old_place[a]] == old_results[old_place[a]]);
                    }
                }
            }
        }
        j = j + 1;
    }
    assert forall|i: int| 0 <= i < results@.len() implies station_table(record).contains_key(
        (#[trigger] results@[i]).name@,
    ) && results@[i]@ == station_table(record)[results@[i].name@] by {
        assert(0 <= source[i] < j);
    }
    assert forall|k: Seq<u8>| #[trigger] station_table(record).contains_key(k) implies exists|i: int|
        0 <= i < results@.len() && (#[trigger] results@[i]).name@ == k by {
        let a = choose|a: int| 0 <= a < entries@.len() && (#[trigger] entries@[a]).0@ == k;
        assert(results@[place[a]].name@ == k);
    }
    results
}

// ---------------------------------------------------------------------------
// Rendering
// ---------------------------------------------------------------------------

/// The decimal digits of `n`, without leading zeros (`"0"` for zero).
pub open spec fn decimal_digits(n: nat) -> Seq<u8>
    decreases n,
{
    if n < 10 {
        seq![(48 + n) as u8]
    } else {
        decimal_digits(n / 10).push((48 + n % 10) as u8)
    }
}

/// A number of tenths written in units with one decimal, as `{:.1}` writes
/// `x as f32 / 10.0`: `-123` gives `"-12.3"`, `5` gives `"0.5"`, `-5`
/// gives `"-0.5"`.
pub open spec fn tenths_text(x: int) -> Seq<u8> {
    (if x < 0 {
        seq![45u8]
    } else {
        Seq::empty()
    }) + decimal_digits((abs(x) / 10) as nat) + seq![46u8, (48 + abs(x) % 10) as u8]
}

/// The report's line for a station: `name=min/mean/max` and a newline.
pub open spec fn report_line(t: Summary) -> Seq<u8> {
    t.0 + seq![61u8] + tenths_text(t.1 as int) + seq![47u8] + tenths_text(spec_mean(t)) + seq![
        47u8,
    ] + tenths_text(t.3 as int) + seq![10u8]
}

/// The report's lines for the summaries, in their order.
pub open spec fn report_text(ts: Seq<Summary>) -> Seq<u8>
    decreases ts.len(),
{
    if ts.len() == 0 {
        Seq::empty()
    } else {
        report_text(ts.drop_last()) + report_line(ts.last())
    }
}

/// Appends the decimal digits of `n`.
fn push_decimal(out: &mut Vec<u8>, n: u32)
    ensures
        final(out)@ == old(out)@ + decimal_digits(n as nat),
    decreases n,
{
    if n >= 10 {
        push_decimal(out, n / 10);
    }
    out.push((48 + n % 10) as u8);
}

/// Appends `x` tenths written in units with one decimal.
fn push_tenths(out: &mut Vec<u8>, x: i16)
    ensures
        final(out)@ == old(out)@ + tenths_text(x as int),
{
    let ghost start = out@;
    let magnitude: u32 = if x < 0 {
        out.push(45u8);
        (-(x as i32)) as u32
    } else {
        x as u32
    };
    assert(magnitude == abs(x as int));
    push_decimal(out, magnitude / 10);
    out.push(46u8);
    out.push((48 + magnitude % 10) as u8);
    assert(out@ =~= start + tenths_text(x as int));
}

/// Appends a station's line: `name=min/mean/max` and a newline.
fn push_line(out: &mut Vec<u8>, t: &Temperature)
    requires
        mean_defined(t@),
    ensures
        final(out)@ == old(out)@ + report_line(t@),
{
    let ghost start = out@;
    let mut i: usize = 0;
    while i < t.name.len()
        invariant
            i <= t.name@.len(),
            out@ == start + t.name@.take(i as int),
        decreases t.name@.len() - i,
    {
        out.push(t.name[i]);
        assert(t.name@.take(i + 1) =~= t.name@.take(i as int).push(t.name@[i as int]));
        i = i + 1;
    }
    assert(t.name@.take(i as int) =~= t.name@);
    out.push(61u8);
    push_tenths(out, t.min);
    out.push(47u8);
    push_tenths(out, t.mean());
    out.push(47u8);
    push_tenths(out, t.max);
    out.push(10u8);
    assert(out@ =~= start + report_line(t@));
}

/// The report for the summaries, in their order: one line
/// `name=min/mean/max` per station, each value in degrees with one decimal
/// (the mean as `mean` computes it).
pub fn render_report(results: &Vec<Temperature>) -> (out: Vec<u8>)
    requires
        forall|i: int| 0 <= i < results@.len() ==> mean_defined(#[trigger] results@[i]@),
    ensures
        out@ == report_text(results@.map_values(|t: Temperature| t@)),
{
    let ghost views = results@.map_values(|t: Temperature| t@);
    let mut out: Vec<u8> = Vec::new();
    let mut i: usize = 0;
    while i < results.len()
        invariant
            views == results@.map_values(|t: Temperature| t@),
            forall|i: int| 0 <= i < results@.len() ==> mean_defined(#[trigger] results@[i]@),
            i <= results@.len(),
            out@ == report_text(views.take(i as int)),
        decreases results@.len() - i,
    {
        push_line(&mut out, &results[i]);
        assert(views.take(i + 1).drop_last() =~= views.take(i as int));
        i = i + 1;
    }
    assert(views.take(i as int) =~= views);
    out
}

// ---------------------------------------------------------------------------
// Laws of the report text
// ---------------------------------------------------------------------------

/// A station's line starts with the bytes of its name, unchanged, then `=`,
/// and ends with a newline.
pub proof fn lemma_report_line_starts_with_name(t: Summary)
    ensures
        report_line(t).len() > t.0.len() + 1,
        report_line(t).take(t.0.len() as int) == t.0,
        report_line(t)[t.0.len() as int] == 61u8,
        report_line(t).last() == 10u8,
{
    let l = report_line(t);
    assert(l.take(t.0.len() as int) =~= t.0);
}

/// The report is the stations' lines one after another: the text of two
/// lists joined is the two texts joined.
pub proof fn lemma_report_text_concat(a: Seq<Summary>, b: Seq<Summary>)
    ensures
        report_text(a + b) == report_text(a) + report_text(b),
    decreases b.len(),
{
    if b.len() == 0 {
        assert(a + b =~= a);
        assert(report_text(a) + report_text(b) =~= report_text(a));
    } else {
        lemma_report_text_concat(a, b.drop_last());
        assert((a + b).drop_last() =~= a + b.drop_last());
        assert((a + b).last() == b.last());
        assert(report_text(a + b) =~= report_text(a) + report_text(b));
    }
}

/// The decimal digits of `n` are digits, spell `n`, and start with `0`
/// only for `n` itself zero.
pub proof fn lemma_decimal_digits(n: nat)
    ensures
        decimal_digits(n).len() >= 1,
        forall|j: int| 0 <= j < decimal_digits(n).len() ==> crate::is_digit(
            #[trigger] decimal_digits(n)[j],
        ),
        crate::digits_value(decimal_digits(n)) == n,
        decimal_digits(n).len() > 1 ==> decimal_digits(n)[0] != 48u8,
        n > 0 ==> decimal_digits(n)[0] != 48u8,
    decreases n,
{
    let d = decimal_digits(n);
    if n >= 10 {
        lemma_decimal_digits(n / 10);
        assert(d.drop_last() =~= decimal_digits(n / 10));
        assert(d.last() == (48 + n % 10) as u8);
        assert(crate::digits_value(d) == 10 * crate::digits_value(d.drop_last()) + (d.last() - 48));
        assert(d[0] == decimal_digits(n / 10)[0]);
        assert forall|j: int| 0 <= j < d.len() implies crate::is_digit(#[trigger] d[j]) by {
            if j < d.len() - 1 {
                assert(d[j] == decimal_digits(n / 10)[j]);
            }
        }
    } else {
        assert(d.drop_last() =~= Seq::<u8>::empty());
        assert(crate::digits_value(Seq::<u8>::empty()) == 0);
        assert(d.last() == (48 + n) as u8);
        assert(crate::digits_value(d) == 10 * crate::digits_value(d.drop_last()) + (d.last() - 48));
    }
}

/// A value written with one decimal reads back as that value: the text
/// is an optional `-` (exactly for negative values), decimal digits without
/// a leading zero, `.` and one more digit, and the decimal reader gives
/// back the number of tenths.
pub proof fn lemma_tenths_text_reads_back(x: int)
    ensures
        ({
            let s = tenths_text(x);
            let sign: int = if x < 0 {
                1
            } else {
                0
            };
            &&& s.len() >= sign + 3
            &&& (x < 0 <==> s[0] == 45u8)
            &&& s[s.len() - 2] == 46u8
            &&& crate::is_digit(s.last())
            &&& forall|j: int| sign <= j < s.len() - 2 ==> crate::is_digit(#[trigger] s[j])
            &&& (s.len() - 2 - sign > 1 ==> s[sign] != 48u8)
            &&& crate::decimal_value(s) == x
        }),
{
    let s = tenths_text(x);
    let m = super::abs(x);
    let q = (m / 10) as nat;
    let r = m % 10;
    let digits = decimal_digits(q);
    lemma_decimal_digits(q);
    let body = digits + seq![46u8, (48 + r) as u8];
    assert(body.drop_last() =~= digits.push(46u8));
    assert(digits.push(46u8).drop_last() =~= digits);
    assert(digits.push(46u8).last() == 46u8);
    assert(crate::digits_value(digits.push(46u8)) == q);
    assert(body.last() == (48 + r) as u8);
    assert(crate::digits_value(body) == 10 * crate::digits_value(body.drop_last()) + (body.last() - 48));
    assert(crate::digits_value(body) == 10 * q + r);
    assert(10 * q + r == m);
    if x < 0 {
        assert(s =~= seq![45u8] + body);
        assert(s.drop_first() =~= body);
        assert forall|j: int| 1 <= j < s.len() - 2 implies crate::is_digit(#[trigger] s[j]) by {
            assert(s[j] == digits[j - 1]);
        }
    } else {
        assert(s =~= body);
        assert(s[0] == digits[0]);
        assert forall|j: int| 0 <= j < s.len() - 2 implies crate::is_digit(#[trigger] s[j]) by {
            assert(s[j] == digits[j]);
        }
    }
}

} // verus!
