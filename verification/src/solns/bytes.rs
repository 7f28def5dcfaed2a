//! Searching byte strings: where a byte occurs first, and where it occurs
//! at all. The fast searches come from the `memchr` crate.
use vstd::prelude::*;

verus! {

/// The first index at or after `from` where `s` holds `b`, or `s.len()`
/// where there is none.
pub open spec fn first_at_or_after(s: Seq<u8>, b: u8, from: int) -> int
    decreases s.len() - from,
{
    if from >= s.len() {
        s.len() as int
    } else if s[from] == b {
        from
    } else {
        first_at_or_after(s, b, from + 1)
    }
}

/// Every index of `s` that holds `b`, in increasing order.
pub open spec fn index_positions(s: Seq<u8>, b: u8) -> Seq<int>
    decreases s.len(),
{
    if s.len() == 0 {
        Seq::empty()
    } else {
        let earlier = index_positions(s.drop_last(), b);
        if s.last() == b {
            earlier.push(s.len() - 1)
        } else {
            earlier
        }
    }
}

/// `first_at_or_after` is pinned down by what lies between `from` and the
/// index it names.
pub proof fn lemma_first_at_or_after(s: Seq<u8>, b: u8, from: int, i: int)
    requires
        0 <= from <= i <= s.len(),
        i == s.len() || s[i] == b,
        forall|j: int| from <= j < i ==> s[j] != b,
    ensures
        first_at_or_after(s, b, from) == i,
    decreases i - from,
{
    if from < i {
        lemma_first_at_or_after(s, b, from + 1, i);
    }
}

/// `first_at_or_after` names an index between `from` and the end, where `b`
/// stands unless it is the end, and before which `b` does not occur.
pub proof fn lemma_first_at_or_after_bounds(s: Seq<u8>, b: u8, from: int)
    requires
        0 <= from <= s.len(),
    ensures
        from <= first_at_or_after(s, b, from) <= s.len(),
        first_at_or_after(s, b, from) < s.len() ==> s[first_at_or_after(s, b, from)] == b,
        forall|j: int| from <= j < first_at_or_after(s, b, from) ==> s[j] != b,
    decreases s.len() - from,
{
    if from < s.len() && s[from] != b {
        lemma_first_at_or_after_bounds(s, b, from + 1);
    }
}

/// The positions are in range, strictly increasing, and each holds `b`;
/// every index that holds `b` is among them.
pub proof fn lemma_index_positions(s: Seq<u8>, b: u8)
    ensures
        forall|k: int|
            0 <= k < index_positions(s, b).len() ==> 0 <= #[trigger] index_positions(s, b)[k]
                < s.len() && s[index_positions(s, b)[k]] == b,
        forall|k1: int, k2: int|
            0 <= k1 < k2 < index_positions(s, b).len() ==> #[trigger] index_positions(s, b)[k1]
                < #[trigger] index_positions(s, b)[k2],
        forall|j: int|
            0 <= j < s.len() && s[j] == b ==> exists|k: int|
                0 <= k < index_positions(s, b).len() && #[trigger] index_positions(s, b)[k] == j,
    decreases s.len(),
{
    if s.len() > 0 {
        let t = s.drop_last();
        lemma_index_positions(t, b);
        let p = index_positions(t, b);
        assert forall|j: int| 0 <= j < s.len() && s[j] == b implies exists|k: int|
            0 <= k < index_positions(s, b).len() && #[trigger] index_positions(s, b)[k] == j by {
            if j < s.len() - 1 {
                assert(t[j] == b);
                let k = choose|k: int| 0 <= k < p.len() && #[trigger] p[k] == j;
                assert(index_positions(s, b)[k] == j);
            } else {
                assert(index_positions(s, b)[p.len() as int] == j);
            }
        }
    }
}

/// The first index of `needle` in `haystack`, by `memchr::memchr`.
///
/// The contract states what the crate documents: `Some(i)` names the first
/// occurrence, and `None` means that the byte does not occur.
#[verifier::external_body]
pub(crate) fn memchr_first(needle: u8, haystack: &[u8]) -> (r: Option<usize>)
    ensures
        match r {
            Some(i) => i < haystack@.len() && haystack@[i as int] == needle && forall|j: int|
                0 <= j < i ==> haystack@[j] != needle,
            None => forall|j: int| 0 <= j < haystack@.len() ==> haystack@[j] != needle,
        },
{
    memchr::memchr(needle, haystack)
}

/// Every index of `needle` in `haystack`, in increasing order, as
/// `memchr::memchr_iter` yields them, collected into a vector.
///
/// The contract states what the crate documents: the iterator yields all
/// occurrences, front to back.
#[verifier::external_body]
pub(crate) fn memchr_all(needle: u8, haystack: &[u8]) -> (positions: Vec<usize>)
    ensures
        positions@.map_values(|p: usize| p as int) == index_positions(haystack@, needle),
{
    memchr::memchr_iter(needle, haystack).collect()
}

/// The first index at or after `from` where `s` holds `b`, or `s.len()`
/// where there is none.
pub fn position_from(s: &[u8], b: u8, from: usize) -> (r: usize)
    requires
        from <= s@.len(),
    ensures
        r == first_at_or_after(s@, b, from as int),
{
    let mut i: usize = from;
    while i < s.len() && s[i] != b
        invariant
            from <= i <= s@.len(),
            forall|j: int| from <= j < i ==> s@[j] != b,
        decreases s@.len() - i,
    {
        i = i + 1;
    }
    proof {
        lemma_first_at_or_after(s@, b, from as int, i as int);
    }
    i
}

} // verus!
