//! Cutting the file into line-aligned chunks for a fixed number of workers,
//! each chunk taken as text one character per byte.
use vstd::prelude::*;

use super::soln::NEWLINE;

verus! {

/// The last index at or before `p` that holds a newline, or `-1` where
/// there is none.
pub open spec fn newline_at_or_before(s: Seq<u8>, p: int) -> int
    decreases p + 1,
{
    if p < 0 {
        -1
    } else if s[p] == NEWLINE {
        p
    } else {
        newline_at_or_before(s, p - 1)
    }
}

/// The nominal size of a worker's chunk.
pub open spec fn chunk_step(file_size: int, num_of_threads: int) -> int {
    file_size / num_of_threads
}

/// Where chunk `i` starts: at the front for a nominal start of `0`, else
/// just after the last newline at or before its nominal start.
pub open spec fn work_from(file_size: int, num_of_threads: int, i: int, s: Seq<u8>) -> int {
    let from = chunk_step(file_size, num_of_threads) * i;
    if from == 0 {
        0
    } else {
        newline_at_or_before(s, from) + 1
    }
}

/// Where chunk `i` ends (exclusive): just after the last newline at or
/// before its nominal end where that lies inside the file; the file's size
/// where the nominal end is the size; one past the nominal end beyond it.
pub open spec fn work_to(file_size: int, num_of_threads: int, i: int, s: Seq<u8>) -> int {
    let to = chunk_step(file_size, num_of_threads) * (i + 1);
    if to < file_size {
        newline_at_or_before(s, to) + 1
    } else if to == file_size {
        file_size
    } else {
        to + 1
    }
}

/// `work` can cut chunk `i`: there is a worker, the nominal bounds fit a
/// `u64`, the backward searches read inside the data and find a newline,
/// and the chunk is a range of the data.
pub open spec fn work_ok(file_size: int, num_of_threads: int, i: int, s: Seq<u8>) -> bool {
    let from = chunk_step(file_size, num_of_threads) * i;
    let to = chunk_step(file_size, num_of_threads) * (i + 1);
    &&& num_of_threads > 0
    &&& i < u64::MAX
    &&& to <= u64::MAX
    &&& (from != 0 ==> from < s.len() && newline_at_or_before(s, from) >= 0)
    &&& (to < file_size ==> to < s.len() && newline_at_or_before(s, to) >= 0)
    &&& 0 <= work_from(file_size, num_of_threads, i, s) <= work_to(
        file_size,
        num_of_threads,
        i,
        s,
    ) <= s.len()
}

/// Bytes taken as characters one for one (`char::from` of each byte).
pub open spec fn latin1(bytes: Seq<u8>) -> Seq<char> {
    bytes.map_values(|b: u8| b as char)
}

/// What `newline_at_or_before` finds is a newline, or nothing; no newline
/// stands after it up to `p`.
pub proof fn lemma_newline_at_or_before(s: Seq<u8>, p: int)
    requires
        -1 <= p < s.len(),
    ensures
        -1 <= newline_at_or_before(s, p) <= p,
        newline_at_or_before(s, p) >= 0 ==> s[newline_at_or_before(s, p)] == NEWLINE,
        forall|j: int| newline_at_or_before(s, p) < j <= p ==> s[j] != NEWLINE,
    decreases p + 1,
{
    if p >= 0 && s[p] != NEWLINE {
        lemma_newline_at_or_before(s, p - 1);
    }
}

/// Appends a character, by `String::push`.
#[verifier::external_body]
fn push_char(s: &mut String, c: char)
    ensures
        final(s)@ == old(s)@.push(c),
{
    s.push(c);
}

/// Scans back from `p` to the last newline at or before it.
fn scan_back(contents: &[u8], p: u64) -> (r: u64)
    requires
        p < contents@.len(),
        newline_at_or_before(contents@, p as int) >= 0,
    ensures
        r == newline_at_or_before(contents@, p as int),
{
    let mut at: u64 = p;
    proof {
        lemma_newline_at_or_before(contents@, p as int);
    }
    while contents[at as usize] != NEWLINE
        invariant
            at <= p < contents@.len(),
            newline_at_or_before(contents@, at as int) == newline_at_or_before(contents@, p as int),
            newline_at_or_before(contents@, p as int) >= 0,
        decreases at,
    {
        proof {
            lemma_newline_at_or_before(contents@, at as int);
        }
        at = at - 1;
    }
    at
}

/// Cuts chunk `i` of `num_of_threads` out of the first `file_size` bytes of
/// `contents` and appends it to `chunks` as text, one character per byte.
/// The nominal bounds are `file_size / num_of_threads` times `i` and
/// `i + 1`; a start other than the front moves back to just after the last
/// newline at or before it; an end inside the file moves back to just
/// after the last newline at or before it. The chunk so contains whole
/// lines, and chunk `i` ends where chunk `i + 1` starts.
pub fn work(file_size: u64, num_of_threads: u64, i: u64, contents: &[u8], chunks: &mut Vec<String>)
    requires
        work_ok(file_size as int, num_of_threads as int, i as int, contents@),
    ensures
        final(chunks)@.len() == old(chunks)@.len() + 1,
        forall|k: int| 0 <= k < old(chunks)@.len() ==> #[trigger] final(chunks)@[k] == old(chunks)@[k],
        final(chunks)@.last()@ == latin1(
            contents@.subrange(
                work_from(file_size as int, num_of_threads as int, i as int, contents@),
                work_to(file_size as int, num_of_threads as int, i as int, contents@),
            ),
        ),
{
    let step = file_size / num_of_threads;
    proof {
        assert(step * i <= step * (i + 1)) by (nonlinear_arith)
            requires
                step >= 0,
                i >= 0,
        ;
    }
    let ghost work_start = work_from(file_size as int, num_of_threads as int, i as int, contents@);
    let ghost work_end = work_to(file_size as int, num_of_threads as int, i as int, contents@);
    let len = contents.len();
    let mut from: u64 = step * i;
    let mut to: u64 = step * (i + 1);
    if from != 0 {
        from = scan_back(contents, from);
        assert(from < len);
        // exclude the newline
        from = from + 1;
    }
    assert(from == work_start);
    if to < file_size {
        proof {
            lemma_newline_at_or_before(contents@, to as int);
        }
        to = scan_back(contents, to);
        assert(to < len);
    }
    if to != file_size {
        assert(to + 1 == work_end);
        // include the newline
        to = to + 1;
    } else {
        to = file_size;
    }
    assert(to == work_end);
    let chunk = &contents[from as usize..to as usize];
    let mut text = String::new();
    let mut k: usize = 0;
    while k < chunk.len()
        invariant
            k <= chunk@.len(),
            text@ == latin1(chunk@.take(k as int)),
        decreases chunk@.len() - k,
    {
        push_char(&mut text, chunk[k] as char);
        assert(latin1(chunk@.take(k + 1)) =~= latin1(chunk@.take(k as int)).push(chunk@[k as int] as char));
        k = k + 1;
    }
    assert(chunk@.take(k as int) =~= chunk@);
    chunks.push(text);
}

/// The last newline at or before `p`, if there is one.
fn find_newline_back(contents: &[u8], p: u64) -> (r: Option<u64>)
    requires
        p < contents@.len(),
    ensures
        r is Some <==> newline_at_or_before(contents@, p as int) >= 0,
        r matches Some(j) ==> j == newline_at_or_before(contents@, p as int),
{
    let mut at: u64 = p;
    proof {
        lemma_newline_at_or_before(contents@, p as int);
    }
    while at > 0 && contents[at as usize] != NEWLINE
        invariant
            at <= p < contents@.len(),
            newline_at_or_before(contents@, at as int) == newline_at_or_before(contents@, p as int),
        decreases at,
    {
        proof {
            lemma_newline_at_or_before(contents@, at as int);
        }
        at = at - 1;
    }
    if contents[at as usize] == NEWLINE {
        Some(at)
    } else {
        proof {
            assert(newline_at_or_before(contents@, -1) == -1);
        }
        None
    }
}

/// Tells whether `work` can cut chunk `i` (see `work_ok`), that is, whether
/// it runs without failing.
pub fn work_fits(file_size: u64, num_of_threads: u64, i: u64, contents: &[u8]) -> (ok: bool)
    ensures
        ok == work_ok(file_size as int, num_of_threads as int, i as int, contents@),
{
    if num_of_threads == 0 || i == u64::MAX {
        return false;
    }
    let step = file_size / num_of_threads;
    let to_nominal = match step.checked_mul(i + 1) {
        Some(v) => v,
        None => {
            return false;
        },
    };
    proof {
        assert(step * i <= step * (i + 1)) by (nonlinear_arith)
            requires
                step >= 0,
                i >= 0,
        ;
    }
    let from_nominal = step * i;
    let len = contents.len() as u64;
    let mut from: u64 = 0;
    if from_nominal != 0 {
        if from_nominal >= len {
            return false;
        }
        proof {
            lemma_newline_at_or_before(contents@, from_nominal as int);
        }
        match find_newline_back(contents, from_nominal) {
            Some(j) => {
                from = j + 1;
            },
            None => {
                return false;
            },
        }
    }
    let mut to: u64;
    if to_nominal < file_size {
        if to_nominal >= len {
            return false;
        }
        proof {
            lemma_newline_at_or_before(contents@, to_nominal as int);
        }
        match find_newline_back(contents, to_nominal) {
            Some(j) => {
                to = j + 1;
            },
            None => {
                return false;
            },
        }
    } else if to_nominal == file_size {
        to = file_size;
    } else {
        if to_nominal >= len {
            return false;
        }
        to = to_nominal + 1;
    }
    from <= to && to <= len
}

/// The first chunk starts at the front of the file.
pub proof fn lemma_first_chunk_starts_at_front(
    file_size: int,
    num_of_threads: int,
    contents: Seq<u8>,
)
    ensures
        work_from(file_size, num_of_threads, 0, contents) == 0,
{
}

/// Chunk `i` ends where chunk `i + 1` starts, wherever their shared nominal
/// bound lies strictly inside the file.
pub proof fn lemma_chunks_adjacent(file_size: int, num_of_threads: int, i: int, contents: Seq<u8>)
    requires
        0 < chunk_step(file_size, num_of_threads) * (i + 1) < file_size,
    ensures
        work_to(file_size, num_of_threads, i, contents) == work_from(
            file_size,
            num_of_threads,
            i + 1,
            contents,
        ),
{
}

/// A chunk that does not start at the front starts just after a newline,
/// and one that ends inside the file ends just after a newline.
pub proof fn lemma_chunk_bounds_follow_newlines(
    file_size: int,
    num_of_threads: int,
    i: int,
    contents: Seq<u8>,
)
    requires
        work_ok(file_size, num_of_threads, i, contents),
    ensures
        work_from(file_size, num_of_threads, i, contents) > 0 ==> contents[work_from(
            file_size,
            num_of_threads,
            i,
            contents,
        ) - 1] == NEWLINE,
        chunk_step(file_size, num_of_threads) * (i + 1) < file_size ==> contents[work_to(
            file_size,
            num_of_threads,
            i,
            contents,
        ) - 1] == NEWLINE,
{
    let from = chunk_step(file_size, num_of_threads) * i;
    let to = chunk_step(file_size, num_of_threads) * (i + 1);
    if from != 0 {
        lemma_newline_at_or_before(contents, from);
    }
    if to < file_size {
        lemma_newline_at_or_before(contents, to);
    }
}

/// Where chunk `i` starts and ends, in terms of the bytes. With the
/// nominal bounds `step * i` and `step * (i + 1)`, `step` being
/// `file_size / num_of_threads`: a start of `0` stays at the front;
/// another start comes just after a newline, with no newline from there up
/// to and with the nominal start. An end inside the file comes just after
/// a newline, with no newline from there up to and with the nominal end;
/// an end at the file's size stays; an end beyond it moves one further.
pub proof fn lemma_chunk_bounds_exact(
    file_size: int,
    num_of_threads: int,
    i: int,
    contents: Seq<u8>,
)
    requires
        work_ok(file_size, num_of_threads, i, contents),
    ensures
        ({
            let step = file_size / num_of_threads;
            let from = work_from(file_size, num_of_threads, i, contents);
            let to = work_to(file_size, num_of_threads, i, contents);
            &&& step * i == 0 ==> from == 0
            &&& step * i != 0 ==> {
                &&& 0 < from <= step * i + 1
                &&& contents[from - 1] == NEWLINE
                &&& forall|j: int| from <= j <= step * i ==> contents[j] != NEWLINE
            }
            &&& step * (i + 1) < file_size ==> {
                &&& 0 < to <= step * (i + 1) + 1
                &&& contents[to - 1] == NEWLINE
                &&& forall|j: int| to <= j <= step * (i + 1) ==> contents[j] != NEWLINE
            }
            &&& step * (i + 1) == file_size ==> to == file_size
            &&& step * (i + 1) > file_size ==> to == step * (i + 1) + 1
        }),
{
    let step = file_size / num_of_threads;
    if step * i != 0 {
        lemma_newline_at_or_before(contents, step * i);
    }
    if step * (i + 1) < file_size {
        lemma_newline_at_or_before(contents, step * (i + 1));
    }
}

/// A chunk's text has one character per byte, each with the byte's value.
pub proof fn lemma_latin1_bytes(bytes: Seq<u8>)
    ensures
        latin1(bytes).len() == bytes.len(),
        forall|j: int| 0 <= j < bytes.len() ==> #[trigger] latin1(bytes)[j] as u32 == bytes[j] as u32,
{
}

} // verus!
