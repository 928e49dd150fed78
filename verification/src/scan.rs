//! Forward and backward search for a byte sequence inside a buffer.

use vstd::prelude::*;

verus! {

/// The pattern `pat` occurs in `buf` starting at index `i`.
pub open spec fn matches_at(buf: Seq<u8>, pat: Seq<u8>, i: int) -> bool {
    0 <= i && i + pat.len() <= buf.len() && buf.subrange(i, i + pat.len()) == pat
}

/// The first occurrence of `pat` in `buf` at or after index `i`, if any.
pub open spec fn first_match_from(buf: Seq<u8>, pat: Seq<u8>, i: int) -> Option<int>
    recommends
        0 <= i,
    decreases buf.len() - i + 1,
{
    if i + pat.len() > buf.len() {
        None
    } else if matches_at(buf, pat, i) {
        Some(i)
    } else {
        first_match_from(buf, pat, i + 1)
    }
}

/// The first occurrence of `pat` in `buf`, if any.
pub open spec fn first_match(buf: Seq<u8>, pat: Seq<u8>) -> Option<int> {
    first_match_from(buf, pat, 0)
}

/// The last occurrence of `pat` in `buf` at or before index `i`, if any.
pub open spec fn last_match_until(buf: Seq<u8>, pat: Seq<u8>, i: int) -> Option<int>
    decreases i + 1,
{
    if i < 0 {
        None
    } else if matches_at(buf, pat, i) {
        Some(i)
    } else {
        last_match_until(buf, pat, i - 1)
    }
}

/// The last occurrence of `pat` in `buf`, if any.
pub open spec fn last_match(buf: Seq<u8>, pat: Seq<u8>) -> Option<int> {
    last_match_until(buf, pat, buf.len() - pat.len())
}

/// Where the first occurrence lies: within bounds, an occurrence, and with no
/// occurrence before it.
pub proof fn lemma_first_match_from(buf: Seq<u8>, pat: Seq<u8>, i: int)
    requires
        0 <= i,
    ensures
        first_match_from(buf, pat, i) matches Some(j) ==> {
            &&& i <= j
            &&& matches_at(buf, pat, j)
            &&& forall|k: int| i <= k < j ==> !matches_at(buf, pat, k)
        },
        first_match_from(buf, pat, i) is None ==> forall|k: int|
            i <= k ==> !matches_at(buf, pat, k),
    decreases buf.len() - i + 1,
{
    if i + pat.len() > buf.len() {
        assert forall|k: int| i <= k implies !matches_at(buf, pat, k) by {}
    } else if matches_at(buf, pat, i) {
    } else {
        lemma_first_match_from(buf, pat, i + 1);
    }
}

/// Where the last occurrence lies: within bounds, an occurrence, and with no
/// occurrence after it.
pub proof fn lemma_last_match_until(buf: Seq<u8>, pat: Seq<u8>, i: int)
    ensures
        last_match_until(buf, pat, i) matches Some(j) ==> {
            &&& j <= i
            &&& matches_at(buf, pat, j)
            &&& forall|k: int| j < k <= i ==> !matches_at(buf, pat, k)
        },
        last_match_until(buf, pat, i) is None ==> forall|k: int|
            k <= i ==> !matches_at(buf, pat, k),
    decreases i + 1,
{
    if i < 0 {
    } else if matches_at(buf, pat, i) {
    } else {
        lemma_last_match_until(buf, pat, i - 1);
    }
}

/// Returns true when the two byte slices hold the same bytes.
pub fn bytes_eq(a: &[u8], b: &[u8]) -> (r: bool)
    ensures
        r == (a@ == b@),
{
    if a.len() != b.len() {
        proof {
            assert(a@.len() != b@.len());
        }
        return false;
    }
    let n = a.len();
    let mut i: usize = 0;
    while i < n
        invariant
            n == a@.len() == b@.len(),
            0 <= i <= n,
            forall|j: int| 0 <= j < i ==> a@[j] == b@[j],
        decreases n - i,
    {
        if a[i] != b[i] {
            proof {
                assert(a@[i as int] != b@[i as int]);
            }
            return false;
        }
        i = i + 1;
    }
    proof {
        assert(a@ =~= b@);
    }
    true
}

/// Returns true when `pat` occurs in `buf` at index `i`.
fn matches_at_exec(buf: &[u8], pat: &[u8], i: usize) -> (r: bool)
    requires
        i + pat@.len() <= buf@.len(),
    ensures
        r == matches_at(buf@, pat@, i as int),
{
    let blen = buf.len();
    proof {
        assert(i + pat@.len() <= blen);
    }
    let sub = vstd::slice::slice_subrange(buf, i, i + pat.len());
    bytes_eq(sub, pat)
}

/// Returns the starting index of the first exact occurrence of `seq` inside
/// `buf`, scanning forward, or `None` when there is none.
pub fn position_of_sequence(buf: &[u8], seq: &[u8]) -> (r: Option<usize>)
    ensures
        match r {
            Some(i) => first_match(buf@, seq@) == Some(i as int),
            None => first_match(buf@, seq@) is None,
        },
{
    if seq.len() > buf.len() {
        return None;
    }
    let end = buf.len() - seq.len();
    let mut i: usize = 0;
    loop
        invariant
            seq@.len() <= buf@.len(),
            end == buf@.len() - seq@.len(),
            0 <= i <= end,
            first_match(buf@, seq@) == first_match_from(buf@, seq@, i as int),
        decreases end - i,
    {
        if matches_at_exec(buf, seq, i) {
            return Some(i);
        }
        if i == end {
            proof {
                assert(first_match_from(buf@, seq@, i as int)
                    == first_match_from(buf@, seq@, i + 1));
                assert(first_match_from(buf@, seq@, i + 1) is None);
            }
            return None;
        }
        i = i + 1;
    }
}

/// Returns the starting index of the last exact occurrence of `seq` inside
/// `buf`, scanning backward, or `None` when there is none. A needle longer
/// than the buffer is simply not found.
pub fn last_position_of_sequence(buf: &[u8], seq: &[u8]) -> (r: Option<usize>)
    ensures
        match r {
            Some(i) => last_match(buf@, seq@) == Some(i as int),
            None => last_match(buf@, seq@) is None,
        },
{
    if seq.len() > buf.len() {
        return None;
    }
    let mut i = buf.len() - seq.len();
    loop
        invariant
            seq@.len() <= buf@.len(),
            0 <= i <= buf@.len() - seq@.len(),
            last_match(buf@, seq@) == last_match_until(buf@, seq@, i as int),
        decreases i,
    {
        if matches_at_exec(buf, seq, i) {
            return Some(i);
        }
        if i == 0 {
            proof {
                assert(last_match_until(buf@, seq@, 0) == last_match_until(buf@, seq@, -1));
                assert(last_match_until(buf@, seq@, -1) is None);
            }
            return None;
        }
        i = i - 1;
    }
}

} // verus!
