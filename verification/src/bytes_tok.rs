use vstd::prelude::*;
use crate::util::{is_ascii_ws, spec_ascii_ws};

verus! {

/// The first index at or after `i` that is not ASCII whitespace (or the length).
pub open spec fn bskip_ws_from(s: Seq<u8>, i: int) -> int
    decreases s.len() - i,
{
    if 0 <= i < s.len() && spec_ascii_ws(s[i]) {
        bskip_ws_from(s, i + 1)
    } else {
        i
    }
}

/// The first index at or after `i` that is ASCII whitespace (or the length).
pub open spec fn bskip_word_from(s: Seq<u8>, i: int) -> int
    decreases s.len() - i,
{
    if 0 <= i < s.len() && !spec_ascii_ws(s[i]) {
        bskip_word_from(s, i + 1)
    } else {
        i
    }
}

/// The first index at or after `i` holding `b` (or the length).
pub open spec fn bfind_from(s: Seq<u8>, b: u8, i: int) -> int
    decreases s.len() - i,
{
    if 0 <= i < s.len() && s[i] != b {
        bfind_from(s, b, i + 1)
    } else {
        i
    }
}

/// The end of `s[lo..hi]` once trailing ASCII whitespace is removed.
pub open spec fn brtrim_end(s: Seq<u8>, lo: int, hi: int) -> int
    decreases hi - lo,
{
    if lo < hi && 0 < hi <= s.len() && spec_ascii_ws(s[hi - 1]) {
        brtrim_end(s, lo, hi - 1)
    } else {
        hi
    }
}

/// The start of the `k`-th ASCII-whitespace-separated token (the length when there is none).
pub open spec fn btoken_start(s: Seq<u8>, k: nat) -> int
    decreases k,
{
    if k == 0 {
        bskip_ws_from(s, 0)
    } else {
        bskip_ws_from(s, bskip_word_from(s, btoken_start(s, (k - 1) as nat)))
    }
}

pub open spec fn btoken_end(s: Seq<u8>, k: nat) -> int {
    bskip_word_from(s, btoken_start(s, k))
}

pub open spec fn has_btoken(s: Seq<u8>, k: nat) -> bool {
    btoken_start(s, k) < s.len()
}

pub open spec fn btoken(s: Seq<u8>, k: nat) -> Seq<u8> {
    s.subrange(btoken_start(s, k), btoken_end(s, k))
}

pub proof fn lemma_bskip_ws_bounds(s: Seq<u8>, i: int)
    requires
        0 <= i <= s.len(),
    ensures
        i <= bskip_ws_from(s, i) <= s.len(),
        bskip_ws_from(s, i) < s.len() ==> !spec_ascii_ws(s[bskip_ws_from(s, i)]),
    decreases s.len() - i,
{
    if i < s.len() && spec_ascii_ws(s[i]) {
        lemma_bskip_ws_bounds(s, i + 1);
    }
}

pub proof fn lemma_bskip_word_bounds(s: Seq<u8>, i: int)
    requires
        0 <= i <= s.len(),
    ensures
        i <= bskip_word_from(s, i) <= s.len(),
        bskip_word_from(s, i) < s.len() ==> spec_ascii_ws(s[bskip_word_from(s, i)]),
    decreases s.len() - i,
{
    if i < s.len() && !spec_ascii_ws(s[i]) {
        lemma_bskip_word_bounds(s, i + 1);
    }
}

pub proof fn lemma_bfind_bounds(s: Seq<u8>, b: u8, i: int)
    requires
        0 <= i <= s.len(),
    ensures
        i <= bfind_from(s, b, i) <= s.len(),
        bfind_from(s, b, i) < s.len() ==> s[bfind_from(s, b, i)] == b,
        forall|j: int| i <= j < bfind_from(s, b, i) ==> #[trigger] s[j] != b,
    decreases s.len() - i,
{
    if i < s.len() && s[i] != b {
        lemma_bfind_bounds(s, b, i + 1);
    }
}

pub proof fn lemma_btoken_bounds(s: Seq<u8>, k: nat)
    ensures
        0 <= btoken_start(s, k) <= btoken_end(s, k) <= s.len(),
    decreases k,
{
    if k == 0 {
        lemma_bskip_ws_bounds(s, 0);
    } else {
        lemma_btoken_bounds(s, (k - 1) as nat);
        lemma_bskip_word_bounds(s, btoken_start(s, (k - 1) as nat));
        lemma_bskip_ws_bounds(s, bskip_word_from(s, btoken_start(s, (k - 1) as nat)));
    }
    lemma_bskip_word_bounds(s, btoken_start(s, k));
}

pub fn bskip_ws(s: &[u8], i: usize) -> (r: usize)
    requires
        i <= s@.len(),
    ensures
        r == bskip_ws_from(s@, i as int),
        i <= r <= s@.len(),
{
    let mut j = i;
    while j < s.len() && is_ascii_ws(s[j])
        invariant
            i <= j <= s@.len(),
            bskip_ws_from(s@, i as int) == bskip_ws_from(s@, j as int),
        decreases s@.len() - j,
    {
        j = j + 1;
    }
    j
}

pub fn bskip_word(s: &[u8], i: usize) -> (r: usize)
    requires
        i <= s@.len(),
    ensures
        r == bskip_word_from(s@, i as int),
        i <= r <= s@.len(),
{
    let mut j = i;
    while j < s.len() && !is_ascii_ws(s[j])
        invariant
            i <= j <= s@.len(),
            bskip_word_from(s@, i as int) == bskip_word_from(s@, j as int),
        decreases s@.len() - j,
    {
        j = j + 1;
    }
    j
}

pub fn brtrim(s: &[u8], lo: usize, hi: usize) -> (r: usize)
    requires
        lo <= hi <= s@.len(),
    ensures
        r == brtrim_end(s@, lo as int, hi as int),
        lo <= r <= hi,
{
    let mut j = hi;
    while j > lo && is_ascii_ws(s[j - 1])
        invariant
            lo <= j <= hi,
            hi <= s@.len(),
            brtrim_end(s@, lo as int, hi as int) == brtrim_end(s@, lo as int, j as int),
        decreases j,
    {
        j = j - 1;
    }
    j
}

/// The start and end of the `k`-th ASCII token, computed from the previous token's end.
pub fn next_btoken(s: &[u8], k: Ghost<nat>, prev_end: usize) -> (r: (usize, usize))
    requires
        k@ == 0 ==> prev_end == 0,
        k@ > 0 ==> prev_end == btoken_end(s@, (k@ - 1) as nat),
        prev_end <= s@.len(),
    ensures
        r.0 == btoken_start(s@, k@),
        r.1 == btoken_end(s@, k@),
        r.0 <= r.1 <= s@.len(),
{
    let start = bskip_ws(s, prev_end);
    let end = bskip_word(s, start);
    (start, end)
}

/// The first index of `needle` in `hay`, as `memchr::memchr` computes it.
#[verifier::external_body]
pub(crate) fn memchr_first(needle: u8, hay: &[u8]) -> (r: Option<usize>)
    ensures
        r matches Some(i) ==> i < hay@.len() && hay@[i as int] == needle && forall|k: int|
            0 <= k < i ==> hay@[k] != needle,
        r is None ==> forall|k: int| 0 <= k < hay@.len() ==> hay@[k] != needle,
{
    memchr::memchr(needle, hay)
}

/// `bfind_from` computed with `memchr`.
pub fn bfind(s: &[u8], b: u8, i: usize) -> (r: usize)
    requires
        i <= s@.len(),
    ensures
        r == bfind_from(s@, b, i as int),
        i <= r <= s@.len(),
{
    let rest = &s[i..s.len()];
    let found = memchr_first(b, rest);
    proof {
        lemma_bfind_bounds(s@, b, i as int);
    }
    match found {
        Some(k) => {
            proof {
                let f = bfind_from(s@, b, i as int);
                assert(rest@[k as int] == s@[i + k]);
                if f < i + k {
                    assert(rest@[f - i] == s@[f]);
                }
                if f > i + k {
                    assert(s@[i + k] != b);
                }
            }
            i + k
        },
        None => {
            proof {
                let f = bfind_from(s@, b, i as int);
                if f < s@.len() {
                    assert(rest@[f - i] == s@[f]);
                }
            }
            s.len()
        },
    }
}

} // verus!
