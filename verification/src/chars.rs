use vstd::prelude::*;

verus! {

/// The Unicode `White_Space` characters, as `char::is_whitespace` defines them.
pub open spec fn spec_ws(c: char) -> bool {
    let u = c as u32;
    (0x09 <= u <= 0x0D) || u == 0x20 || u == 0x85 || u == 0xA0 || u == 0x1680 || (0x2000 <= u
        <= 0x200A) || u == 0x2028 || u == 0x2029 || u == 0x202F || u == 0x205F || u == 0x3000
}

pub fn is_ws(c: char) -> (r: bool)
    ensures
        r == spec_ws(c),
{
    let u = c as u32;
    (0x09 <= u && u <= 0x0D) || u == 0x20 || u == 0x85 || u == 0xA0 || u == 0x1680 || (0x2000 <= u
        && u <= 0x200A) || u == 0x2028 || u == 0x2029 || u == 0x202F || u == 0x205F || u == 0x3000
}

/// The first index at or after `i` that is not whitespace (or the length).
pub open spec fn skip_ws_from(s: Seq<char>, i: int) -> int
    decreases s.len() - i,
{
    if 0 <= i < s.len() && spec_ws(s[i]) {
        skip_ws_from(s, i + 1)
    } else {
        i
    }
}

/// The first index at or after `i` that is whitespace (or the length).
pub open spec fn skip_word_from(s: Seq<char>, i: int) -> int
    decreases s.len() - i,
{
    if 0 <= i < s.len() && !spec_ws(s[i]) {
        skip_word_from(s, i + 1)
    } else {
        i
    }
}

/// The first index at or after `i` holding `c` (or the length).
pub open spec fn find_from(s: Seq<char>, c: char, i: int) -> int
    decreases s.len() - i,
{
    if 0 <= i < s.len() && s[i] != c {
        find_from(s, c, i + 1)
    } else {
        i
    }
}

/// The first index at or after `i` not holding `c` (or the length).
pub open spec fn skip_char_from(s: Seq<char>, c: char, i: int) -> int
    decreases s.len() - i,
{
    if 0 <= i < s.len() && s[i] == c {
        skip_char_from(s, c, i + 1)
    } else {
        i
    }
}

/// The end of `s[lo..hi]` once trailing whitespace is removed.
pub open spec fn rtrim_end(s: Seq<char>, lo: int, hi: int) -> int
    decreases hi - lo,
{
    if lo < hi && 0 < hi <= s.len() && spec_ws(s[hi - 1]) {
        rtrim_end(s, lo, hi - 1)
    } else {
        hi
    }
}

/// The start of the `k`-th whitespace-separated token (the length when there is none).
pub open spec fn token_start(s: Seq<char>, k: nat) -> int
    decreases k,
{
    if k == 0 {
        skip_ws_from(s, 0)
    } else {
        skip_ws_from(s, skip_word_from(s, token_start(s, (k - 1) as nat)))
    }
}

/// The end of the `k`-th whitespace-separated token.
pub open spec fn token_end(s: Seq<char>, k: nat) -> int {
    skip_word_from(s, token_start(s, k))
}

/// Whether the line has at least `k + 1` tokens.
pub open spec fn has_token(s: Seq<char>, k: nat) -> bool {
    token_start(s, k) < s.len()
}

/// The `k`-th whitespace-separated token.
pub open spec fn token(s: Seq<char>, k: nat) -> Seq<char> {
    s.subrange(token_start(s, k), token_end(s, k))
}

pub proof fn lemma_skip_ws_bounds(s: Seq<char>, i: int)
    requires
        0 <= i <= s.len(),
    ensures
        i <= skip_ws_from(s, i) <= s.len(),
        skip_ws_from(s, i) < s.len() ==> !spec_ws(s[skip_ws_from(s, i)]),
        forall|j: int| i <= j < skip_ws_from(s, i) ==> spec_ws(#[trigger] s[j]),
    decreases s.len() - i,
{
    if i < s.len() && spec_ws(s[i]) {
        lemma_skip_ws_bounds(s, i + 1);
    }
}

pub proof fn lemma_skip_word_bounds(s: Seq<char>, i: int)
    requires
        0 <= i <= s.len(),
    ensures
        i <= skip_word_from(s, i) <= s.len(),
        skip_word_from(s, i) < s.len() ==> spec_ws(s[skip_word_from(s, i)]),
        forall|j: int| i <= j < skip_word_from(s, i) ==> !spec_ws(#[trigger] s[j]),
    decreases s.len() - i,
{
    if i < s.len() && !spec_ws(s[i]) {
        lemma_skip_word_bounds(s, i + 1);
    }
}

pub proof fn lemma_find_bounds(s: Seq<char>, c: char, i: int)
    requires
        0 <= i <= s.len(),
    ensures
        i <= find_from(s, c, i) <= s.len(),
        find_from(s, c, i) < s.len() ==> s[find_from(s, c, i)] == c,
        forall|j: int| i <= j < find_from(s, c, i) ==> #[trigger] s[j] != c,
    decreases s.len() - i,
{
    if i < s.len() && s[i] != c {
        lemma_find_bounds(s, c, i + 1);
    }
}

pub proof fn lemma_skip_char_bounds(s: Seq<char>, c: char, i: int)
    requires
        0 <= i <= s.len(),
    ensures
        i <= skip_char_from(s, c, i) <= s.len(),
    decreases s.len() - i,
{
    if i < s.len() && s[i] == c {
        lemma_skip_char_bounds(s, c, i + 1);
    }
}

pub proof fn lemma_rtrim_bounds(s: Seq<char>, lo: int, hi: int)
    requires
        0 <= lo <= hi <= s.len(),
    ensures
        lo <= rtrim_end(s, lo, hi) <= hi,
    decreases hi - lo,
{
    if lo < hi && 0 < hi <= s.len() && spec_ws(s[hi - 1]) {
        lemma_rtrim_bounds(s, lo, hi - 1);
    }
}

pub proof fn lemma_token_start_bounds(s: Seq<char>, k: nat)
    ensures
        0 <= token_start(s, k) <= s.len(),
        0 <= token_end(s, k) <= s.len(),
        token_start(s, k) <= token_end(s, k),
    decreases k,
{
    if k == 0 {
        lemma_skip_ws_bounds(s, 0);
    } else {
        lemma_token_start_bounds(s, (k - 1) as nat);
        lemma_skip_word_bounds(s, token_start(s, (k - 1) as nat));
        lemma_skip_ws_bounds(s, skip_word_from(s, token_start(s, (k - 1) as nat)));
    }
    lemma_skip_word_bounds(s, token_start(s, k));
}

/// The characters of a string slice.
pub fn str_chars(s: &str) -> (v: Vec<char>)
    ensures
        v@ == s@,
{
    let mut v: Vec<char> = Vec::new();
    for c in it: s.chars()
        invariant
            v@ == it.seq().take(it.index() as int),
            it.seq() == s@,
    {
        v.push(c);
    }
    v
}

pub fn skip_ws(s: &Vec<char>, i: usize) -> (r: usize)
    requires
        i <= s@.len(),
    ensures
        r == skip_ws_from(s@, i as int),
        i <= r <= s@.len(),
{
    let mut j = i;
    while j < s.len() && is_ws(s[j])
        invariant
            i <= j <= s@.len(),
            skip_ws_from(s@, i as int) == skip_ws_from(s@, j as int),
        decreases s@.len() - j,
    {
        j = j + 1;
    }
    j
}

pub fn skip_word(s: &Vec<char>, i: usize) -> (r: usize)
    requires
        i <= s@.len(),
    ensures
        r == skip_word_from(s@, i as int),
        i <= r <= s@.len(),
{
    let mut j = i;
    while j < s.len() && !is_ws(s[j])
        invariant
            i <= j <= s@.len(),
            skip_word_from(s@, i as int) == skip_word_from(s@, j as int),
        decreases s@.len() - j,
    {
        j = j + 1;
    }
    j
}

pub fn find_char(s: &Vec<char>, c: char, i: usize) -> (r: usize)
    requires
        i <= s@.len(),
    ensures
        r == find_from(s@, c, i as int),
        i <= r <= s@.len(),
{
    let mut j = i;
    while j < s.len() && s[j] != c
        invariant
            i <= j <= s@.len(),
            find_from(s@, c, i as int) == find_from(s@, c, j as int),
        decreases s@.len() - j,
    {
        j = j + 1;
    }
    j
}

pub fn skip_char(s: &Vec<char>, c: char, i: usize) -> (r: usize)
    requires
        i <= s@.len(),
    ensures
        r == skip_char_from(s@, c, i as int),
        i <= r <= s@.len(),
{
    let mut j = i;
    while j < s.len() && s[j] == c
        invariant
            i <= j <= s@.len(),
            skip_char_from(s@, c, i as int) == skip_char_from(s@, c, j as int),
        decreases s@.len() - j,
    {
        j = j + 1;
    }
    j
}

pub fn rtrim(s: &Vec<char>, lo: usize, hi: usize) -> (r: usize)
    requires
        lo <= hi <= s@.len(),
    ensures
        r == rtrim_end(s@, lo as int, hi as int),
        lo <= r <= hi,
{
    let mut j = hi;
    while j > lo && is_ws(s[j - 1])
        invariant
            lo <= j <= hi,
            hi <= s@.len(),
            rtrim_end(s@, lo as int, hi as int) == rtrim_end(s@, lo as int, j as int),
        decreases j,
    {
        j = j - 1;
    }
    j
}

/// The start and end of the `k`-th token, computed from the previous token's end.
pub fn next_token(s: &Vec<char>, k: Ghost<nat>, prev_end: usize) -> (r: (usize, usize))
    requires
        k@ == 0 ==> prev_end == 0,
        k@ > 0 ==> prev_end == token_end(s@, (k@ - 1) as nat),
        prev_end <= s@.len(),
    ensures
        r.0 == token_start(s@, k@),
        r.1 == token_end(s@, k@),
        r.0 <= r.1 <= s@.len(),
{
    let start = skip_ws(s, prev_end);
    let end = skip_word(s, start);
    (start, end)
}

/// `s` without leading and trailing whitespace.
pub open spec fn spec_trim_chars(s: Seq<char>) -> Seq<char> {
    let a = skip_ws_from(s, 0);
    s.subrange(a, rtrim_end(s, a, s.len() as int))
}

pub fn trim_str(s: &str) -> (r: &str)
    ensures
        r@ == spec_trim_chars(s@),
{
    let chars = str_chars(s);
    proof {
        lemma_skip_ws_bounds(chars@, 0);
    }
    let a = skip_ws(&chars, 0);
    let b = rtrim(&chars, a, chars.len());
    s.substring_char(a, b)
}

/// Whether `s` begins with `p`.
pub open spec fn spec_char_prefix(s: Seq<char>, p: Seq<char>) -> bool {
    p.len() <= s.len() && s.subrange(0, p.len() as int) == p
}

/// `s` without the prefix `p`, when it has it.
pub fn strip_prefix_str<'a>(s: &'a str, p: &str) -> (r: Option<&'a str>)
    ensures
        match r {
            Some(v) => spec_char_prefix(s@, p@) && v@ == s@.subrange(p@.len() as int, s@.len() as int),
            None => !spec_char_prefix(s@, p@),
        },
{
    let sc = str_chars(s);
    let pc = str_chars(p);
    if pc.len() > sc.len() {
        return None;
    }
    let mut i: usize = 0;
    while i < pc.len()
        invariant
            0 <= i <= pc@.len() <= sc@.len(),
            sc@ == s@,
            pc@ == p@,
            forall|k: int| 0 <= k < i ==> sc@[k] == pc@[k],
        decreases pc@.len() - i,
    {
        if sc[i] != pc[i] {
            proof {
                assert(s@.subrange(0, p@.len() as int)[i as int] != p@[i as int]);
            }
            return None;
        }
        i = i + 1;
    }
    proof {
        assert(s@.subrange(0, p@.len() as int) =~= p@);
    }
    Some(s.substring_char(pc.len(), sc.len()))
}

} // verus!
