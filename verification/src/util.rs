use vstd::prelude::*;
use vstd::string::StringSliceAdditionalSpecFns;

verus! {

/// The UTF-8 bytes of a string slice.
pub open spec fn text_bytes(s: &str) -> Seq<u8> {
    s.spec_bytes()
}

/// ASCII whitespace as `u8::is_ascii_whitespace` defines it.
pub open spec fn spec_ascii_ws(b: u8) -> bool {
    b == 0x20u8 || b == 0x09u8 || b == 0x0Au8 || b == 0x0Cu8 || b == 0x0Du8
}

pub open spec fn spec_digit(b: u8) -> bool {
    0x30u8 <= b <= 0x39u8
}

pub open spec fn spec_alpha(b: u8) -> bool {
    (0x41u8 <= b <= 0x5Au8) || (0x61u8 <= b <= 0x7Au8)
}

pub open spec fn spec_alnum(b: u8) -> bool {
    spec_alpha(b) || spec_digit(b)
}

pub open spec fn spec_hex(b: u8) -> bool {
    spec_digit(b) || (0x41u8 <= b <= 0x46u8) || (0x61u8 <= b <= 0x66u8)
}

pub open spec fn spec_control(b: u8) -> bool {
    b < 0x20u8 || b == 0x7Fu8
}

pub fn is_ascii_ws(b: u8) -> (r: bool)
    ensures
        r == spec_ascii_ws(b),
{
    b == 0x20u8 || b == 0x09u8 || b == 0x0Au8 || b == 0x0Cu8 || b == 0x0Du8
}

pub fn is_digit(b: u8) -> (r: bool)
    ensures
        r == spec_digit(b),
{
    0x30u8 <= b && b <= 0x39u8
}

pub fn is_alpha(b: u8) -> (r: bool)
    ensures
        r == spec_alpha(b),
{
    (0x41u8 <= b && b <= 0x5Au8) || (0x61u8 <= b && b <= 0x7Au8)
}

pub fn is_alnum(b: u8) -> (r: bool)
    ensures
        r == spec_alnum(b),
{
    is_alpha(b) || is_digit(b)
}

pub fn is_hex(b: u8) -> (r: bool)
    ensures
        r == spec_hex(b),
{
    is_digit(b) || (0x41u8 <= b && b <= 0x46u8) || (0x61u8 <= b && b <= 0x66u8)
}

pub fn is_control(b: u8) -> (r: bool)
    ensures
        r == spec_control(b),
{
    b < 0x20u8 || b == 0x7Fu8
}

/// ASCII lowercase of one byte.
pub open spec fn spec_lower(b: u8) -> u8 {
    if 0x41u8 <= b <= 0x5Au8 {
        (b + 32) as u8
    } else {
        b
    }
}

pub fn to_lower(b: u8) -> (r: u8)
    ensures
        r == spec_lower(b),
{
    if 0x41u8 <= b && b <= 0x5Au8 {
        b + 32
    } else {
        b
    }
}

/// Whether every byte of `s` is an ASCII digit.
pub open spec fn spec_all_digits(s: Seq<u8>) -> bool {
    forall|i: int| 0 <= i < s.len() ==> spec_digit(#[trigger] s[i])
}

pub open spec fn spec_all_hex(s: Seq<u8>) -> bool {
    forall|i: int| 0 <= i < s.len() ==> spec_hex(#[trigger] s[i])
}

pub fn all_digits(s: &[u8]) -> (r: bool)
    ensures
        r == spec_all_digits(s@),
{
    let mut i: usize = 0;
    while i < s.len()
        invariant
            0 <= i <= s@.len(),
            forall|j: int| 0 <= j < i ==> spec_digit(#[trigger] s@[j]),
        decreases s@.len() - i,
    {
        if !is_digit(s[i]) {
            return false;
        }
        i = i + 1;
    }
    true
}

pub fn all_hex(s: &[u8]) -> (r: bool)
    ensures
        r == spec_all_hex(s@),
{
    let mut i: usize = 0;
    while i < s.len()
        invariant
            0 <= i <= s@.len(),
            forall|j: int| 0 <= j < i ==> spec_hex(#[trigger] s@[j]),
        decreases s@.len() - i,
    {
        if !is_hex(s[i]) {
            return false;
        }
        i = i + 1;
    }
    true
}

/// Whether `s` begins with `p`.
pub open spec fn spec_starts_with(s: Seq<u8>, p: Seq<u8>) -> bool {
    p.len() <= s.len() && s.subrange(0, p.len() as int) == p
}

/// Whether `s` ends with `p`.
pub open spec fn spec_ends_with(s: Seq<u8>, p: Seq<u8>) -> bool {
    p.len() <= s.len() && s.subrange(s.len() - p.len(), s.len() as int) == p
}

/// Whether `needle` occurs in `hay` at `at`.
pub open spec fn spec_occurs_at(hay: Seq<u8>, needle: Seq<u8>, at: int) -> bool {
    0 <= at && at + needle.len() <= hay.len() && hay.subrange(at, at + needle.len()) == needle
}

/// Whether a non-empty `needle` occurs anywhere in `hay`.
pub open spec fn spec_contains(hay: Seq<u8>, needle: Seq<u8>) -> bool {
    needle.len() > 0 && exists|at: int| #[trigger] spec_occurs_at(hay, needle, at)
}

/// The first position of `needle` in `hay` (zero for an empty needle).
pub open spec fn spec_find(hay: Seq<u8>, needle: Seq<u8>) -> Option<int> {
    if needle.len() == 0 {
        Some(0)
    } else if exists|at: int| #[trigger] spec_occurs_at(hay, needle, at) {
        Some(
            choose|at: int|
                #[trigger] spec_occurs_at(hay, needle, at) && forall|k: int|
                    0 <= k < at ==> !spec_occurs_at(hay, needle, k),
        )
    } else {
        None
    }
}

pub fn bytes_equal(a: &[u8], b: &[u8]) -> (r: bool)
    ensures
        r == (a@ == b@),
{
    if a.len() != b.len() {
        return false;
    }
    let mut i: usize = 0;
    while i < a.len()
        invariant
            a@.len() == b@.len(),
            0 <= i <= a@.len(),
            forall|j: int| 0 <= j < i ==> a@[j] == b@[j],
        decreases a@.len() - i,
    {
        if a[i] != b[i] {
            return false;
        }
        i = i + 1;
    }
    assert(a@ =~= b@);
    true
}

/// Whether `hay` equals the UTF-8 bytes of `lit`.
pub fn bytes_equal_text(hay: &[u8], lit: &str) -> (r: bool)
    ensures
        r == (hay@ == text_bytes(lit)),
{
    bytes_equal(hay, lit.as_bytes())
}

/// Whether `hay` has `p` as a prefix.
pub fn starts_with(hay: &[u8], p: &[u8]) -> (r: bool)
    ensures
        r == spec_starts_with(hay@, p@),
{
    if p.len() > hay.len() {
        return false;
    }
    let mut i: usize = 0;
    while i < p.len()
        invariant
            p@.len() <= hay@.len(),
            0 <= i <= p@.len(),
            forall|j: int| 0 <= j < i ==> hay@[j] == p@[j],
        decreases p@.len() - i,
    {
        if hay[i] != p[i] {
            assert(hay@.subrange(0, p@.len() as int)[i as int] != p@[i as int]);
            return false;
        }
        i = i + 1;
    }
    assert(hay@.subrange(0, p@.len() as int) =~= p@);
    true
}

pub fn starts_with_text(hay: &[u8], lit: &str) -> (r: bool)
    ensures
        r == spec_starts_with(hay@, text_bytes(lit)),
{
    starts_with(hay, lit.as_bytes())
}

pub fn ends_with(hay: &[u8], p: &[u8]) -> (r: bool)
    ensures
        r == spec_ends_with(hay@, p@),
{
    if p.len() > hay.len() {
        return false;
    }
    let off = hay.len() - p.len();
    let tail = &hay[off..hay.len()];
    let r = bytes_equal(tail, p);
    r
}

pub fn ends_with_text(hay: &[u8], lit: &str) -> (r: bool)
    ensures
        r == spec_ends_with(hay@, text_bytes(lit)),
{
    ends_with(hay, lit.as_bytes())
}

/// Whether `needle` occurs in `hay` at `at`.
pub fn occurs_at(hay: &[u8], needle: &[u8], at: usize) -> (r: bool)
    ensures
        r == spec_occurs_at(hay@, needle@, at as int),
{
    if at > hay.len() || needle.len() > hay.len() - at {
        return false;
    }
    let window = &hay[at..at + needle.len()];
    bytes_equal(window, needle)
}

/// The first position of `needle` in `hay`.
pub fn find_bytes(hay: &[u8], needle: &[u8]) -> (r: Option<usize>)
    ensures
        r matches Some(at) ==> Some(at as int) == spec_find(hay@, needle@) && (needle@.len() == 0
            || spec_occurs_at(hay@, needle@, at as int)) && forall|k: int|
            0 <= k < at ==> !spec_occurs_at(hay@, needle@, k),
        r is None ==> spec_find(hay@, needle@) is None,
        r is None <==> (needle@.len() > 0 && !spec_contains(hay@, needle@)),
{
    if needle.len() == 0 {
        return Some(0);
    }
    if needle.len() > hay.len() {
        assert forall|at: int| !spec_occurs_at(hay@, needle@, at) by {}
        return None;
    }
    let last = hay.len() - needle.len();
    let mut i: usize = 0;
    while i <= last
        invariant
            needle@.len() > 0,
            last + needle@.len() == hay@.len(),
            hay@.len() <= usize::MAX,
            0 <= i <= last + 1,
            forall|k: int| 0 <= k < i ==> !spec_occurs_at(hay@, needle@, k),
        decreases last + 1 - i,
    {
        if occurs_at(hay, needle, i) {
            let ghost at = i as int;
            assert(spec_occurs_at(hay@, needle@, at));
            assert(exists|a: int| #[trigger] spec_occurs_at(hay@, needle@, a));
            let ghost c = choose|a: int|
                #[trigger] spec_occurs_at(hay@, needle@, a) && forall|k: int|
                    0 <= k < a ==> !spec_occurs_at(hay@, needle@, k);
            assert(spec_occurs_at(hay@, needle@, at) && forall|k: int|
                0 <= k < at ==> !spec_occurs_at(hay@, needle@, k));
            assert(c == at) by {
                if c < at {
                } else if c > at {
                }
            }
            return Some(i);
        }
        i = i + 1;
    }
    assert forall|at: int| !spec_occurs_at(hay@, needle@, at) by {
        if 0 <= at && at + needle@.len() <= hay@.len() {
            assert(at < i);
        }
    }
    None
}

/// Whether a non-empty `needle` occurs in `hay`.
pub fn contains_bytes(hay: &[u8], needle: &[u8]) -> (r: bool)
    ensures
        r == spec_contains(hay@, needle@),
{
    if needle.len() == 0 {
        return false;
    }
    find_bytes(hay, needle).is_some()
}

pub fn contains_text(hay: &[u8], lit: &str) -> (r: bool)
    ensures
        r == spec_contains(hay@, text_bytes(lit)),
{
    contains_bytes(hay, lit.as_bytes())
}

/// Number of leading ASCII whitespace bytes.
pub open spec fn spec_leading_ws(s: Seq<u8>) -> int
    decreases s.len(),
{
    if s.len() > 0 && spec_ascii_ws(s[0]) {
        1 + spec_leading_ws(s.drop_first())
    } else {
        0
    }
}

/// Number of trailing ASCII whitespace bytes.
pub open spec fn spec_trailing_ws(s: Seq<u8>) -> int
    decreases s.len(),
{
    if s.len() > 0 && spec_ascii_ws(s.last()) {
        1 + spec_trailing_ws(s.drop_last())
    } else {
        0
    }
}

/// `s` with leading ASCII whitespace removed.
pub open spec fn spec_trim_start(s: Seq<u8>) -> Seq<u8> {
    s.subrange(spec_leading_ws(s), s.len() as int)
}

/// `s` with trailing ASCII whitespace removed.
pub open spec fn spec_trim_end(s: Seq<u8>) -> Seq<u8> {
    s.subrange(0, s.len() - spec_trailing_ws(s))
}

/// `s` with ASCII whitespace removed at both ends.
pub open spec fn spec_trim(s: Seq<u8>) -> Seq<u8> {
    spec_trim_end(spec_trim_start(s))
}

pub proof fn lemma_leading_ws_bounds(s: Seq<u8>)
    ensures
        0 <= spec_leading_ws(s) <= s.len(),
        forall|j: int| 0 <= j < spec_leading_ws(s) ==> spec_ascii_ws(#[trigger] s[j]),
        spec_leading_ws(s) < s.len() ==> !spec_ascii_ws(s[spec_leading_ws(s)]),
    decreases s.len(),
{
    if s.len() > 0 && spec_ascii_ws(s[0]) {
        lemma_leading_ws_bounds(s.drop_first());
        assert forall|j: int| 0 <= j < spec_leading_ws(s) implies spec_ascii_ws(#[trigger] s[j]) by {
            if j > 0 {
                assert(s[j] == s.drop_first()[j - 1]);
            }
        }
    }
}

pub proof fn lemma_trailing_ws_bounds(s: Seq<u8>)
    ensures
        0 <= spec_trailing_ws(s) <= s.len(),
        forall|j: int|
            s.len() - spec_trailing_ws(s) <= j < s.len() ==> spec_ascii_ws(#[trigger] s[j]),
        spec_trailing_ws(s) < s.len() ==> !spec_ascii_ws(s[s.len() - 1 - spec_trailing_ws(s)]),
    decreases s.len(),
{
    if s.len() > 0 && spec_ascii_ws(s.last()) {
        lemma_trailing_ws_bounds(s.drop_last());
        assert forall|j: int|
            s.len() - spec_trailing_ws(s) <= j < s.len() implies spec_ascii_ws(#[trigger] s[j]) by {
            if j < s.len() - 1 {
                assert(s[j] == s.drop_last()[j]);
            }
        }
    }
}

/// The count of leading ASCII whitespace bytes at or after `from`.
pub fn skip_ws(s: &[u8], from: usize) -> (r: usize)
    requires
        from <= s@.len(),
    ensures
        r == from + spec_leading_ws(s@.subrange(from as int, s@.len() as int)),
        from <= r <= s@.len(),
{
    let mut i = from;
    while i < s.len() && is_ascii_ws(s[i])
        invariant
            from <= i <= s@.len(),
            spec_leading_ws(s@.subrange(from as int, s@.len() as int)) == (i - from) + spec_leading_ws(
                s@.subrange(i as int, s@.len() as int),
            ),
        decreases s@.len() - i,
    {
        assert(s@.subrange(i as int, s@.len() as int).drop_first() =~= s@.subrange(
            i + 1,
            s@.len() as int,
        ));
        i = i + 1;
    }
    proof {
        lemma_leading_ws_bounds(s@.subrange(i as int, s@.len() as int));
    }
    i
}

/// `s` with leading ASCII whitespace removed.
pub fn trim_start(s: &[u8]) -> (r: &[u8])
    ensures
        r@ == spec_trim_start(s@),
{
    let i = skip_ws(s, 0);
    assert(s@.subrange(0, s@.len() as int) =~= s@);
    &s[i..s.len()]
}

/// `s` with trailing ASCII whitespace removed.
pub fn trim_end(s: &[u8]) -> (r: &[u8])
    ensures
        r@ == spec_trim_end(s@),
{
    let mut n = s.len();
    assert(s@.subrange(0, n as int) =~= s@);
    while n > 0 && is_ascii_ws(s[n - 1])
        invariant
            0 <= n <= s@.len(),
            spec_trailing_ws(s@) == (s@.len() - n) + spec_trailing_ws(s@.subrange(0, n as int)),
        decreases n,
    {
        assert(s@.subrange(0, n as int).drop_last() =~= s@.subrange(0, n - 1));
        n = n - 1;
    }
    proof {
        lemma_trailing_ws_bounds(s@.subrange(0, n as int));
        assert(s@.subrange(0, s@.len() as int) =~= s@);
    }
    &s[0..n]
}

/// `s` with ASCII whitespace removed at both ends.
pub fn trim(s: &[u8]) -> (r: &[u8])
    ensures
        r@ == spec_trim(s@),
{
    trim_end(trim_start(s))
}

/// The index of the first byte equal to `b`.
pub open spec fn spec_first_index(s: Seq<u8>, b: u8) -> Option<int> {
    if exists|i: int| 0 <= i < s.len() && s[i] == b {
        Some(choose|i: int| 0 <= i < s.len() && s[i] == b && forall|k: int| 0 <= k < i ==> s[k] != b)
    } else {
        None
    }
}

pub fn first_index(s: &[u8], b: u8) -> (r: Option<usize>)
    ensures
        r matches Some(i) ==> Some(i as int) == spec_first_index(s@, b) && i < s@.len() && s@[i as int] == b
            && forall|k: int| 0 <= k < i ==> s@[k] != b,
        r is None <==> spec_first_index(s@, b) is None,
        r is None ==> forall|k: int| 0 <= k < s@.len() ==> s@[k] != b,
{
    let mut i: usize = 0;
    while i < s.len()
        invariant
            0 <= i <= s@.len(),
            forall|k: int| 0 <= k < i ==> s@[k] != b,
        decreases s@.len() - i,
    {
        if s[i] == b {
            let ghost c = choose|j: int|
                0 <= j < s@.len() && s@[j] == b && forall|k: int| 0 <= k < j ==> s@[k] != b;
            assert(0 <= i < s@.len() && s@[i as int] == b && forall|k: int| 0 <= k < i ==> s@[k] != b);
            assert(c == i as int) by {
                if c < i {
                } else if c > i {
                }
            }
            return Some(i);
        }
        i = i + 1;
    }
    None
}

/// The index of the last byte equal to `b`.
pub open spec fn spec_last_index(s: Seq<u8>, b: u8) -> Option<int> {
    if exists|i: int| 0 <= i < s.len() && s[i] == b {
        Some(choose|i: int| 0 <= i < s.len() && s[i] == b && forall|k: int| i < k < s.len() ==> s[k] != b)
    } else {
        None
    }
}

pub fn last_index(s: &[u8], b: u8) -> (r: Option<usize>)
    ensures
        r matches Some(i) ==> Some(i as int) == spec_last_index(s@, b) && i < s@.len() && s@[i as int] == b
            && forall|k: int| i < k < s@.len() ==> s@[k] != b,
        r is None <==> spec_last_index(s@, b) is None,
        r is None ==> forall|k: int| 0 <= k < s@.len() ==> s@[k] != b,
{
    let mut n: usize = s.len();
    while n > 0
        invariant
            0 <= n <= s@.len(),
            forall|k: int| n <= k < s@.len() ==> s@[k] != b,
        decreases n,
    {
        if s[n - 1] == b {
            let i = n - 1;
            let ghost c = choose|j: int|
                0 <= j < s@.len() && s@[j] == b && forall|k: int| j < k < s@.len() ==> s@[k] != b;
            assert(0 <= i < s@.len() && s@[i as int] == b && forall|k: int| i < k < s@.len() ==> s@[k] != b);
            assert(c == i as int) by {
                if c < i {
                } else if c > i {
                }
            }
            return Some(i);
        }
        n = n - 1;
    }
    None
}

/// Whether two strings hold the same characters.
pub fn str_equal(a: &str, b: &str) -> (r: bool)
    ensures
        r == (a@ == b@),
{
    let r = bytes_equal(a.as_bytes(), b.as_bytes());
    proof {
        vstd::utf8::encode_utf8_decode_utf8(a@);
        vstd::utf8::encode_utf8_decode_utf8(b@);
    }
    r
}

} // verus!
