use vstd::prelude::*;
use crate::util::{
    find_bytes, is_alnum, is_alpha, is_ascii_ws, is_digit, is_hex, spec_alnum, spec_alpha,
    spec_ascii_ws, spec_digit, spec_find, spec_hex, spec_occurs_at, spec_starts_with, starts_with,
};

verus! {

/// The byte classes that the normalizers scan runs of.
#[derive(Debug, Clone, Copy, PartialEq, Eq, Structural)]
pub enum ByteClass {
    /// Letters, digits and `._$`: the bytes of an intent action.
    Action,
    /// Letters, digits and `._$/:-`: the bytes of a component name.
    Component,
    /// ASCII digits.
    Digit,
    /// ASCII hexadecimal digits.
    HexDigit,
    /// Anything but ASCII whitespace.
    NonSpace,
    /// Anything but ASCII whitespace and `:`.
    ClassName,
    /// The digit `0`.
    Zero,
}

impl ByteClass {
    pub open spec fn accepts(self, b: u8) -> bool {
        match self {
            ByteClass::Action => spec_alnum(b) || b == 0x2Eu8 || b == 0x5Fu8 || b == 0x24u8,
            ByteClass::Component => spec_alnum(b) || b == 0x2Eu8 || b == 0x5Fu8 || b == 0x24u8 || b
                == 0x2Fu8 || b == 0x3Au8 || b == 0x2Du8,
            ByteClass::Digit => spec_digit(b),
            ByteClass::HexDigit => spec_hex(b),
            ByteClass::NonSpace => !spec_ascii_ws(b),
            ByteClass::ClassName => !spec_ascii_ws(b) && b != 0x3Au8,
            ByteClass::Zero => b == 0x30u8,
        }
    }

    pub fn test(self, b: u8) -> (r: bool)
        ensures
            r == self.accepts(b),
    {
        match self {
            ByteClass::Action => is_alnum(b) || b == 0x2Eu8 || b == 0x5Fu8 || b == 0x24u8,
            ByteClass::Component => is_alnum(b) || b == 0x2Eu8 || b == 0x5Fu8 || b == 0x24u8 || b == 0x2Fu8
                || b == 0x3Au8 || b == 0x2Du8,
            ByteClass::Digit => is_digit(b),
            ByteClass::HexDigit => is_hex(b),
            ByteClass::NonSpace => !is_ascii_ws(b),
            ByteClass::ClassName => !is_ascii_ws(b) && b != 0x3Au8,
            ByteClass::Zero => b == 0x30u8,
        }
    }
}

/// The length of the longest prefix of `v` whose bytes all belong to `c`.
pub open spec fn spec_span(v: Seq<u8>, c: ByteClass) -> int
    decreases v.len(),
{
    if v.len() > 0 && c.accepts(v[0]) {
        1 + spec_span(v.drop_first(), c)
    } else {
        0
    }
}

pub proof fn lemma_span_bounds(v: Seq<u8>, c: ByteClass)
    ensures
        0 <= spec_span(v, c) <= v.len(),
        forall|j: int| 0 <= j < spec_span(v, c) ==> c.accepts(#[trigger] v[j]),
        spec_span(v, c) < v.len() ==> !c.accepts(v[spec_span(v, c)]),
    decreases v.len(),
{
    if v.len() > 0 && c.accepts(v[0]) {
        lemma_span_bounds(v.drop_first(), c);
        assert forall|j: int| 0 <= j < spec_span(v, c) implies c.accepts(#[trigger] v[j]) by {
            if j > 0 {
                assert(v[j] == v.drop_first()[j - 1]);
            }
        }
    }
}

/// A prefix whose bytes all belong to `c` and whose end is `v`'s end or a byte outside `c`
/// has the length of the span.
pub proof fn lemma_span_unique(v: Seq<u8>, c: ByteClass, n: int)
    requires
        0 <= n <= v.len(),
        forall|j: int| 0 <= j < n ==> c.accepts(#[trigger] v[j]),
        n < v.len() ==> !c.accepts(v[n]),
    ensures
        spec_span(v, c) == n,
    decreases v.len(),
{
    if n > 0 {
        assert(c.accepts(v[0]));
        assert forall|j: int| 0 <= j < n - 1 implies c.accepts(#[trigger] v.drop_first()[j]) by {
            assert(v.drop_first()[j] == v[j + 1]);
        }
        if n - 1 < v.len() - 1 {
            assert(v.drop_first()[n - 1] == v[n]);
        }
        lemma_span_unique(v.drop_first(), c, n - 1);
    }
}

/// The longest prefix of `v` whose bytes all belong to `c`.
pub fn take_while(v: &[u8], c: ByteClass) -> (r: &[u8])
    ensures
        r@ == v@.subrange(0, spec_span(v@, c)),
{
    let mut i: usize = 0;
    while i < v.len() && c.test(v[i])
        invariant
            0 <= i <= v@.len(),
            forall|j: int| 0 <= j < i ==> c.accepts(#[trigger] v@[j]),
        decreases v@.len() - i,
    {
        i = i + 1;
    }
    proof {
        lemma_span_unique(v@, c, i as int);
    }
    &v[0..i]
}

/// Whether `v` begins with `p` and the byte after it, if any, is not a word byte.
pub open spec fn spec_has_prefix_boundary(v: Seq<u8>, p: Seq<u8>) -> bool {
    spec_starts_with(v, p) && (v.len() == p.len() || !(spec_alnum(v[p.len() as int]) || v[p.len() as int]
        == 0x5Fu8))
}

pub fn has_prefix_boundary(v: &[u8], p: &[u8]) -> (r: bool)
    ensures
        r == spec_has_prefix_boundary(v@, p@),
{
    if !starts_with(v, p) {
        return false;
    }
    if v.len() == p.len() {
        return true;
    }
    let b = v[p.len()];
    !(is_alnum(b) || b == 0x5Fu8)
}

/// Whether a field may start at `p`: at the start, or after whitespace or one of `{,;:`.
pub open spec fn spec_field_boundary(h: Seq<u8>, p: int) -> bool {
    p == 0 || spec_ascii_ws(h[p - 1]) || h[p - 1] == 0x7Bu8 || h[p - 1] == 0x2Cu8 || h[p - 1] == 0x3Bu8
        || h[p - 1] == 0x3Au8
}

pub fn is_field_boundary(h: &[u8], p: usize) -> (r: bool)
    requires
        p <= h@.len(),
    ensures
        r == spec_field_boundary(h@, p as int),
{
    if p == 0 {
        return true;
    }
    let b = h[p - 1];
    is_ascii_ws(b) || b == 0x7Bu8 || b == 0x2Cu8 || b == 0x3Bu8 || b == 0x3Au8
}

/// `f` occurs at `p` as a field.
pub open spec fn spec_field_at(h: Seq<u8>, f: Seq<u8>, p: int) -> bool {
    spec_occurs_at(h, f, p) && spec_field_boundary(h, p)
}

/// The first position at which `f` occurs as a field.
#[verifier::opaque]
pub open spec fn spec_find_field(h: Seq<u8>, f: Seq<u8>) -> Option<int> {
    if exists|p: int| #[trigger] spec_field_at(h, f, p) {
        Some(
            choose|p: int|
                #[trigger] spec_field_at(h, f, p) && forall|k: int|
                    0 <= k < p ==> !spec_field_at(h, f, k),
        )
    } else {
        None
    }
}

/// A field occurrence with none before it is the first.
pub proof fn lemma_find_field_at(h: Seq<u8>, f: Seq<u8>, p: int)
    requires
        spec_field_at(h, f, p),
        forall|k: int| 0 <= k < p ==> !spec_field_at(h, f, k),
    ensures
        spec_find_field(h, f) == Some(p),
{
    reveal(spec_find_field);
    let c = choose|q: int|
        #[trigger] spec_field_at(h, f, q) && forall|k: int| 0 <= k < q ==> !spec_field_at(h, f, k);
    assert(c == p) by {
        if c < p {
        } else if c > p {
        }
    }
}

/// Without any field occurrence there is no first one.
pub proof fn lemma_find_field_none(h: Seq<u8>, f: Seq<u8>)
    requires
        forall|k: int| !spec_field_at(h, f, k),
    ensures
        spec_find_field(h, f) is None,
{
    reveal(spec_find_field);
}

/// An occurrence in a suffix is an occurrence in the whole.
pub proof fn lemma_occurs_in_suffix(h: Seq<u8>, f: Seq<u8>, ss: int, k: int)
    requires
        0 <= ss <= k,
        ss <= h.len(),
    ensures
        spec_occurs_at(h.subrange(ss, h.len() as int), f, k - ss) == spec_occurs_at(h, f, k),
{
    if k + f.len() <= h.len() {
        assert(h.subrange(ss, h.len() as int).subrange(k - ss, k - ss + f.len()) =~= h.subrange(
            k,
            k + f.len(),
        ));
    }
}

/// The field search after finding nothing from `ss` on.
proof fn lemma_field_search_none(h: Seq<u8>, f: Seq<u8>, ss: int)
    requires
        0 <= ss <= h.len(),
        forall|k: int| 0 <= k < ss ==> !spec_field_at(h, f, k),
        forall|a: int| !spec_occurs_at(h.subrange(ss, h.len() as int), f, a),
    ensures
        spec_find_field(h, f) is None,
{
    assert forall|p: int| !spec_field_at(h, f, p) by {
        if p >= ss {
            lemma_occurs_in_suffix(h, f, ss, p);
        }
    }
    lemma_find_field_none(h, f);
}

/// The field search after finding the first occurrence at or after `ss` at `ss + rel`.
proof fn lemma_field_search_found(h: Seq<u8>, f: Seq<u8>, ss: int, rel: int)
    requires
        0 <= ss <= h.len(),
        0 <= rel,
        forall|k: int| 0 <= k < ss ==> !spec_field_at(h, f, k),
        spec_occurs_at(h.subrange(ss, h.len() as int), f, rel),
        forall|a: int| 0 <= a < rel ==> !spec_occurs_at(h.subrange(ss, h.len() as int), f, a),
    ensures
        spec_occurs_at(h, f, ss + rel),
        forall|k: int| 0 <= k < ss + rel ==> !spec_field_at(h, f, k),
{
    lemma_occurs_in_suffix(h, f, ss, ss + rel);
    assert forall|k: int| 0 <= k < ss + rel implies !spec_field_at(h, f, k) by {
        if k >= ss {
            lemma_occurs_in_suffix(h, f, ss, k);
        }
    }
}

pub fn find_field(h: &[u8], f: &[u8]) -> (r: Option<usize>)
    ensures
        r matches Some(p) ==> Some(p as int) == spec_find_field(h@, f@) && spec_field_at(h@, f@, p as int),
        r is None <==> spec_find_field(h@, f@) is None,
{
    if f.len() == 0 {
        proof {
            assert(h@.subrange(0, 0) =~= f@);
            lemma_find_field_at(h@, f@, 0);
        }
        return Some(0);
    }
    let mut ss: usize = 0;
    loop
        invariant
            f@.len() > 0,
            0 <= ss <= h@.len(),
            forall|k: int| 0 <= k < ss ==> !spec_field_at(h@, f@, k),
        decreases h@.len() - ss,
    {
        let rest = &h[ss..h.len()];
        let found = find_bytes(rest, f);
        match found {
            None => {
                proof {
                    lemma_field_search_none(h@, f@, ss as int);
                }
                return None;
            },
            Some(rel) => {
                proof {
                    lemma_field_search_found(h@, f@, ss as int, rel as int);
                }
                let pos = ss + rel;
                if is_field_boundary(h, pos) {
                    proof {
                        lemma_find_field_at(h@, f@, pos as int);
                    }
                    return Some(pos);
                }
                ss = pos + 1;
            },
        }
    }
}

/// Whether `f` occurs as a field and the first such occurrence ends at the end, at
/// whitespace, or at one of `,;)`.
pub open spec fn spec_contains_field_value(h: Seq<u8>, f: Seq<u8>) -> bool {
    match spec_find_field(h, f) {
        None => false,
        Some(p) => {
            let e = p + f.len();
            e >= h.len() || spec_ascii_ws(h[e]) || h[e] == 0x2Cu8 || h[e] == 0x3Bu8 || h[e] == 0x29u8
        },
    }
}

pub fn contains_field_value(h: &[u8], f: &[u8]) -> (r: bool)
    ensures
        r == spec_contains_field_value(h@, f@),
{
    match find_field(h, f) {
        None => false,
        Some(p) => {
            assert(spec_occurs_at(h@, f@, p as int));
            let fl = f.len();
            assert(p + fl <= h.len());
            let e = p + fl;
            if e >= h.len() {
                true
            } else {
                let b = h[e];
                is_ascii_ws(b) || b == 0x2Cu8 || b == 0x3Bu8 || b == 0x29u8
            }
        },
    }
}

/// A byte that may start a Java identifier.
pub open spec fn spec_ident_start(b: u8) -> bool {
    spec_alpha(b) || b == 0x5Fu8 || b == 0x24u8
}

/// A byte that may continue a Java identifier.
pub open spec fn spec_ident_part(b: u8) -> bool {
    spec_alnum(b) || b == 0x5Fu8 || b == 0x24u8
}

/// No dot of `v` before `n` starts `v` or follows another dot.
pub open spec fn spec_dots_ok(v: Seq<u8>, n: int) -> bool {
    &&& (0 < n ==> v[0] != 0x2Eu8)
    &&& forall|i: int, j: int|
        #![trigger v[i], v[j]]
        0 <= i && j == i + 1 && j < n && v[i] == 0x2Eu8 ==> v[j] != 0x2Eu8
}

/// Every byte of `v` before `n` that is not a dot may continue an identifier, and one that
/// starts a segment may start an identifier.
pub open spec fn spec_idents_ok(v: Seq<u8>, n: int) -> bool {
    &&& forall|i: int| 0 <= i < n && v[i] != 0x2Eu8 ==> spec_ident_part(#[trigger] v[i])
    &&& (0 < n && v[0] != 0x2Eu8 ==> spec_ident_start(v[0]))
    &&& forall|i: int, j: int|
        #![trigger v[i], v[j]]
        0 <= i && j == i + 1 && j < n && v[i] == 0x2Eu8 && v[j] != 0x2Eu8 ==> spec_ident_start(v[j])
}

/// `v` has a dot before `n`.
pub open spec fn spec_has_dot(v: Seq<u8>, n: int) -> bool {
    exists|i: int| 0 <= i < n && #[trigger] v[i] == 0x2Eu8
}

/// A dotted Java class name: two or more identifiers separated by single dots.
pub open spec fn spec_java_class(v: Seq<u8>) -> bool {
    &&& v.len() > 0
    &&& v.last() != 0x2Eu8
    &&& spec_has_dot(v, v.len() as int)
    &&& spec_dots_ok(v, v.len() as int)
    &&& spec_idents_ok(v, v.len() as int)
}

proof fn lemma_class_step(v: Seq<u8>, i: int)
    requires
        0 <= i < v.len(),
        spec_dots_ok(v, i),
        spec_idents_ok(v, i),
        v[i] == 0x2Eu8 ==> i > 0 && v[i - 1] != 0x2Eu8,
        v[i] != 0x2Eu8 ==> spec_ident_part(v[i]),
        v[i] != 0x2Eu8 && (i == 0 || v[i - 1] == 0x2Eu8) ==> spec_ident_start(v[i]),
    ensures
        spec_dots_ok(v, i + 1),
        spec_idents_ok(v, i + 1),
        spec_has_dot(v, i + 1) == (spec_has_dot(v, i) || v[i] == 0x2Eu8),
{
    if v[i] == 0x2Eu8 {
        assert(spec_has_dot(v, i + 1));
    }
    if spec_has_dot(v, i + 1) && v[i] != 0x2Eu8 {
        let k = choose|k: int| 0 <= k < i + 1 && #[trigger] v[k] == 0x2Eu8;
        assert(spec_has_dot(v, i)) by {
            assert(0 <= k < i && v[k] == 0x2Eu8);
        }
    }
}

/// A failure of the conditions at `i` is a failure of the whole.
proof fn lemma_class_fail(v: Seq<u8>, i: int)
    requires
        0 <= i < v.len(),
        !(v[i] == 0x2Eu8 ==> i > 0 && v[i - 1] != 0x2Eu8) || !(v[i] != 0x2Eu8 ==> spec_ident_part(v[i]))
            || !(v[i] != 0x2Eu8 && (i == 0 || v[i - 1] == 0x2Eu8) ==> spec_ident_start(v[i])),
    ensures
        !spec_java_class(v),
{
    if i > 0 {
        let a = v[i - 1];
        let b = v[i];
    }
}

pub fn is_java_class(v: &[u8]) -> (r: bool)
    ensures
        r == spec_java_class(v@),
{
    let mut segment_start = true;
    let mut saw_separator = false;
    let mut i: usize = 0;
    while i < v.len()
        invariant
            0 <= i <= v@.len(),
            segment_start == (i == 0 || v@[i - 1] == 0x2Eu8),
            saw_separator == spec_has_dot(v@, i as int),
            spec_dots_ok(v@, i as int),
            spec_idents_ok(v@, i as int),
        decreases v@.len() - i,
    {
        let b = v[i];
        if b == 0x2Eu8 {
            if segment_start {
                proof {
                    lemma_class_fail(v@, i as int);
                }
                return false;
            }
            proof {
                lemma_class_step(v@, i as int);
            }
            segment_start = true;
            saw_separator = true;
        } else if segment_start {
            if !is_alpha(b) && b != 0x5Fu8 && b != 0x24u8 {
                proof {
                    lemma_class_fail(v@, i as int);
                }
                return false;
            }
            proof {
                lemma_class_step(v@, i as int);
            }
            segment_start = false;
        } else {
            if !is_alnum(b) && b != 0x5Fu8 && b != 0x24u8 {
                proof {
                    lemma_class_fail(v@, i as int);
                }
                return false;
            }
            proof {
                lemma_class_step(v@, i as int);
            }
        }
        i = i + 1;
    }
    saw_separator && !segment_start
}

/// A Java method name: a constructor marker or one identifier.
pub open spec fn spec_java_method(v: Seq<u8>) -> bool {
    v == seq![0x3Cu8, 0x69u8, 0x6Eu8, 0x69u8, 0x74u8, 0x3Eu8] || v == seq![
        0x3Cu8,
        0x63u8,
        0x6Cu8,
        0x69u8,
        0x6Eu8,
        0x69u8,
        0x74u8,
        0x3Eu8,
    ] || (v.len() > 0 && spec_ident_start(v[0]) && forall|i: int|
        1 <= i < v.len() ==> spec_ident_part(#[trigger] v[i]))
}

pub fn is_java_method(v: &[u8]) -> (r: bool)
    ensures
        r == spec_java_method(v@),
{
    let init: [u8; 6] = [0x3Cu8, 0x69u8, 0x6Eu8, 0x69u8, 0x74u8, 0x3Eu8];
    let clinit: [u8; 8] = [0x3Cu8, 0x63u8, 0x6Cu8, 0x69u8, 0x6Eu8, 0x69u8, 0x74u8, 0x3Eu8];
    if crate::util::bytes_equal(v, init.as_slice()) {
        assert(init@ =~= seq![0x3Cu8, 0x69u8, 0x6Eu8, 0x69u8, 0x74u8, 0x3Eu8]);
        return true;
    }
    if crate::util::bytes_equal(v, clinit.as_slice()) {
        assert(clinit@ =~= seq![0x3Cu8, 0x63u8, 0x6Cu8, 0x69u8, 0x6Eu8, 0x69u8, 0x74u8, 0x3Eu8]);
        return true;
    }
    assert(init@ =~= seq![0x3Cu8, 0x69u8, 0x6Eu8, 0x69u8, 0x74u8, 0x3Eu8]);
    assert(clinit@ =~= seq![0x3Cu8, 0x63u8, 0x6Cu8, 0x69u8, 0x6Eu8, 0x69u8, 0x74u8, 0x3Eu8]);
    if v.len() == 0 {
        return false;
    }
    let first = v[0];
    if !(is_alpha(first) || first == 0x5Fu8 || first == 0x24u8) {
        return false;
    }
    let mut i: usize = 1;
    while i < v.len()
        invariant
            1 <= i <= v@.len(),
            spec_ident_start(v@[0]),
            v@ != seq![0x3Cu8, 0x69u8, 0x6Eu8, 0x69u8, 0x74u8, 0x3Eu8],
            v@ != seq![0x3Cu8, 0x63u8, 0x6Cu8, 0x69u8, 0x6Eu8, 0x69u8, 0x74u8, 0x3Eu8],
            forall|k: int| 1 <= k < i ==> spec_ident_part(#[trigger] v@[k]),
        decreases v@.len() - i,
    {
        let b = v[i];
        if !(is_alnum(b) || b == 0x5Fu8 || b == 0x24u8) {
            assert(!spec_ident_part(v@[i as int]));
            return false;
        }
        i = i + 1;
    }
    true
}

} // verus!
