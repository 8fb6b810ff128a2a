use vstd::prelude::*;
use vstd::utf8::valid_utf8;
use vstd::string::StringSliceAdditionalSpecFns;
use crate::util::{
    spec_ends_with, spec_trim, spec_starts_with, text_bytes, trim, starts_with_text, ends_with_text,
    spec_lower, to_lower, last_index, first_index, spec_last_index,
};
use crate::problems::scan::{
    has_prefix_boundary as hpb,
    ByteClass, spec_span, take_while, lemma_span_bounds, spec_java_class, spec_java_method,
    is_java_class, is_java_method,
};

verus! {

pub const MAX_NORMALIZED_TOKEN_BYTES: usize = 256;

pub const MAX_NORMALIZATION_INPUT_BYTES: usize = 16 * 1024;

/// Whether `c` has no zero byte.
pub open spec fn spec_no_zero(c: Seq<u8>) -> bool {
    forall|i: int| 0 <= i < c.len() ==> #[trigger] c[i] != 0
}

/// Whether `c` fits a token buffer: no zero byte and at most the token size.
pub open spec fn spec_fits(c: Seq<u8>) -> bool {
    spec_no_zero(c) && c.len() <= MAX_NORMALIZED_TOKEN_BYTES
}

/// The token content `c` makes: `c` itself when it is non-empty, fits, and is UTF-8.
pub open spec fn spec_token(c: Seq<u8>) -> Option<Seq<u8>> {
    if 1 <= c.len() && spec_fits(c) && valid_utf8(c) {
        Some(c)
    } else {
        None
    }
}

/// `a` holds a token of `n` bytes: the content, then zero padding.
pub open spec fn spec_array_holds(a: Seq<u8>, n: int) -> bool {
    &&& a.len() == MAX_NORMALIZED_TOKEN_BYTES
    &&& 1 <= n <= MAX_NORMALIZED_TOKEN_BYTES
    &&& spec_no_zero(a.subrange(0, n))
    &&& forall|i: int| n <= i < MAX_NORMALIZED_TOKEN_BYTES ==> #[trigger] a[i] == 0
    &&& valid_utf8(a.subrange(0, n))
}

pub proof fn lemma_array_holds_unique(a: Seq<u8>, n: int, m: int)
    requires
        spec_array_holds(a, n),
        spec_array_holds(a, m),
    ensures
        n == m,
{
    if n < m {
        assert(a.subrange(0, m)[n] == a[n]);
    } else if m < n {
        assert(a.subrange(0, n)[m] == a[m]);
    }
}

/// `a` holds a token of some length.
pub open spec fn spec_token_array(a: Seq<u8>) -> bool {
    exists|n: int| spec_array_holds(a, n)
}

/// A content that stops short of a prefix that does not fit never makes a token.
pub proof fn lemma_unfit_prefix(p: Seq<u8>, rest: Seq<u8>)
    requires
        !spec_fits(p),
    ensures
        !spec_fits(p + rest),
        spec_token(p + rest) is None,
{
    if spec_no_zero(p) {
    } else {
        let i = choose|i: int| 0 <= i < p.len() && #[trigger] p[i] == 0;
        assert((p + rest)[i] == 0);
    }
}

/// Fixed-size fingerprint input. Normalizers return `None` instead of truncating,
/// so two distinct overlong identities cannot silently collapse into one token.
#[derive(Clone, Copy, PartialEq, Eq, Hash, Debug)]
pub struct NormalizedToken([u8; MAX_NORMALIZED_TOKEN_BYTES]);

impl NormalizedToken {
    #[verifier::type_invariant]
    closed spec fn wf(self) -> bool {
        spec_token_array(self.0@)
    }

    /// The number of content bytes.
    pub closed spec fn spec_len(self) -> int {
        choose|n: int| spec_array_holds(self.0@, n)
    }

    pub closed spec fn content(self) -> Seq<u8> {
        self.0@.subrange(0, self.spec_len())
    }

    proof fn lemma_content(self, n: int)
        requires
            spec_array_holds(self.0@, n),
        ensures
            self.spec_len() == n,
            self.content() == self.0@.subrange(0, n),
    {
        lemma_array_holds_unique(self.0@, n, self.spec_len());
    }

    /// The content bytes; a token's content is never empty, fits, and is UTF-8.
    pub fn as_bytes(&self) -> (r: &[u8])
        ensures
            r@ == self@,
            spec_token(self@) == Some(self@),
    {
        proof {
            use_type_invariant(self);
            let n = choose|n: int| spec_array_holds(self.0@, n);
            self.lemma_content(n);
        }
        let n = self.len();
        let s = self.0.as_slice();
        &s[0..n]
    }

    pub fn as_str(&self) -> (r: &str)
        ensures
            r.spec_bytes() == self@,
    {
        proof {
            use_type_invariant(self);
            let n = choose|n: int| spec_array_holds(self.0@, n);
            self.lemma_content(n);
        }
        let bytes = self.as_bytes();
        match utf8_str(bytes) {
            Some(s) => s,
            None => "",
        }
    }

    pub fn len(&self) -> (r: usize)
        ensures
            r == self@.len(),
    {
        proof {
            use_type_invariant(self);
            let n = choose|n: int| spec_array_holds(self.0@, n);
            self.lemma_content(n);
        }
        let ghost n = self.spec_len();
        let mut i: usize = 0;
        while i < MAX_NORMALIZED_TOKEN_BYTES && self.0[i] != 0
            invariant
                0 <= i <= n,
                spec_array_holds(self.0@, n),
            decreases MAX_NORMALIZED_TOKEN_BYTES - i,
        {
            proof {
                if i == n {
                    assert(self.0@[i as int] == 0);
                }
            }
            i = i + 1;
        }
        proof {
            if i < n {
                assert(self.0@.subrange(0, n)[i as int] == self.0@[i as int]);
            }
        }
        i
    }

    pub fn is_empty(&self) -> (r: bool)
        ensures
            r == (self@.len() == 0),
    {
        proof {
            use_type_invariant(self);
            let n = choose|n: int| spec_array_holds(self.0@, n);
            self.lemma_content(n);
            assert(self.0@.subrange(0, n)[0] == self.0@[0]);
        }
        self.0[0] == 0
    }

    /// The token holding `bytes`, when they are non-empty, fit, and are UTF-8.
    pub fn from_bytes(bytes: &[u8]) -> (r: Option<Self>)
        ensures
            spec_token_view(r) == spec_token(bytes@),
    {
        if bytes.len() == 0 || bytes.len() > MAX_NORMALIZED_TOKEN_BYTES {
            return None;
        }
        if first_index(bytes, 0).is_some() {
            return None;
        }
        if !utf8_is_valid(bytes) {
            return None;
        }
        let mut a = [0u8; MAX_NORMALIZED_TOKEN_BYTES];
        let mut i: usize = 0;
        while i < bytes.len()
            invariant
                0 <= i <= bytes@.len() <= MAX_NORMALIZED_TOKEN_BYTES,
                a@.len() == MAX_NORMALIZED_TOKEN_BYTES,
                forall|k: int| 0 <= k < i ==> a@[k] == bytes@[k],
                forall|k: int| i <= k < MAX_NORMALIZED_TOKEN_BYTES ==> a@[k] == 0,
            decreases bytes@.len() - i,
        {
            a[i] = bytes[i];
            i = i + 1;
        }
        proof {
            assert(a@.subrange(0, bytes@.len() as int) =~= bytes@);
            assert(spec_array_holds(a@, bytes@.len() as int));
            assert(spec_token_array(a@));
        }
        let t = NormalizedToken(a);
        proof {
            t.lemma_content(bytes@.len() as int);
        }
        Some(t)
    }
}

impl View for NormalizedToken {
    type V = Seq<u8>;

    closed spec fn view(&self) -> Seq<u8> {
        self.content()
    }
}

/// The content of an optional token.
pub open spec fn spec_token_view(t: Option<NormalizedToken>) -> Option<Seq<u8>> {
    match t {
        Some(t) => Some(t@),
        None => None,
    }
}

/// Reads `bytes` as UTF-8 text with `core::str::from_utf8`.
#[verifier::external_body]
pub(crate) fn utf8_str(bytes: &[u8]) -> (r: Option<&str>)
    ensures
        r is Some <==> valid_utf8(bytes@),
        r matches Some(s) ==> s.spec_bytes() == bytes@,
{
    match core::str::from_utf8(bytes) {
        Ok(s) => Some(s),
        Err(_) => None,
    }
}

/// Whether `bytes` are UTF-8.
fn utf8_is_valid(bytes: &[u8]) -> (r: bool)
    ensures
        r == valid_utf8(bytes@),
{
    utf8_str(bytes).is_some()
}

/// The input every normalizer accepts: at most the input limit, and UTF-8.
pub open spec fn spec_input_ok(input: Seq<u8>) -> bool {
    input.len() <= MAX_NORMALIZATION_INPUT_BYTES && valid_utf8(input)
}

fn validate_input(input: &[u8]) -> (r: bool)
    ensures
        r == spec_input_ok(input@),
{
    input.len() <= MAX_NORMALIZATION_INPUT_BYTES && utf8_is_valid(input)
}

/// `$` and a run of digits become `$*`; every other byte stays.
pub open spec fn spec_java_ident(v: Seq<u8>) -> Seq<u8>
    decreases v.len(),
{
    if v.len() == 0 {
        seq![]
    } else if v[0] == 0x24u8 && v.len() > 1 && crate::util::spec_digit(v[1]) {
        let n = spec_span(v.subrange(1, v.len() as int), ByteClass::Digit);
        proof {
            lemma_span_bounds(v.subrange(1, v.len() as int), ByteClass::Digit);
        }
        text_bytes("$*") + spec_java_ident(v.subrange(1 + n, v.len() as int))
    } else {
        seq![v[0]] + spec_java_ident(v.subrange(1, v.len() as int))
    }
}

/// Each byte lowered to ASCII lower case.
pub open spec fn spec_lowercase(v: Seq<u8>) -> Seq<u8> {
    Seq::new(v.len(), |i: int| spec_lower(v[i]))
}

struct TokenWriter {
    bytes: [u8; MAX_NORMALIZED_TOKEN_BYTES],
    len: usize,
}

impl TokenWriter {
    spec fn wf(&self) -> bool {
        &&& self.bytes@.len() == MAX_NORMALIZED_TOKEN_BYTES
        &&& self.len <= MAX_NORMALIZED_TOKEN_BYTES
        &&& spec_no_zero(self.bytes@.subrange(0, self.len as int))
        &&& forall|i: int| self.len <= i < MAX_NORMALIZED_TOKEN_BYTES ==> #[trigger] self.bytes@[i] == 0
    }

    spec fn written(&self) -> Seq<u8> {
        self.bytes@.subrange(0, self.len as int)
    }

    fn new() -> (r: Self)
        ensures
            r.wf(),
            r.written() == Seq::<u8>::empty(),
    {
        let w = TokenWriter { bytes: [0u8; MAX_NORMALIZED_TOKEN_BYTES], len: 0 };
        assert(w.written() =~= Seq::<u8>::empty());
        w
    }

    fn push_byte(&mut self, b: u8) -> (r: Option<()>)
        requires
            old(self).wf(),
        ensures
            final(self).wf(),
            r is Some ==> final(self).written() == old(self).written().push(b),
            r is None <==> !spec_fits(old(self).written().push(b)),
    {
        if b == 0 {
            assert(old(self).written().push(b)[old(self).len as int] == 0);
            return None;
        }
        if self.len >= MAX_NORMALIZED_TOKEN_BYTES {
            return None;
        }
        let ghost before = self.written();
        self.bytes[self.len] = b;
        self.len = self.len + 1;
        assert(self.written() =~= before.push(b));
        Some(())
    }

    fn push(&mut self, value: &[u8]) -> (r: Option<()>)
        requires
            old(self).wf(),
        ensures
            final(self).wf(),
            r is Some ==> final(self).written() == old(self).written() + value@,
            r is None <==> !spec_fits(old(self).written() + value@),
    {
        let ghost before = self.written();
        if first_index(value, 0).is_some() {
            proof {
                let i = choose|i: int| 0 <= i < value@.len() && value@[i] == 0;
                assert((before + value@)[before.len() + i] == 0);
            }
            return None;
        }
        if value.len() > MAX_NORMALIZED_TOKEN_BYTES - self.len {
            return None;
        }
        let mut i: usize = 0;
        while i < value.len()
            invariant
                self.wf(),
                0 <= i <= value@.len(),
                self.len == before.len() + i,
                before.len() + value@.len() <= MAX_NORMALIZED_TOKEN_BYTES,
                forall|k: int| 0 <= k < value@.len() ==> value@[k] != 0,
                self.written() == before + value@.subrange(0, i as int),
            decreases value@.len() - i,
        {
            let ghost w = self.written();
            let b = value[i];
            self.bytes[self.len] = b;
            self.len = self.len + 1;
            assert(self.written() =~= w.push(b));
            assert(value@.subrange(0, i + 1) =~= value@.subrange(0, i as int).push(b));
            i = i + 1;
        }
        assert(value@.subrange(0, value@.len() as int) =~= value@);
        Some(())
    }

    fn push_java_identifier(&mut self, value: &[u8]) -> (r: Option<()>)
        requires
            old(self).wf(),
        ensures
            final(self).wf(),
            r is Some ==> final(self).written() == old(self).written() + spec_java_ident(value@),
            r is None ==> !spec_fits(old(self).written() + spec_java_ident(value@)),
    {
        let ghost total = self.written() + spec_java_ident(value@);
        let mut cursor: usize = 0;
        assert(value@.subrange(0, value@.len() as int) =~= value@);
        while cursor < value.len()
            invariant
                self.wf(),
                0 <= cursor <= value@.len(),
                total == self.written() + spec_java_ident(value@.subrange(cursor as int, value@.len() as int)),
                total == old(self).written() + spec_java_ident(value@),
            decreases value@.len() - cursor,
        {
            let ghost rest = value@.subrange(cursor as int, value@.len() as int);
            let ghost w = self.written();
            if value[cursor] == 0x24u8 && cursor + 1 < value.len() && crate::util::is_digit(value[cursor + 1]) {
                proof {
                    lemma_span_bounds(rest.subrange(1, rest.len() as int), ByteClass::Digit);
                }
                let pushed = self.push("$*".as_bytes());
                if pushed.is_none() {
                    proof {
                        lemma_unfit_prefix(w + text_bytes("$*"), spec_java_ident(rest.subrange(1 + spec_span(rest.subrange(1, rest.len() as int), ByteClass::Digit), rest.len() as int)));
                        assert(total =~= (w + text_bytes("$*")) + spec_java_ident(rest.subrange(1 + spec_span(rest.subrange(1, rest.len() as int), ByteClass::Digit), rest.len() as int)));
                        assert(!spec_fits(total));
                    }
                    return None;
                }
                let digits = take_while(&value[cursor + 1..value.len()], ByteClass::Digit);
                proof {
                    assert(value@.subrange(cursor + 1, value@.len() as int) =~= rest.subrange(1, rest.len() as int));
                    lemma_span_bounds(rest.subrange(1, rest.len() as int), ByteClass::Digit);
                }
                let ghost n: int = digits@.len() as int;
                cursor = cursor + 1 + digits.len();
                proof {
                    assert(value@.subrange(cursor as int, value@.len() as int) =~= rest.subrange(1 + n, rest.len() as int));
                    assert(total =~= self.written() + spec_java_ident(value@.subrange(cursor as int, value@.len() as int)));
                }
            } else {
                let pushed = self.push(&value[cursor..cursor + 1]);
                if pushed.is_none() {
                    proof {
                        assert(value@.subrange(cursor as int, cursor + 1) =~= seq![rest[0]]);
                        lemma_unfit_prefix(w + seq![rest[0]], spec_java_ident(rest.subrange(1, rest.len() as int)));
                        assert(total =~= (w + seq![rest[0]]) + spec_java_ident(rest.subrange(1, rest.len() as int)));
                    }
                    return None;
                }
                proof {
                    assert(value@.subrange(cursor as int, cursor + 1) =~= seq![rest[0]]);
                    assert(value@.subrange(cursor + 1, value@.len() as int) =~= rest.subrange(1, rest.len() as int));
                }
                cursor = cursor + 1;
                proof {
                    assert(total =~= self.written() + spec_java_ident(value@.subrange(cursor as int, value@.len() as int)));
                }
            }
        }
        proof {
            assert(value@.subrange(cursor as int, value@.len() as int) =~= Seq::<u8>::empty());
            assert(total =~= self.written());
        }
        Some(())
    }

    fn push_ascii_lowercase(&mut self, value: &[u8]) -> (r: Option<()>)
        requires
            old(self).wf(),
        ensures
            final(self).wf(),
            r is Some ==> final(self).written() == old(self).written() + spec_lowercase(value@),
            r is None ==> !spec_fits(old(self).written() + spec_lowercase(value@)),
    {
        let ghost before = self.written();
        let mut i: usize = 0;
        while i < value.len()
            invariant
                self.wf(),
                0 <= i <= value@.len(),
                self.written() == before + spec_lowercase(value@.subrange(0, i as int)),
                before == old(self).written(),
            decreases value@.len() - i,
        {
            let ghost w = self.written();
            let lower = to_lower(value[i]);
            let pushed = self.push_byte(lower);
            proof {
                assert(spec_lowercase(value@.subrange(0, i + 1)) =~= spec_lowercase(value@.subrange(0, i as int)).push(lower));
                assert(spec_lowercase(value@) =~= spec_lowercase(value@.subrange(0, i + 1)) + spec_lowercase(value@.subrange(i + 1, value@.len() as int)));
            }
            if pushed.is_none() {
                proof {
                    lemma_unfit_prefix(w.push(lower), spec_lowercase(value@.subrange(i + 1, value@.len() as int)));
                    assert(before + spec_lowercase(value@) =~= w.push(lower) + spec_lowercase(value@.subrange(i + 1, value@.len() as int)));
                }
                return None;
            }
            i = i + 1;
        }
        assert(value@.subrange(0, value@.len() as int) =~= value@);
        Some(())
    }

    fn finish(self) -> (r: Option<NormalizedToken>)
        requires
            self.wf(),
        ensures
            spec_token_view(r) == spec_token(self.written()),
    {
        if self.len == 0 {
            return None;
        }
        let s = self.bytes.as_slice();
        if !utf8_is_valid(&s[0..self.len]) {
            return None;
        }
        proof {
            assert(s@.subrange(0, self.len as int) =~= self.bytes@.subrange(0, self.len as int));
            assert(spec_array_holds(self.bytes@, self.len as int));
            assert(spec_token_array(self.bytes@));
        }
        let t = NormalizedToken(self.bytes);
        proof {
            t.lemma_content(self.len as int);
        }
        Some(t)
    }
}

/// A leading `Caused by:` or `Suppressed:` marker removed, and the rest trimmed.
pub open spec fn spec_strip_cause(v: Seq<u8>) -> Seq<u8> {
    if spec_starts_with(v, text_bytes("Caused by:")) {
        spec_trim(v.subrange(text_bytes("Caused by:").len() as int, v.len() as int))
    } else if spec_starts_with(v, text_bytes("Suppressed:")) {
        spec_trim(v.subrange(text_bytes("Suppressed:").len() as int, v.len() as int))
    } else {
        v
    }
}

/// A class name that names a throwable.
pub open spec fn spec_throwable_suffix(c: Seq<u8>) -> bool {
    spec_ends_with(c, text_bytes("Exception")) || spec_ends_with(c, text_bytes("Error"))
        || spec_ends_with(c, text_bytes("Throwable"))
}

/// The throwable class named at the start of a Java exception line.
pub open spec fn spec_normalize_java_throwable(input: Seq<u8>) -> Option<Seq<u8>> {
    if !spec_input_ok(input) {
        None
    } else {
        let value = spec_strip_cause(spec_trim(input));
        let class = value.subrange(0, spec_span(value, ByteClass::ClassName));
        if spec_java_class(class) && spec_throwable_suffix(class) {
            spec_token(class)
        } else {
            None
        }
    }
}

pub fn normalize_java_throwable(input: &[u8]) -> (r: Option<NormalizedToken>)
    ensures
        spec_token_view(r) == spec_normalize_java_throwable(input@),
{
    if !validate_input(input) {
        return None;
    }
    let mut value = trim(input);
    if starts_with_text(value, "Caused by:") {
        value = trim(&value["Caused by:".as_bytes().len()..value.len()]);
    } else if starts_with_text(value, "Suppressed:") {
        value = trim(&value["Suppressed:".as_bytes().len()..value.len()]);
    }
    let class = take_while(value, ByteClass::ClassName);
    if !is_java_class(class) || !(ends_with_text(class, "Exception") || ends_with_text(class, "Error")
        || ends_with_text(class, "Throwable")) {
        return None;
    }
    NormalizedToken::from_bytes(class)
}

/// The class and method of a Java stack frame line `at class.method(...)`.
pub open spec fn spec_java_frame_parts(input: Seq<u8>) -> Option<(Seq<u8>, Seq<u8>)> {
    let t = spec_trim(input);
    if !spec_starts_with(t, text_bytes("at ")) {
        None
    } else {
        let value = t.subrange(text_bytes("at ").len() as int, t.len() as int);
        match crate::util::spec_first_index(value, 0x28u8) {
            None => None,
            Some(open) => {
                let q = spec_trim(value.subrange(0, open));
                match spec_last_index(q, 0x2Eu8) {
                    None => None,
                    Some(sep) => Some((q.subrange(0, sep), q.subrange(sep + 1, q.len() as int))),
                }
            },
        }
    }
}

/// A Java frame as `class#method`, with synthetic `$<digits>` ordinals collapsed to `$*`.
pub open spec fn spec_normalize_java_frame(input: Seq<u8>) -> Option<Seq<u8>> {
    if !spec_input_ok(input) {
        None
    } else {
        match spec_java_frame_parts(input) {
            None => None,
            Some((class, method)) => if spec_java_class(class) && spec_java_method(method) {
                spec_token(spec_java_ident(class) + text_bytes("#") + spec_java_ident(method))
            } else {
                None
            },
        }
    }
}

fn java_frame_parts(input: &[u8]) -> (r: Option<(&[u8], &[u8])>)
    ensures
        match r {
            Some((c, m)) => spec_java_frame_parts(input@) == Some((c@, m@)),
            None => spec_java_frame_parts(input@) is None,
        },
{
    let t = trim(input);
    if !starts_with_text(t, "at ") {
        return None;
    }
    let value = &t["at ".as_bytes().len()..t.len()];
    let open = match first_index(value, 0x28u8) {
        Some(i) => i,
        None => return None,
    };
    let q = trim(&value[0..open]);
    let sep = match last_index(q, 0x2Eu8) {
        Some(i) => i,
        None => return None,
    };
    let qlen = q.len();
    assert(sep < qlen);
    Some((&q[0..sep], &q[sep + 1..qlen]))
}

pub fn normalize_java_frame(input: &[u8]) -> (r: Option<NormalizedToken>)
    ensures
        spec_token_view(r) == spec_normalize_java_frame(input@),
{
    if !validate_input(input) {
        return None;
    }
    let (class, method) = match java_frame_parts(input) {
        Some(p) => p,
        None => return None,
    };
    if !is_java_class(class) || !is_java_method(method) {
        return None;
    }
    let ghost a = spec_java_ident(class@);
    let ghost b = text_bytes("#");
    let ghost c = spec_java_ident(method@);
    let mut writer = TokenWriter::new();
    if writer.push_java_identifier(class).is_none() {
        proof {
            assert(Seq::<u8>::empty() + a =~= a);
            lemma_unfit_prefix(a, b + c);
            assert(a + b + c =~= a + (b + c));
        }
        return None;
    }
    if writer.push("#".as_bytes()).is_none() {
        proof {
            assert(Seq::<u8>::empty() + a =~= a);
            lemma_unfit_prefix(a + b, c);
        }
        return None;
    }
    if writer.push_java_identifier(method).is_none() {
        proof {
            assert(Seq::<u8>::empty() + a =~= a);
        }
        return None;
    }
    proof {
        assert(Seq::<u8>::empty() + a =~= a);
    }
    writer.finish()
}

/// The token of a built-in label.
fn fixed_token(value: &str) -> (r: Option<NormalizedToken>)
    ensures
        spec_token_view(r) == spec_token(text_bytes(value)),
{
    NormalizedToken::from_bytes(value.as_bytes())
}

#[derive(Debug, Clone, Copy, PartialEq, Eq, Hash, Structural)]
pub enum AnrReasonCategory {
    InputDispatchTimeout,
    BroadcastTimeout,
    ServiceTimeout,
    ContentProviderTimeout,
}

#[derive(Debug, Clone, Copy, PartialEq, Eq, Hash)]
pub struct NormalizedAnrReason {
    pub category: AnrReasonCategory,
    pub canonical: NormalizedToken,
}

/// A category paired with an optional canonical token.
pub open spec fn spec_with_category(category: AnrReasonCategory, t: Option<Seq<u8>>) -> Option<
    (AnrReasonCategory, Seq<u8>),
> {
    match t {
        Some(c) => Some((category, c)),
        None => None,
    }
}

/// The category and canonical content of an optional ANR reason.
pub open spec fn spec_anr_view(r: Option<NormalizedAnrReason>) -> Option<(AnrReasonCategory, Seq<u8>)> {
    match r {
        Some(a) => Some((a.category, a.canonical@)),
        None => None,
    }
}

/// The broadcast action named by the `act=` field of an intent, when it starts with a letter.
pub open spec fn spec_broadcast_action(payload: Seq<u8>) -> Option<Seq<u8>> {
    match crate::problems::scan::spec_find_field(payload, text_bytes("act=")) {
        None => None,
        Some(p) => {
            let rest = payload.subrange(p + text_bytes("act=").len(), payload.len() as int);
            let action = rest.subrange(0, spec_span(rest, ByteClass::Action));
            if action.len() == 0 || !crate::util::spec_alpha(action[0]) {
                None
            } else {
                Some(action)
            }
        },
    }
}

/// The component of an `executing service` reason, when it names a package and class.
pub open spec fn spec_service_component(payload: Seq<u8>) -> Option<Seq<u8>> {
    let component = payload.subrange(0, spec_span(payload, ByteClass::Component));
    if component.len() == 0 || !component.contains(0x2Fu8) {
        None
    } else {
        Some(component)
    }
}

/// The category and canonical token of an ANR reason line.
pub open spec fn spec_normalize_anr_reason(input: Seq<u8>) -> Option<(AnrReasonCategory, Seq<u8>)> {
    if !spec_input_ok(input) {
        None
    } else {
        let reason = spec_trim(input);
        if crate::problems::scan::spec_has_prefix_boundary(reason, text_bytes("Input dispatching timed out")) {
            spec_with_category(
                AnrReasonCategory::InputDispatchTimeout,
                spec_token(text_bytes("input-dispatch-timeout")),
            )
        } else if spec_starts_with(reason, text_bytes("Broadcast of Intent {")) {
            let payload = reason.subrange(
                text_bytes("Broadcast of Intent {").len() as int,
                reason.len() as int,
            );
            match spec_broadcast_action(payload) {
                None => None,
                Some(action) => spec_with_category(
                    AnrReasonCategory::BroadcastTimeout,
                    spec_token(text_bytes("broadcast:") + action),
                ),
            }
        } else if spec_starts_with(reason, text_bytes("executing service ")) {
            let payload = reason.subrange(
                text_bytes("executing service ").len() as int,
                reason.len() as int,
            );
            match spec_service_component(payload) {
                None => None,
                Some(component) => spec_with_category(
                    AnrReasonCategory::ServiceTimeout,
                    spec_token(text_bytes("service:") + component),
                ),
            }
        } else if crate::problems::scan::spec_has_prefix_boundary(
            reason,
            text_bytes("Context.startForegroundService() did not then call Service.startForeground()"),
        ) {
            spec_with_category(
                AnrReasonCategory::ServiceTimeout,
                spec_token(text_bytes("foreground-service-start-timeout")),
            )
        } else if crate::problems::scan::spec_has_prefix_boundary(
            reason,
            text_bytes("ContentProvider not responding"),
        ) {
            spec_with_category(
                AnrReasonCategory::ContentProviderTimeout,
                spec_token(text_bytes("content-provider-timeout")),
            )
        } else {
            None
        }
    }
}

fn with_category(category: AnrReasonCategory, t: Option<NormalizedToken>) -> (r: Option<NormalizedAnrReason>)
    ensures
        spec_anr_view(r) == spec_with_category(category, spec_token_view(t)),
{
    match t {
        Some(canonical) => Some(NormalizedAnrReason { category, canonical }),
        None => None,
    }
}

fn broadcast_action(payload: &[u8]) -> (r: Option<&[u8]>)
    ensures
        match r {
            Some(a) => spec_broadcast_action(payload@) == Some(a@),
            None => spec_broadcast_action(payload@) is None,
        },
{
    let p = match crate::problems::scan::find_field(payload, "act=".as_bytes()) {
        Some(p) => p,
        None => return None,
    };
    let flen = "act=".as_bytes().len();
    assert(crate::util::spec_occurs_at(payload@, text_bytes("act="), p as int));
    assert(p + flen <= payload.len());
    let start = p + flen;
    let action = take_while(&payload[start..payload.len()], ByteClass::Action);
    if action.len() == 0 || !crate::util::is_alpha(action[0]) {
        return None;
    }
    Some(action)
}

fn service_component(payload: &[u8]) -> (r: Option<&[u8]>)
    ensures
        match r {
            Some(c) => spec_service_component(payload@) == Some(c@),
            None => spec_service_component(payload@) is None,
        },
{
    let component = take_while(payload, ByteClass::Component);
    if component.len() == 0 || first_index(component, 0x2Fu8).is_none() {
        return None;
    }
    proof {
        let i = choose|i: int| 0 <= i < component@.len() && component@[i] == 0x2Fu8;
        assert(component@.contains(0x2Fu8)) by {
            assert(component@[i] == 0x2Fu8);
        }
    }
    Some(component)
}

/// A two-piece token: `prefix` then `value`.
fn prefixed_token(prefix: &str, value: &[u8]) -> (r: Option<NormalizedToken>)
    ensures
        spec_token_view(r) == spec_token(text_bytes(prefix) + value@),
{
    let mut writer = TokenWriter::new();
    if writer.push(prefix.as_bytes()).is_none() {
        proof {
            assert(Seq::<u8>::empty() + text_bytes(prefix) =~= text_bytes(prefix));
            lemma_unfit_prefix(text_bytes(prefix), value@);
        }
        return None;
    }
    proof {
        assert(Seq::<u8>::empty() + text_bytes(prefix) =~= text_bytes(prefix));
    }
    if writer.push(value).is_none() {
        return None;
    }
    writer.finish()
}

pub fn normalize_anr_reason(input: &[u8]) -> (r: Option<NormalizedAnrReason>)
    ensures
        spec_anr_view(r) == spec_normalize_anr_reason(input@),
{
    if !validate_input(input) {
        return None;
    }
    let reason = trim(input);
    if crate::problems::scan::has_prefix_boundary(reason, "Input dispatching timed out".as_bytes()) {
        return with_category(
            AnrReasonCategory::InputDispatchTimeout,
            fixed_token("input-dispatch-timeout"),
        );
    }
    if starts_with_text(reason, "Broadcast of Intent {") {
        let payload = &reason["Broadcast of Intent {".as_bytes().len()..reason.len()];
        let action = match broadcast_action(payload) {
            Some(a) => a,
            None => return None,
        };
        return with_category(AnrReasonCategory::BroadcastTimeout, prefixed_token("broadcast:", action));
    }
    if starts_with_text(reason, "executing service ") {
        let payload = &reason["executing service ".as_bytes().len()..reason.len()];
        let component = match service_component(payload) {
            Some(c) => c,
            None => return None,
        };
        return with_category(AnrReasonCategory::ServiceTimeout, prefixed_token("service:", component));
    }
    if crate::problems::scan::has_prefix_boundary(
        reason,
        "Context.startForegroundService() did not then call Service.startForeground()".as_bytes(),
    ) {
        return with_category(
            AnrReasonCategory::ServiceTimeout,
            fixed_token("foreground-service-start-timeout"),
        );
    }
    if crate::problems::scan::has_prefix_boundary(reason, "ContentProvider not responding".as_bytes()) {
        return with_category(
            AnrReasonCategory::ContentProviderTimeout,
            fixed_token("content-provider-timeout"),
        );
    }
    None
}

/// The label of an lmkd kill reason.
pub open spec fn spec_lmk_label(reason: Seq<u8>) -> Option<Seq<u8>> {
    if crate::problems::scan::spec_has_prefix_boundary(reason, text_bytes("low watermark")) {
        Some(text_bytes("lmkd:low-watermark"))
    } else if crate::problems::scan::spec_has_prefix_boundary(reason, text_bytes("process is thrashing"))
        || crate::problems::scan::spec_has_prefix_boundary(reason, text_bytes("thrashing")) {
        Some(text_bytes("lmkd:thrashing"))
    } else if crate::problems::scan::spec_has_prefix_boundary(reason, text_bytes("memory pressure"))
        || crate::problems::scan::spec_has_prefix_boundary(reason, text_bytes("psi")) {
        Some(text_bytes("lmkd:memory-pressure"))
    } else if crate::problems::scan::spec_has_prefix_boundary(reason, text_bytes("swap is low"))
        || crate::problems::scan::spec_has_prefix_boundary(reason, text_bytes("swap low")) {
        Some(text_bytes("lmkd:swap-low"))
    } else if crate::problems::scan::spec_has_prefix_boundary(reason, text_bytes("direct reclaim")) {
        Some(text_bytes("lmkd:direct-reclaim"))
    } else {
        None
    }
}

/// The reason token of a low-memory-killer line.
pub open spec fn spec_normalize_lmk_reason(input: Seq<u8>) -> Option<Seq<u8>> {
    if !spec_input_ok(input) {
        None
    } else {
        let m = spec_trim(input);
        if spec_starts_with(m, text_bytes("lowmemorykiller: Killing ")) {
            spec_token(text_bytes("legacy-lowmemorykiller"))
        } else {
            match crate::util::spec_find(m, text_bytes("reason:")) {
                None => None,
                Some(mk) => {
                    let reason = crate::util::spec_trim_start(
                        m.subrange(mk + text_bytes("reason:").len(), m.len() as int),
                    );
                    match spec_lmk_label(reason) {
                        None => None,
                        Some(label) => spec_token(label),
                    }
                },
            }
        }
    }
}

fn lmk_label(reason: &[u8]) -> (r: Option<&'static str>)
    ensures
        match r {
            Some(l) => spec_lmk_label(reason@) == Some(text_bytes(l)),
            None => spec_lmk_label(reason@) is None,
        },
{
    if hpb(reason, "low watermark".as_bytes()) {
        Some("lmkd:low-watermark")
    } else if hpb(reason, "process is thrashing".as_bytes()) || hpb(reason, "thrashing".as_bytes()) {
        Some("lmkd:thrashing")
    } else if hpb(reason, "memory pressure".as_bytes()) || hpb(reason, "psi".as_bytes()) {
        Some("lmkd:memory-pressure")
    } else if hpb(reason, "swap is low".as_bytes()) || hpb(reason, "swap low".as_bytes()) {
        Some("lmkd:swap-low")
    } else if hpb(reason, "direct reclaim".as_bytes()) {
        Some("lmkd:direct-reclaim")
    } else {
        None
    }
}

pub fn normalize_lmk_reason(input: &[u8]) -> (r: Option<NormalizedToken>)
    ensures
        spec_token_view(r) == spec_normalize_lmk_reason(input@),
{
    if !validate_input(input) {
        return None;
    }
    let message = trim(input);
    if starts_with_text(message, "lowmemorykiller: Killing ") {
        return fixed_token("legacy-lowmemorykiller");
    }
    let marker = match crate::util::find_bytes(message, "reason:".as_bytes()) {
        Some(m) => m,
        None => return None,
    };
    let mlen = "reason:".as_bytes().len();
    assert(marker + mlen <= message.len());
    let reason = crate::util::trim_start(&message[marker + mlen..message.len()]);
    match lmk_label(reason) {
        Some(label) => fixed_token(label),
        None => None,
    }
}

/// The OOM mechanism of a kernel OOM line: `memcg` or `global`.
pub open spec fn spec_normalize_kernel_oom_mechanism(input: Seq<u8>) -> Option<Seq<u8>> {
    if !spec_input_ok(input) {
        None
    } else {
        let m = spec_trim(input);
        if spec_starts_with(m, text_bytes("Memory cgroup out of memory: Killed process "))
            || crate::problems::scan::spec_contains_field_value(m, text_bytes("constraint=CONSTRAINT_MEMCG")) {
            spec_token(text_bytes("memcg"))
        } else if spec_starts_with(m, text_bytes("Out of memory: Killed process "))
            || crate::problems::scan::spec_contains_field_value(m, text_bytes("constraint=CONSTRAINT_NONE")) {
            spec_token(text_bytes("global"))
        } else {
            None
        }
    }
}

pub fn normalize_kernel_oom_mechanism(input: &[u8]) -> (r: Option<NormalizedToken>)
    ensures
        spec_token_view(r) == spec_normalize_kernel_oom_mechanism(input@),
{
    if !validate_input(input) {
        return None;
    }
    let message = trim(input);
    if starts_with_text(message, "Memory cgroup out of memory: Killed process ")
        || crate::problems::scan::contains_field_value(message, "constraint=CONSTRAINT_MEMCG".as_bytes()) {
        return fixed_token("memcg");
    }
    if starts_with_text(message, "Out of memory: Killed process ")
        || crate::problems::scan::contains_field_value(message, "constraint=CONSTRAINT_NONE".as_bytes()) {
        return fixed_token("global");
    }
    None
}

/// The position after the ASCII whitespace that starts at `c`.
pub open spec fn spec_skip_ws_at(v: Seq<u8>, c: int) -> int {
    c + crate::util::spec_leading_ws(v.subrange(c, v.len() as int))
}

/// A byte of a shared-object file name.
pub open spec fn spec_module_byte(b: u8) -> bool {
    crate::util::spec_alnum(b) || b == 0x2Eu8 || b == 0x5Fu8 || b == 0x2Du8 || b == 0x2Bu8
}

/// Every byte is a file-name byte.
pub open spec fn spec_all_module_bytes(v: Seq<u8>) -> bool {
    forall|i: int| 0 <= i < v.len() ==> spec_module_byte(#[trigger] v[i])
}

/// The file name after the last `/` of a path, when it is not empty.
pub open spec fn spec_module_basename(path: Seq<u8>) -> Option<Seq<u8>> {
    let b = match spec_last_index(path, 0x2Fu8) {
        Some(sep) => path.subrange(sep + 1, path.len() as int),
        None => path,
    };
    if b.len() > 0 {
        Some(b)
    } else {
        None
    }
}

/// The relative pc, module file name and trimmed remainder of a native frame line
/// `#NN pc <hex> <path> ...`.
pub open spec fn spec_native_frame_fields(v: Seq<u8>) -> Option<(Seq<u8>, Seq<u8>, Seq<u8>)> {
    if v.len() == 0 || v[0] != 0x23u8 {
        None
    } else {
        let nd = spec_span(v.subrange(1, v.len() as int), ByteClass::Digit);
        let c2 = spec_skip_ws_at(v, 1 + nd);
        if nd == 0 {
            None
        } else if c2 + 2 > v.len() || v[c2] != 0x70u8 || v[c2 + 1] != 0x63u8 {
            None
        } else if c2 + 2 >= v.len() || !crate::util::spec_ascii_ws(v[c2 + 2]) {
            None
        } else {
            let c4 = spec_skip_ws_at(v, c2 + 2);
            let npc = spec_span(v.subrange(c4, v.len() as int), ByteClass::HexDigit);
            let c5 = c4 + npc;
            if npc == 0 {
                None
            } else if c5 >= v.len() || !crate::util::spec_ascii_ws(v[c5]) {
                None
            } else {
                let c6 = spec_skip_ws_at(v, c5);
                let mpl = spec_span(v.subrange(c6, v.len() as int), ByteClass::NonSpace);
                match spec_module_basename(v.subrange(c6, c6 + mpl)) {
                    None => None,
                    Some(module) => if spec_all_module_bytes(module) {
                        Some(
                            (
                                v.subrange(c4, c5),
                                module,
                                spec_trim(v.subrange(c6 + mpl, v.len() as int)),
                            ),
                        )
                    } else {
                        None
                    },
                }
            }
        }
    }
}

fn module_basename(path: &[u8]) -> (r: Option<&[u8]>)
    ensures
        match r {
            Some(b) => spec_module_basename(path@) == Some(b@),
            None => spec_module_basename(path@) is None,
        },
{
    let basename = match last_index(path, 0x2Fu8) {
        Some(sep) => {
            let plen = path.len();
            assert(sep < plen);
            &path[sep + 1..plen]
        },
        None => path,
    };
    if basename.len() > 0 {
        Some(basename)
    } else {
        None
    }
}

fn all_module_bytes(v: &[u8]) -> (r: bool)
    ensures
        r == spec_all_module_bytes(v@),
{
    let mut i: usize = 0;
    while i < v.len()
        invariant
            0 <= i <= v@.len(),
            forall|k: int| 0 <= k < i ==> spec_module_byte(#[trigger] v@[k]),
        decreases v@.len() - i,
    {
        let b = v[i];
        if !(crate::util::is_alnum(b) || b == 0x2Eu8 || b == 0x5Fu8 || b == 0x2Du8 || b == 0x2Bu8) {
            assert(!spec_module_byte(v@[i as int]));
            return false;
        }
        i = i + 1;
    }
    true
}

/// The run of `c` bytes starting at `from`.
fn take_from(v: &[u8], from: usize, c: ByteClass) -> (r: &[u8])
    requires
        from <= v@.len(),
    ensures
        r@.len() == spec_span(v@.subrange(from as int, v@.len() as int), c),
        r@ == v@.subrange(from as int, from + r@.len()),
        from + r@.len() <= v@.len(),
{
    let r = take_while(&v[from..v.len()], c);
    proof {
        lemma_span_bounds(v@.subrange(from as int, v@.len() as int), c);
        assert(r@ =~= v@.subrange(from as int, from + r@.len()));
    }
    r
}

fn native_frame_fields(v: &[u8]) -> (r: Option<(&[u8], &[u8], &[u8])>)
    ensures
        match r {
            Some((pc, module, rem)) => spec_native_frame_fields(v@) == Some((pc@, module@, rem@)),
            None => spec_native_frame_fields(v@) is None,
        },
{
    if v.len() == 0 || v[0] != 0x23u8 {
        return None;
    }
    let digits = take_from(v, 1, ByteClass::Digit);
    if digits.len() == 0 {
        return None;
    }
    let mut cursor = 1 + digits.len();
    cursor = crate::util::skip_ws(v, cursor);
    if v.len() - cursor < 2 || v[cursor] != 0x70u8 || v[cursor + 1] != 0x63u8 {
        return None;
    }
    cursor = cursor + 2;
    if cursor >= v.len() || !crate::util::is_ascii_ws(v[cursor]) {
        return None;
    }
    cursor = crate::util::skip_ws(v, cursor);
    let pc = take_from(v, cursor, ByteClass::HexDigit);
    if pc.len() == 0 {
        return None;
    }
    cursor = cursor + pc.len();
    if cursor >= v.len() || !crate::util::is_ascii_ws(v[cursor]) {
        return None;
    }
    cursor = crate::util::skip_ws(v, cursor);
    let path_field = take_from(v, cursor, ByteClass::NonSpace);
    let module = match module_basename(path_field) {
        Some(m) => m,
        None => return None,
    };
    if !all_module_bytes(module) {
        return None;
    }
    cursor = cursor + path_field.len();
    let remainder = trim(&v[cursor..v.len()]);
    Some((pc, module, remainder))
}

/// A non-empty run of ASCII hex digits.
pub open spec fn spec_nonempty_hex(v: Seq<u8>) -> bool {
    v.len() > 0 && forall|i: int| 0 <= i < v.len() ==> crate::util::spec_hex(#[trigger] v[i])
}

/// A non-empty run of ASCII digits.
pub open spec fn spec_decimal(v: Seq<u8>) -> bool {
    v.len() > 0 && forall|i: int| 0 <= i < v.len() ==> crate::util::spec_digit(#[trigger] v[i])
}

/// `0x` and hex digits.
pub open spec fn spec_hex_address(v: Seq<u8>) -> bool {
    spec_starts_with(v, text_bytes("0x")) && spec_nonempty_hex(
        v.subrange(text_bytes("0x").len() as int, v.len() as int),
    )
}

fn is_decimal(v: &[u8]) -> (r: bool)
    ensures
        r == spec_decimal(v@),
{
    v.len() > 0 && crate::util::all_digits(v)
}

fn is_nonempty_ascii_hex(v: &[u8]) -> (r: bool)
    ensures
        r == spec_nonempty_hex(v@),
{
    v.len() > 0 && crate::util::all_hex(v)
}

fn is_hex_address(v: &[u8]) -> (r: bool)
    ensures
        r == spec_hex_address(v@),
{
    starts_with_text(v, "0x") && is_nonempty_ascii_hex(&v["0x".as_bytes().len()..v.len()])
}

/// A trailing `+offset` (decimal or `0x` hex) removed from a symbol.
pub open spec fn spec_strip_offset(sym: Seq<u8>) -> Seq<u8> {
    match spec_last_index(sym, 0x2Bu8) {
        None => sym,
        Some(plus) => {
            let offset = sym.subrange(plus + 1, sym.len() as int);
            if spec_decimal(offset) || spec_hex_address(offset) {
                spec_trim(sym.subrange(0, plus))
            } else {
                sym
            }
        },
    }
}

/// No control byte and no zero byte.
pub open spec fn spec_printable(v: Seq<u8>) -> bool {
    forall|i: int| 0 <= i < v.len() ==> !crate::util::spec_control(#[trigger] v[i]) && v[i] != 0
}

/// The symbol in the parenthesis that starts a native frame's remainder.
pub open spec fn spec_native_symbol(rem: Seq<u8>) -> Option<Seq<u8>> {
    if !spec_starts_with(rem, text_bytes("(")) {
        None
    } else {
        let bm = match crate::util::spec_find(rem, text_bytes("(BuildId:")) {
            Some(i) => i,
            None => rem.len() as int,
        };
        let field = spec_trim(rem.subrange(0, bm));
        if field.len() < 3 || field[0] != 0x28u8 || field.last() != 0x29u8 {
            None
        } else {
            let sym0 = spec_trim(field.subrange(1, field.len() - 1));
            if spec_starts_with(sym0, text_bytes("BuildId:")) || spec_starts_with(
                sym0,
                text_bytes("offset "),
            ) || sym0 == text_bytes("??") || spec_hex_address(sym0) {
                None
            } else {
                let sym = spec_strip_offset(sym0);
                if sym.len() > 0 && spec_printable(sym) {
                    Some(sym)
                } else {
                    None
                }
            }
        }
    }
}

fn strip_offset(sym: &[u8]) -> (r: &[u8])
    ensures
        r@ == spec_strip_offset(sym@),
{
    match last_index(sym, 0x2Bu8) {
        None => sym,
        Some(plus) => {
            let slen = sym.len();
            assert(plus < slen);
            let offset = &sym[plus + 1..slen];
            if is_decimal(offset) || is_hex_address(offset) {
                trim(&sym[0..plus])
            } else {
                sym
            }
        },
    }
}

fn printable_symbol(v: &[u8]) -> (r: bool)
    ensures
        r == spec_printable(v@),
{
    let mut i: usize = 0;
    while i < v.len()
        invariant
            0 <= i <= v@.len(),
            forall|k: int| 0 <= k < i ==> !crate::util::spec_control(#[trigger] v@[k]) && v@[k] != 0,
        decreases v@.len() - i,
    {
        if crate::util::is_control(v[i]) || v[i] == 0 {
            return false;
        }
        i = i + 1;
    }
    true
}

fn native_symbol(rem: &[u8]) -> (r: Option<&[u8]>)
    ensures
        match r {
            Some(s) => spec_native_symbol(rem@) == Some(s@),
            None => spec_native_symbol(rem@) is None,
        },
{
    if !starts_with_text(rem, "(") {
        return None;
    }
    let bm = match crate::util::find_bytes(rem, "(BuildId:".as_bytes()) {
        Some(i) => {
            assert(i <= rem.len()) by {
                if text_bytes("(BuildId:").len() > 0 {
                    assert(crate::util::spec_occurs_at(rem@, text_bytes("(BuildId:"), i as int));
                }
            }
            i
        },
        None => rem.len(),
    };
    let field = trim(&rem[0..bm]);
    let flen = field.len();
    if flen < 3 || field[0] != 0x28u8 || field[flen - 1] != 0x29u8 {
        return None;
    }
    let sym0 = trim(&field[1..flen - 1]);
    if starts_with_text(sym0, "BuildId:") || starts_with_text(sym0, "offset ")
        || crate::util::bytes_equal_text(sym0, "??") || is_hex_address(sym0) {
        return None;
    }
    let sym = strip_offset(sym0);
    if sym.len() > 0 && printable_symbol(sym) {
        Some(sym)
    } else {
        None
    }
}

/// The build id after `BuildId:` in a native frame's remainder.
pub open spec fn spec_build_id(rem: Seq<u8>) -> Option<Seq<u8>> {
    match crate::util::spec_find(rem, text_bytes("BuildId:")) {
        None => None,
        Some(m) => {
            let after = crate::util::spec_trim_start(
                rem.subrange(m + text_bytes("BuildId:").len(), rem.len() as int),
            );
            let id = after.subrange(0, spec_span(after, ByteClass::HexDigit));
            if !spec_nonempty_hex(id) || (id.len() < after.len() && !crate::util::spec_ascii_ws(
                after[id.len() as int],
            ) && after[id.len() as int] != 0x29u8) {
                None
            } else {
                Some(id)
            }
        },
    }
}

fn build_id(rem: &[u8]) -> (r: Option<&[u8]>)
    ensures
        match r {
            Some(id) => spec_build_id(rem@) == Some(id@),
            None => spec_build_id(rem@) is None,
        },
{
    let m = match crate::util::find_bytes(rem, "BuildId:".as_bytes()) {
        Some(m) => m,
        None => return None,
    };
    let klen = "BuildId:".as_bytes().len();
    assert(m + klen <= rem.len());
    let after = crate::util::trim_start(&rem[m + klen..rem.len()]);
    let id = take_while(after, ByteClass::HexDigit);
    proof {
        lemma_span_bounds(after@, ByteClass::HexDigit);
    }
    if !is_nonempty_ascii_hex(id) || (id.len() < after.len() && !crate::util::is_ascii_ws(
        after[id.len()],
    ) && after[id.len()] != 0x29u8) {
        return None;
    }
    Some(id)
}

/// Leading zeroes removed, keeping one digit.
pub open spec fn spec_trim_leading_zeroes(v: Seq<u8>) -> Seq<u8> {
    let z = spec_span(v, ByteClass::Zero);
    let t = if z < v.len() {
        v.subrange(z, v.len() as int)
    } else if v.len() > 0 {
        v.subrange(v.len() - 1, v.len() as int)
    } else {
        v
    };
    if t.len() == 0 {
        text_bytes("0")
    } else {
        t
    }
}

fn trim_leading_zeroes(v: &[u8]) -> (r: &[u8])
    ensures
        r@ == spec_trim_leading_zeroes(v@),
{
    let zeros = take_while(v, ByteClass::Zero);
    proof {
        lemma_span_bounds(v@, ByteClass::Zero);
    }
    let t = if zeros.len() < v.len() {
        &v[zeros.len()..v.len()]
    } else if v.len() > 0 {
        &v[v.len() - 1..v.len()]
    } else {
        v
    };
    if t.len() == 0 {
        "0".as_bytes()
    } else {
        t
    }
}

/// A native frame as `module#symbol`, or as `buildid+module+pc` (lower case, without leading
/// zeroes) when it has no usable symbol.
pub open spec fn spec_normalize_native_frame(input: Seq<u8>) -> Option<Seq<u8>> {
    if !spec_input_ok(input) {
        None
    } else {
        match spec_native_frame_fields(spec_trim(input)) {
            None => None,
            Some((pc, module, rem)) => match spec_native_symbol(rem) {
                Some(sym) => spec_token(module + text_bytes("#") + sym),
                None => match spec_build_id(rem) {
                    None => None,
                    Some(id) => spec_token(
                        spec_lowercase(id) + text_bytes("+") + module + text_bytes("+")
                            + spec_lowercase(spec_trim_leading_zeroes(pc)),
                    ),
                },
            },
        }
    }
}

/// `a`, the label `sep`, then `b`.
fn joined_token(a: &[u8], sep: &str, b: &[u8]) -> (r: Option<NormalizedToken>)
    ensures
        spec_token_view(r) == spec_token(a@ + text_bytes(sep) + b@),
{
    let ghost s = text_bytes(sep);
    let mut writer = TokenWriter::new();
    if writer.push(a).is_none() {
        proof {
            assert(Seq::<u8>::empty() + a@ =~= a@);
            lemma_unfit_prefix(a@, s + b@);
            assert(a@ + s + b@ =~= a@ + (s + b@));
        }
        return None;
    }
    proof {
        assert(Seq::<u8>::empty() + a@ =~= a@);
    }
    if writer.push(sep.as_bytes()).is_none() {
        proof {
            lemma_unfit_prefix(a@ + s, b@);
        }
        return None;
    }
    if writer.push(b).is_none() {
        return None;
    }
    writer.finish()
}

/// The token of an unsymbolized frame: lower-case build id, module and pc joined by `+`.
fn build_id_token(id: &[u8], module: &[u8], pc: &[u8]) -> (r: Option<NormalizedToken>)
    ensures
        spec_token_view(r) == spec_token(
            spec_lowercase(id@) + text_bytes("+") + module@ + text_bytes("+") + spec_lowercase(pc@),
        ),
{
    let ghost p1 = spec_lowercase(id@);
    let ghost p2 = text_bytes("+");
    let ghost p3 = module@;
    let ghost p5 = spec_lowercase(pc@);
    let ghost total = p1 + p2 + p3 + p2 + p5;
    let mut writer = TokenWriter::new();
    if writer.push_ascii_lowercase(id).is_none() {
        proof {
            assert(Seq::<u8>::empty() + p1 =~= p1);
            lemma_unfit_prefix(p1, p2 + p3 + p2 + p5);
            assert(total =~= p1 + (p2 + p3 + p2 + p5));
        }
        return None;
    }
    proof {
        assert(Seq::<u8>::empty() + p1 =~= p1);
    }
    if writer.push("+".as_bytes()).is_none() {
        proof {
            lemma_unfit_prefix(p1 + p2, p3 + p2 + p5);
            assert(total =~= (p1 + p2) + (p3 + p2 + p5));
        }
        return None;
    }
    if writer.push(module).is_none() {
        proof {
            lemma_unfit_prefix(p1 + p2 + p3, p2 + p5);
            assert(total =~= (p1 + p2 + p3) + (p2 + p5));
        }
        return None;
    }
    if writer.push("+".as_bytes()).is_none() {
        proof {
            lemma_unfit_prefix(p1 + p2 + p3 + p2, p5);
        }
        return None;
    }
    if writer.push_ascii_lowercase(pc).is_none() {
        return None;
    }
    writer.finish()
}

pub fn normalize_native_frame(input: &[u8]) -> (r: Option<NormalizedToken>)
    ensures
        spec_token_view(r) == spec_normalize_native_frame(input@),
{
    if !validate_input(input) {
        return None;
    }
    let value = trim(input);
    let (pc, module, remainder) = match native_frame_fields(value) {
        Some(f) => f,
        None => return None,
    };
    if let Some(symbol) = native_symbol(remainder) {
        return joined_token(module, "#", symbol);
    }
    let id = match build_id(remainder) {
        Some(id) => id,
        None => return None,
    };
    let pc = trim_leading_zeroes(pc);
    build_id_token(id, module, pc)
}


/// Each class of lmkd kill reason, recognized by the words it begins with (at a word
/// boundary), gets its own label: low watermark, thrashing, memory pressure (or PSI), swap
/// low and direct reclaim; and the five labels differ, so reasons of different classes never
/// share a fingerprint token.
pub proof fn lemma_lmk_reason_classes(reason: Seq<u8>)
    ensures
        crate::problems::scan::spec_has_prefix_boundary(reason, text_bytes("low watermark")) ==> spec_lmk_label(reason) == Some(text_bytes("lmkd:low-watermark")),
        crate::problems::scan::spec_has_prefix_boundary(reason, text_bytes("process is thrashing")) || crate::problems::scan::spec_has_prefix_boundary(reason, text_bytes("thrashing")) ==> spec_lmk_label(reason) == Some(text_bytes("lmkd:thrashing")),
        crate::problems::scan::spec_has_prefix_boundary(reason, text_bytes("memory pressure")) || crate::problems::scan::spec_has_prefix_boundary(reason, text_bytes("psi")) ==> spec_lmk_label(reason) == Some(text_bytes("lmkd:memory-pressure")),
        crate::problems::scan::spec_has_prefix_boundary(reason, text_bytes("swap is low")) || crate::problems::scan::spec_has_prefix_boundary(reason, text_bytes("swap low")) ==> spec_lmk_label(reason) == Some(text_bytes("lmkd:swap-low")),
        crate::problems::scan::spec_has_prefix_boundary(reason, text_bytes("direct reclaim")) ==> spec_lmk_label(reason) == Some(text_bytes("lmkd:direct-reclaim")),
        text_bytes("lmkd:low-watermark") != text_bytes("lmkd:thrashing"),
        text_bytes("lmkd:low-watermark") != text_bytes("lmkd:memory-pressure"),
        text_bytes("lmkd:low-watermark") != text_bytes("lmkd:swap-low"),
        text_bytes("lmkd:low-watermark") != text_bytes("lmkd:direct-reclaim"),
        text_bytes("lmkd:thrashing") != text_bytes("lmkd:memory-pressure"),
        text_bytes("lmkd:thrashing") != text_bytes("lmkd:swap-low"),
        text_bytes("lmkd:thrashing") != text_bytes("lmkd:direct-reclaim"),
        text_bytes("lmkd:memory-pressure") != text_bytes("lmkd:swap-low"),
        text_bytes("lmkd:memory-pressure") != text_bytes("lmkd:direct-reclaim"),
        text_bytes("lmkd:swap-low") != text_bytes("lmkd:direct-reclaim"),
{
    reveal_strlit("low watermark");
    assert(vstd::string::is_ascii("low watermark"));
    vstd::string::is_ascii_spec_bytes("low watermark");
    reveal_strlit("process is thrashing");
    assert(vstd::string::is_ascii("process is thrashing"));
    vstd::string::is_ascii_spec_bytes("process is thrashing");
    reveal_strlit("thrashing");
    assert(vstd::string::is_ascii("thrashing"));
    vstd::string::is_ascii_spec_bytes("thrashing");
    reveal_strlit("memory pressure");
    assert(vstd::string::is_ascii("memory pressure"));
    vstd::string::is_ascii_spec_bytes("memory pressure");
    reveal_strlit("psi");
    assert(vstd::string::is_ascii("psi"));
    vstd::string::is_ascii_spec_bytes("psi");
    reveal_strlit("swap is low");
    assert(vstd::string::is_ascii("swap is low"));
    vstd::string::is_ascii_spec_bytes("swap is low");
    reveal_strlit("swap low");
    assert(vstd::string::is_ascii("swap low"));
    vstd::string::is_ascii_spec_bytes("swap low");
    reveal_strlit("direct reclaim");
    assert(vstd::string::is_ascii("direct reclaim"));
    vstd::string::is_ascii_spec_bytes("direct reclaim");
    reveal_strlit("lmkd:low-watermark");
    assert(vstd::string::is_ascii("lmkd:low-watermark"));
    vstd::string::is_ascii_spec_bytes("lmkd:low-watermark");
    reveal_strlit("lmkd:thrashing");
    assert(vstd::string::is_ascii("lmkd:thrashing"));
    vstd::string::is_ascii_spec_bytes("lmkd:thrashing");
    reveal_strlit("lmkd:memory-pressure");
    assert(vstd::string::is_ascii("lmkd:memory-pressure"));
    vstd::string::is_ascii_spec_bytes("lmkd:memory-pressure");
    reveal_strlit("lmkd:swap-low");
    assert(vstd::string::is_ascii("lmkd:swap-low"));
    vstd::string::is_ascii_spec_bytes("lmkd:swap-low");
    reveal_strlit("lmkd:direct-reclaim");
    assert(vstd::string::is_ascii("lmkd:direct-reclaim"));
    vstd::string::is_ascii_spec_bytes("lmkd:direct-reclaim");
    if reason.len() > 0 {
        let c = reason[0];
        assert(crate::problems::scan::spec_has_prefix_boundary(reason, text_bytes("low watermark")) ==> c == text_bytes("low watermark")[0]);
        assert(crate::problems::scan::spec_has_prefix_boundary(reason, text_bytes("process is thrashing")) ==> c == text_bytes("process is thrashing")[0] && reason[1] == text_bytes("process is thrashing")[1]);
        assert(crate::problems::scan::spec_has_prefix_boundary(reason, text_bytes("thrashing")) ==> c == text_bytes("thrashing")[0]);
        assert(crate::problems::scan::spec_has_prefix_boundary(reason, text_bytes("memory pressure")) ==> c == text_bytes("memory pressure")[0]);
        assert(crate::problems::scan::spec_has_prefix_boundary(reason, text_bytes("psi")) ==> c == text_bytes("psi")[0] && reason[1] == text_bytes("psi")[1]);
        assert(crate::problems::scan::spec_has_prefix_boundary(reason, text_bytes("swap is low")) ==> c == text_bytes("swap is low")[0]);
        assert(crate::problems::scan::spec_has_prefix_boundary(reason, text_bytes("swap low")) ==> c == text_bytes("swap low")[0]);
        assert(crate::problems::scan::spec_has_prefix_boundary(reason, text_bytes("direct reclaim")) ==> c == text_bytes("direct reclaim")[0]);
    }
    assert(text_bytes("lmkd:low-watermark")[5] != text_bytes("lmkd:thrashing")[5]);
    assert(text_bytes("lmkd:low-watermark")[5] != text_bytes("lmkd:memory-pressure")[5]);
    assert(text_bytes("lmkd:low-watermark")[5] != text_bytes("lmkd:swap-low")[5]);
    assert(text_bytes("lmkd:low-watermark")[5] != text_bytes("lmkd:direct-reclaim")[5]);
    assert(text_bytes("lmkd:thrashing")[5] != text_bytes("lmkd:memory-pressure")[5]);
    assert(text_bytes("lmkd:thrashing")[5] != text_bytes("lmkd:swap-low")[5]);
    assert(text_bytes("lmkd:thrashing")[5] != text_bytes("lmkd:direct-reclaim")[5]);
    assert(text_bytes("lmkd:memory-pressure")[5] != text_bytes("lmkd:swap-low")[5]);
    assert(text_bytes("lmkd:memory-pressure")[5] != text_bytes("lmkd:direct-reclaim")[5]);
    assert(text_bytes("lmkd:swap-low")[5] != text_bytes("lmkd:direct-reclaim")[5]);
}

} // verus!
