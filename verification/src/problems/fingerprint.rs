use vstd::prelude::*;
use vstd::string::*;
use vstd::utf8::*;
use crate::chars::{rtrim, rtrim_end, skip_ws, skip_ws_from, spec_ws, str_chars};
use crate::problems::model::{IdentityQuality, ProblemKind, SignatureQuality};
use crate::problems::normalization::utf8_str;

verus! {

/// The domain-separation context under which fingerprints are derived.
pub const FINGERPRINT_CONTEXT: &'static str = "LogFilter Problems fingerprint BLAKE3-128 v1";

/// The longest process name, in UTF-8 bytes, that keeps its identity in a fingerprint.
pub const PROCESS_NAME_LIMIT: usize = 256;

/// The process part of a fingerprint: a trimmed, bounded name, or unknown.
#[derive(Debug, Clone, PartialEq, Eq, Hash)]
pub enum ProcessFingerprintKey {
    Known(String),
    Unknown,
}

impl View for ProcessFingerprintKey {
    type V = Option<Seq<char>>;

    open spec fn view(&self) -> Option<Seq<char>> {
        match self {
            ProcessFingerprintKey::Known(name) => Some(name@),
            ProcessFingerprintKey::Unknown => None,
        }
    }
}

/// `s` without leading and trailing Unicode whitespace.
pub open spec fn spec_trim_chars(s: Seq<char>) -> Seq<char> {
    let lo = skip_ws_from(s, 0);
    s.subrange(lo, rtrim_end(s, lo, s.len() as int))
}

/// The key a process name gives: the trimmed name when it is non-empty and at most
/// `PROCESS_NAME_LIMIT` UTF-8 bytes long.
pub open spec fn spec_process_key(name: Option<Seq<char>>) -> Option<Seq<char>> {
    match name {
        Some(n) => {
            let t = spec_trim_chars(n);
            if t.len() == 0 || encode_utf8(t).len() > PROCESS_NAME_LIMIT {
                None
            } else {
                Some(t)
            }
        },
        None => None,
    }
}

impl ProcessFingerprintKey {
    pub fn new(process_name: Option<&str>) -> (r: Self)
        ensures
            r@ == spec_process_key(match process_name {
                Some(n) => Some(n@),
                None => None,
            }),
    {
        let name = match process_name {
            Some(n) => n,
            None => return ProcessFingerprintKey::Unknown,
        };
        let chars = str_chars(name);
        let lo = skip_ws(&chars, 0);
        let hi = rtrim(&chars, lo, chars.len());
        if lo == hi {
            return ProcessFingerprintKey::Unknown;
        }
        let trimmed = name.substring_char(lo, hi);
        if trimmed.as_bytes().len() > PROCESS_NAME_LIMIT {
            return ProcessFingerprintKey::Unknown;
        }
        ProcessFingerprintKey::Known(trimmed.to_owned())
    }

    pub fn unknown() -> (r: Self)
        ensures
            r@ is None,
    {
        ProcessFingerprintKey::Unknown
    }

    pub fn is_unknown(&self) -> (r: bool)
        ensures
            r == (self@ is None),
    {
        match self {
            ProcessFingerprintKey::Known(_) => false,
            ProcessFingerprintKey::Unknown => true,
        }
    }

    /// The UTF-8 bytes of a known name.
    pub fn as_bytes(&self) -> (r: Option<&[u8]>)
        ensures
            match self@ {
                Some(n) => r matches Some(b) && b@ == encode_utf8(n),
                None => r is None,
            },
    {
        match self {
            ProcessFingerprintKey::Known(name) => Some(name.as_str().as_bytes()),
            ProcessFingerprintKey::Unknown => None,
        }
    }

    pub fn identity_quality(&self) -> (r: IdentityQuality)
        ensures
            r == (if self@ is Some { IdentityQuality::KnownProcess } else { IdentityQuality::UnknownProcess }),
    {
        match self {
            ProcessFingerprintKey::Known(_) => IdentityQuality::KnownProcess,
            ProcessFingerprintKey::Unknown => IdentityQuality::UnknownProcess,
        }
    }
}

/// A 128-bit problem fingerprint.
#[derive(Debug, Clone, Copy, PartialEq, Eq, Hash)]
pub struct ProblemFingerprint([u8; 16]);

/// The lower-case hexadecimal digit of `v < 16`.
pub open spec fn spec_hex_digit(v: u8) -> char {
    if v < 10 { (0x30 + v) as char } else { (0x57 + v) as char }
}

/// Two lower-case hexadecimal digits per byte.
pub open spec fn spec_hex(bytes: Seq<u8>) -> Seq<char>
    decreases bytes.len(),
{
    if bytes.len() == 0 {
        Seq::empty()
    } else {
        spec_hex(bytes.drop_last()).push(spec_hex_digit(bytes.last() / 16)).push(spec_hex_digit(bytes.last() % 16))
    }
}

fn hex_digit(v: u8) -> (r: u8)
    requires
        v < 16,
    ensures
        r as char == spec_hex_digit(v),
        r < 128,
{
    if v < 10 { 0x30 + v } else { 0x57 + v }
}

impl ProblemFingerprint {
    pub closed spec fn spec_bytes(self) -> Seq<u8> {
        self.0@
    }

    pub fn as_bytes(&self) -> (r: &[u8; 16])
        ensures
            r@ == self.spec_bytes(),
    {
        &self.0
    }

    /// The fingerprint as 32 lower-case hexadecimal digits.
    pub fn to_hex(self) -> (r: String)
        ensures
            r@ == spec_hex(self.spec_bytes()),
    {
        let mut out: Vec<u8> = Vec::new();
        let ghost mut chars: Seq<char> = Seq::empty();
        let mut i: usize = 0;
        while i < 16
            invariant
                0 <= i <= 16,
                self.0@.len() == 16,
                chars == spec_hex(self.0@.take(i as int)),
                out@.len() == chars.len(),
                forall|k: int| 0 <= k < chars.len() ==> (#[trigger] chars[k]) as u8 == out@[k] && out@[k] < 128 && '\0' <= chars[k] <= '\u{7f}',
            decreases 16 - i,
        {
            let b = self.0[i];
            let hi = hex_digit(b / 16);
            let lo = hex_digit(b % 16);
            let ghost c0 = chars;
            let ghost o0 = out@;
            proof {
                assert(self.0@.take(i + 1).drop_last() =~= self.0@.take(i as int));
                chars = chars.push(hi as char).push(lo as char);
            }
            out.push(hi);
            out.push(lo);
            proof {
                assert forall|k: int| 0 <= k < chars.len() implies (#[trigger] chars[k]) as u8 == out@[k] && out@[k] < 128 && '\0'
                    <= chars[k] <= '\u{7f}' by {
                    if k < c0.len() {
                        assert(chars[k] == c0[k] && out@[k] == o0[k]);
                    } else if k == c0.len() {
                        assert(chars[k] == hi as char && out@[k] == hi);
                    } else {
                        assert(chars[k] == lo as char && out@[k] == lo);
                    }
                }
            }
            i = i + 1;
        }
        proof {
            assert(self.0@.take(16) =~= self.0@);
            assert(is_ascii_chars(chars));
            is_ascii_chars_encode_utf8(chars);
            assert(encode_utf8(chars) =~= out@);
            encode_utf8_valid_utf8(chars);
        }
        let text = match utf8_str(out.as_slice()) {
            Some(t) => t,
            None => {
                assert(false);
                return String::new();
            },
        };
        proof {
            encode_utf8_decode_utf8(chars);
            encode_utf8_decode_utf8(text@);
        }
        text.to_owned()
    }
}

/// The kind of a canonical token fed to a fingerprint.
#[derive(Debug, Clone, Copy, PartialEq, Eq, Structural)]
pub enum FingerprintTokenKind {
    ExceptionType,
    Frame,
    Signal,
    StructuredField,
    Mechanism,
    Relation,
}

impl FingerprintTokenKind {
    pub open spec fn spec_code(self) -> u8 {
        match self {
            FingerprintTokenKind::ExceptionType => 1,
            FingerprintTokenKind::Frame => 2,
            FingerprintTokenKind::Signal => 3,
            FingerprintTokenKind::StructuredField => 4,
            FingerprintTokenKind::Mechanism => 5,
            FingerprintTokenKind::Relation => 6,
        }
    }

    /// The token kind's wire code.
    pub fn code(self) -> (r: u8)
        ensures
            r == self.spec_code(),
    {
        match self {
            FingerprintTokenKind::ExceptionType => 1,
            FingerprintTokenKind::Frame => 2,
            FingerprintTokenKind::Signal => 3,
            FingerprintTokenKind::StructuredField => 4,
            FingerprintTokenKind::Mechanism => 5,
            FingerprintTokenKind::Relation => 6,
        }
    }
}

/// The little-endian bytes of `n`.
pub open spec fn spec_le16(n: u16) -> Seq<u8> {
    seq![(n & 0xff) as u8, ((n >> 8u16) & 0xff) as u8]
}

/// The little-endian bytes of `n`.
pub open spec fn spec_le64(n: u64) -> Seq<u8> {
    Seq::new(8, |i: int| ((n >> (8 * i) as u64) & 0xff) as u8)
}

/// `value` preceded by its length as eight little-endian bytes.
pub open spec fn spec_length_prefixed(value: Seq<u8>) -> Seq<u8> {
    spec_le64(value.len() as u64) + value
}

/// The bytes that open a fingerprint's hashed message: the binary protocol version, the
/// kind, the fingerprint version, both quality codes, and the process name when known.
pub open spec fn spec_fingerprint_header(
    kind: ProblemKind,
    version: u16,
    signature_quality: SignatureQuality,
    identity_quality: IdentityQuality,
    process: Option<Seq<char>>,
) -> Seq<u8> {
    seq![1u8, kind.spec_code()] + spec_le16(version) + seq![signature_quality.spec_code(), identity_quality.spec_code()]
        + match process {
        Some(name) => seq![1u8] + spec_length_prefixed(encode_utf8(name)),
        None => seq![0u8],
    }
}

/// The bytes one token adds to a fingerprint's hashed message.
pub open spec fn spec_fingerprint_token(kind: FingerprintTokenKind, canonical: Seq<u8>) -> Seq<u8> {
    seq![kind.spec_code()] + spec_length_prefixed(canonical)
}

/// What `blake3::derive_key` returns for a context string and key material.
pub uninterp spec fn blake3_derive_key(context: Seq<char>, key_material: Seq<u8>) -> Seq<u8>;

/// Calls `blake3::derive_key`, the one-shot form of a derive-key hasher fed `key_material`
/// and finalized; its 32 bytes are the named derivation of the context and the material.
#[verifier::external_body]
fn derive_key(context: &str, key_material: &[u8]) -> (r: [u8; 32])
    ensures
        r@ == blake3_derive_key(context@, key_material@),
{
    blake3::derive_key(context, key_material)
}

/// The fingerprint a 32-byte digest gives: its first sixteen bytes.
pub fn fingerprint_from_digest(digest: [u8; 32]) -> (r: ProblemFingerprint)
    ensures
        r.spec_bytes() == digest@.take(16),
{
    let mut compact = [0u8; 16];
    let mut i: usize = 0;
    while i < 16
        invariant
            0 <= i <= 16,
            compact@.len() == 16,
            forall|k: int| 0 <= k < i ==> compact@[k] == digest@[k],
        decreases 16 - i,
    {
        compact[i] = digest[i];
        i = i + 1;
    }
    let r = ProblemFingerprint(compact);
    proof {
        assert(r.spec_bytes() =~= digest@.take(16));
    }
    r
}

fn push_le64(out: &mut Vec<u8>, n: u64)
    ensures
        final(out)@ == old(out)@ + spec_le64(n),
{
    let ghost start = out@;
    let mut i: u64 = 0;
    while i < 8
        invariant
            0 <= i <= 8,
            out@ == start + spec_le64(n).take(i as int),
        decreases 8 - i,
    {
        out.push(((n >> (8 * i)) & 0xff) as u8);
        proof {
            assert(spec_le64(n).take(i + 1) =~= spec_le64(n).take(i as int).push(((n >> (8 * i) as u64) & 0xff) as u8));
        }
        i = i + 1;
    }
    proof {
        assert(spec_le64(n).take(8) =~= spec_le64(n));
    }
}

fn push_bytes(out: &mut Vec<u8>, bytes: &[u8])
    ensures
        final(out)@ == old(out)@ + bytes@,
{
    let ghost start = out@;
    let mut i: usize = 0;
    while i < bytes.len()
        invariant
            0 <= i <= bytes@.len(),
            out@ == start + bytes@.take(i as int),
        decreases bytes@.len() - i,
    {
        out.push(bytes[i]);
        proof {
            assert(bytes@.take(i + 1) =~= bytes@.take(i as int).push(bytes@[i as int]));
        }
        i = i + 1;
    }
    proof {
        assert(bytes@.take(bytes@.len() as int) =~= bytes@);
    }
}

fn push_length_prefixed(out: &mut Vec<u8>, value: &[u8])
    ensures
        final(out)@ == old(out)@ + spec_length_prefixed(value@),
{
    push_le64(out, value.len() as u64);
    push_bytes(out, value);
    proof {
        assert(old(out)@ + spec_le64(value@.len() as u64) + value@ =~= old(out)@ + spec_length_prefixed(value@));
    }
}

/// Builds a fingerprint from a kind, its version and qualities, the process, and canonical
/// tokens; the fingerprint is the first sixteen bytes of the BLAKE3 derived key of the
/// message those make under `FINGERPRINT_CONTEXT`.
pub struct FingerprintBuilder {
    message: Vec<u8>,
}

impl FingerprintBuilder {
    /// The message fed so far.
    pub closed spec fn spec_message(self) -> Seq<u8> {
        self.message@
    }

    pub fn new(
        kind: ProblemKind,
        fingerprint_version: u16,
        signature_quality: SignatureQuality,
        identity_quality: IdentityQuality,
        process: &ProcessFingerprintKey,
    ) -> (r: Self)
        ensures
            r.spec_message() == spec_fingerprint_header(kind, fingerprint_version, signature_quality, identity_quality, process@),
    {
        let mut message: Vec<u8> = Vec::new();
        message.push(1);
        message.push(kind.code());
        message.push((fingerprint_version & 0xff) as u8);
        message.push(((fingerprint_version >> 8) & 0xff) as u8);
        message.push(signature_quality.code());
        message.push(identity_quality.code());
        let ghost head = message@;
        match process.as_bytes() {
            Some(name) => {
                message.push(1);
                push_length_prefixed(&mut message, name);
            },
            None => {
                message.push(0);
            },
        }
        proof {
            assert(head =~= seq![1u8, kind.spec_code()] + spec_le16(fingerprint_version) + seq![signature_quality.spec_code(), identity_quality.spec_code()]);
            assert(message@ =~= spec_fingerprint_header(kind, fingerprint_version, signature_quality, identity_quality, process@));
        }
        FingerprintBuilder { message }
    }

    /// Adds one canonical token.
    pub fn token(&mut self, kind: FingerprintTokenKind, canonical: &[u8]) -> (r: &mut Self)
        ensures
            r.spec_message() == old(self).spec_message() + spec_fingerprint_token(kind, canonical@),
            final(self).spec_message() == final(r).spec_message(),
    {
        let ghost before = self.message@;
        self.message.push(kind.code());
        push_length_prefixed(&mut self.message, canonical);
        proof {
            assert(self.message@ =~= before + spec_fingerprint_token(kind, canonical@));
        }
        self
    }

    /// The fingerprint of the message fed so far.
    pub fn finish(self) -> (r: ProblemFingerprint)
        ensures
            r.spec_bytes() == blake3_derive_key(FINGERPRINT_CONTEXT@, self.spec_message()).take(16),
    {
        let digest = derive_key(FINGERPRINT_CONTEXT, self.message.as_slice());
        fingerprint_from_digest(digest)
    }
}

} // verus!
