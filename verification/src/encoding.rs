use vstd::prelude::*;
use vstd::string::*;
use vstd::utf8::{decode_utf8, encode_utf8, valid_utf8};
use std::borrow::Cow;
use encoding_rs::Encoding;
use crate::chars::{find_char, find_from, lemma_find_bounds, spec_trim_chars, str_chars, trim_str};
use crate::util::{bytes_equal_text, spec_lower, text_bytes, to_lower};

verus! {

#[verifier::external_type_specification]
#[verifier::external_body]
pub struct ExEncoding(Encoding);

/// How log bytes are read as text: always as UTF-8, or in the system's local encoding.
#[derive(Debug, Clone, Copy, PartialEq, Eq, Structural)]
pub enum TextEncoding {
    Utf8,
    Local,
}

/// The ASCII-lowercase code of a character.
pub open spec fn spec_lower_code(c: char) -> u32 {
    let u = c as u32;
    if 65 <= u <= 90 {
        (u + 32) as u32
    } else {
        u
    }
}

/// Whether `a` and `b` are equal but for the case of ASCII letters.
pub open spec fn spec_eq_ignore_ascii_case(a: Seq<char>, b: Seq<char>) -> bool {
    a.len() == b.len() && forall|i: int| 0 <= i < a.len() ==> spec_lower_code(#[trigger] a[i]) == spec_lower_code(b[i])
}

/// The encoding a configured value selects: `local` in any ASCII case, or `本地`, once
/// trimmed, selects the local encoding; anything else UTF-8.
pub open spec fn spec_from_config(value: Seq<char>) -> TextEncoding {
    let t = spec_trim_chars(value);
    if spec_eq_ignore_ascii_case(t, "local"@) || t == "本地"@ {
        TextEncoding::Local
    } else {
        TextEncoding::Utf8
    }
}

pub open spec fn spec_config_label(e: TextEncoding) -> Seq<char> {
    match e {
        TextEncoding::Utf8 => "UTF-8"@,
        TextEncoding::Local => "Local"@,
    }
}

fn eq_ignore_ascii_case(a: &str, b: &str) -> (r: bool)
    ensures
        r == spec_eq_ignore_ascii_case(a@, b@),
{
    let ac = str_chars(a);
    let bc = str_chars(b);
    if ac.len() != bc.len() {
        return false;
    }
    let mut i: usize = 0;
    while i < ac.len()
        invariant
            0 <= i <= ac@.len(),
            ac@.len() == bc@.len(),
            ac@ == a@,
            bc@ == b@,
            forall|k: int| 0 <= k < i ==> spec_lower_code(#[trigger] a@[k]) == spec_lower_code(b@[k]),
        decreases ac@.len() - i,
    {
        let x = ac[i] as u32;
        let y = bc[i] as u32;
        let lx = if 65 <= x && x <= 90 { x + 32 } else { x };
        let ly = if 65 <= y && y <= 90 { y + 32 } else { y };
        if lx != ly {
            return false;
        }
        i = i + 1;
    }
    true
}

impl TextEncoding {
    /// Reads the configured encoding name.
    pub fn from_config(value: &str) -> (r: Self)
        ensures
            r == spec_from_config(value@),
    {
        let trimmed = trim_str(value);
        let local = eq_ignore_ascii_case(trimmed, "local");
        let chinese = crate::util::str_equal(trimmed, "本地");
        if local || chinese {
            TextEncoding::Local
        } else {
            TextEncoding::Utf8
        }
    }

    /// The name this encoding is written under in the configuration.
    pub fn config_label(self) -> (r: &'static str)
        ensures
            r@ == spec_config_label(self),
    {
        match self {
            TextEncoding::Utf8 => "UTF-8",
            TextEncoding::Local => "Local",
        }
    }
}

/// The name an encoding is written under reads back as that encoding.
pub proof fn lemma_config_label_round_trip(e: TextEncoding)
    ensures
        spec_from_config(spec_config_label(e)) == e,
{
    reveal_strlit("UTF-8");
    reveal_strlit("Local");
    reveal_strlit("local");
    reveal_strlit("本地");
    let s = spec_config_label(e);
    assert(s.len() == 5);
    assert(!crate::chars::spec_ws(s[0]));
    assert(!crate::chars::spec_ws(s[4]));
    assert(crate::chars::skip_ws_from(s, 0) == 0);
    assert(crate::chars::rtrim_end(s, 0, 5) == 5);
    assert(spec_trim_chars(s) =~= s);
    match e {
        TextEncoding::Utf8 => {
            assert(spec_lower_code(s[0]) != spec_lower_code("local"@[0]));
            assert(s != "本地"@);
        },
        TextEncoding::Local => {
            assert(spec_eq_ignore_ascii_case(s, "local"@));
        },
    }
}

/// The last index of `c` in `s`, if any.
pub open spec fn spec_last_index_of(s: Seq<char>, c: char) -> Option<int>
    decreases s.len(),
{
    if s.len() == 0 {
        None
    } else if s.last() == c {
        Some(s.len() - 1)
    } else {
        spec_last_index_of(s.drop_last(), c)
    }
}

/// The encoding part of a locale value such as `zh_CN.GBK@variant`, trimmed: after the last
/// dot, before the first `@`.
pub open spec fn spec_locale_label_text(v: Seq<char>) -> Seq<char> {
    let after_dot = match spec_last_index_of(v, '.') {
        Some(i) => v.subrange(i + 1, v.len() as int),
        None => v,
    };
    spec_trim_chars(after_dot.subrange(0, find_from(after_dot, '@', 0)))
}

/// A label's bytes with `_` read as `-` and ASCII letters lowered.
pub open spec fn spec_label_bytes(b: Seq<u8>) -> Seq<u8> {
    b.map_values(|x: u8| spec_lower(if x == 0x5Fu8 { 0x2Du8 } else { x }))
}

/// The label a locale value names its encoding by.
pub open spec fn spec_locale_label(v: Seq<char>) -> Seq<u8> {
    spec_label_bytes(encode_utf8(spec_locale_label_text(v)))
}

/// The common encodings a locale label names outright.
#[derive(Debug, Clone, Copy, PartialEq, Eq, Structural)]
pub enum KnownEncoding {
    Utf8,
    Gbk,
    Big5,
    ShiftJis,
    EucKr,
}

/// The common encoding a label names outright, if it is one of them.
pub open spec fn spec_known_label(l: Seq<u8>) -> Option<KnownEncoding> {
    if l == text_bytes("utf-8") || l == text_bytes("utf8") {
        Some(KnownEncoding::Utf8)
    } else if l == text_bytes("gbk") || l == text_bytes("gb2312") || l == text_bytes("gb18030") || l == text_bytes("cp936") {
        Some(KnownEncoding::Gbk)
    } else if l == text_bytes("big5") || l == text_bytes("cp950") {
        Some(KnownEncoding::Big5)
    } else if l == text_bytes("shift-jis") || l == text_bytes("shift_jis") || l == text_bytes("sjis") || l == text_bytes("cp932") {
        Some(KnownEncoding::ShiftJis)
    } else if l == text_bytes("euc-kr") || l == text_bytes("euckr") || l == text_bytes("cp949") {
        Some(KnownEncoding::EucKr)
    } else {
        None
    }
}

/// The name of the encoding that the WHATWG encoding standard's table of labels gives
/// for `label`, if it gives one.
pub uninterp spec fn label_encoding(label: Seq<u8>) -> Option<Seq<char>>;

/// The text `encoding_rs` decodes `bytes` to in the encoding of that name, a byte order
/// mark overriding it.
pub uninterp spec fn encoding_decode(name: Seq<char>, bytes: Seq<u8>) -> Seq<char>;

/// The text `String::from_utf8_lossy` reads `bytes` as.
pub uninterp spec fn utf8_lossy_text(bytes: Seq<u8>) -> Seq<char>;

/// The name `encoding_rs` gives each of the common encodings.
pub open spec fn spec_known_name(k: KnownEncoding) -> Seq<char> {
    match k {
        KnownEncoding::Utf8 => "UTF-8"@,
        KnownEncoding::Gbk => "GBK"@,
        KnownEncoding::Big5 => "Big5"@,
        KnownEncoding::ShiftJis => "Shift_JIS"@,
        KnownEncoding::EucKr => "EUC-KR"@,
    }
}

/// An `encoding_rs` encoding together with its name, which tells it apart from every other.
#[derive(Debug, Clone, Copy)]
pub struct LabeledEncoding {
    encoding: &'static Encoding,
    name: &'static str,
}

impl LabeledEncoding {
    /// The encoding's name.
    pub closed spec fn spec_name(self) -> Seq<char> {
        self.name@
    }

    /// The name `encoding_rs` gives the encoding.
    pub fn name(self) -> (r: &'static str)
        ensures
            r@ == self.spec_name(),
    {
        self.name
    }

    /// The `encoding_rs` encoding.
    pub fn encoding(self) -> (r: &'static Encoding) {
        self.encoding
    }
}

/// The name of the encoding held by an optional result.
pub open spec fn spec_encoding_name(r: Option<LabeledEncoding>) -> Option<Seq<char>> {
    match r {
        Some(e) => Some(e.spec_name()),
        None => None,
    }
}

/// `encoding_rs::Encoding::for_label`, the WHATWG "get an encoding" lookup, with the name
/// (`Encoding::name`) of the encoding it finds: claimed to be `label_encoding` of the label.
#[verifier::external_body]
fn encoding_for_label(label: &[u8]) -> (r: Option<LabeledEncoding>)
    ensures
        spec_encoding_name(r) == label_encoding(label@),
{
    match Encoding::for_label(label) {
        Some(e) => Some(LabeledEncoding { encoding: e, name: e.name() }),
        None => None,
    }
}

/// The `encoding_rs` static for one of the common encodings, with its name
/// (`Encoding::name`), which the crate's source gives as `spec_known_name`.
#[verifier::external_body]
fn known_encoding(k: KnownEncoding) -> (r: LabeledEncoding)
    ensures
        r.spec_name() == spec_known_name(k),
{
    let e = match k {
        KnownEncoding::Utf8 => encoding_rs::UTF_8,
        KnownEncoding::Gbk => encoding_rs::GBK,
        KnownEncoding::Big5 => encoding_rs::BIG5,
        KnownEncoding::ShiftJis => encoding_rs::SHIFT_JIS,
        KnownEncoding::EucKr => encoding_rs::EUC_KR,
    };
    LabeledEncoding { encoding: e, name: e.name() }
}

impl KnownEncoding {
    /// The `encoding_rs` encoding of this name.
    pub fn encoding(self) -> (r: LabeledEncoding)
        ensures
            r.spec_name() == spec_known_name(self),
    {
        known_encoding(self)
    }
}

/// The encoding `label` names: `None` where the WHATWG table gives none.
pub fn encoding_from_label(label: &[u8]) -> (r: Option<LabeledEncoding>)
    ensures
        spec_encoding_name(r) == label_encoding(label@),
{
    encoding_for_label(label)
}

fn last_index_of(s: &Vec<char>, c: char) -> (r: Option<usize>)
    ensures
        match r {
            Some(i) => i < s@.len() && spec_last_index_of(s@, c) == Some(i as int),
            None => spec_last_index_of(s@, c) is None,
        },
{
    let mut n = s.len();
    proof {
        assert(s@.subrange(0, n as int) =~= s@);
    }
    while n > 0
        invariant
            n <= s@.len(),
            spec_last_index_of(s@, c) == spec_last_index_of(s@.subrange(0, n as int), c),
        decreases n,
    {
        let ghost t = s@.subrange(0, n as int);
        proof {
            assert(t.drop_last() =~= s@.subrange(0, n - 1));
        }
        if s[n - 1] == c {
            proof {
                lemma_last_index_bounds(s@, c);
            }
            return Some(n - 1);
        }
        n = n - 1;
    }
    proof {
        assert(s@.subrange(0, 0) =~= Seq::<char>::empty());
    }
    None
}

fn known_label(l: &[u8]) -> (r: Option<KnownEncoding>)
    ensures
        r == spec_known_label(l@),
{
    if bytes_equal_text(l, "utf-8") || bytes_equal_text(l, "utf8") {
        Some(KnownEncoding::Utf8)
    } else if bytes_equal_text(l, "gbk") || bytes_equal_text(l, "gb2312") || bytes_equal_text(l, "gb18030")
        || bytes_equal_text(l, "cp936") {
        Some(KnownEncoding::Gbk)
    } else if bytes_equal_text(l, "big5") || bytes_equal_text(l, "cp950") {
        Some(KnownEncoding::Big5)
    } else if bytes_equal_text(l, "shift-jis") || bytes_equal_text(l, "shift_jis") || bytes_equal_text(l, "sjis")
        || bytes_equal_text(l, "cp932") {
        Some(KnownEncoding::ShiftJis)
    } else if bytes_equal_text(l, "euc-kr") || bytes_equal_text(l, "euckr") || bytes_equal_text(l, "cp949") {
        Some(KnownEncoding::EucKr)
    } else {
        None
    }
}

proof fn lemma_last_index_bounds(s: Seq<char>, c: char)
    ensures
        spec_last_index_of(s, c) matches Some(i) ==> 0 <= i < s.len() && s[i] == c,
    decreases s.len(),
{
    if s.len() > 0 && s.last() != c {
        lemma_last_index_bounds(s.drop_last(), c);
    }
}

/// The label a locale value such as `zh_CN.GBK` names its encoding by.
fn locale_label(value: &str) -> (r: Vec<u8>)
    ensures
        r@ == spec_locale_label(value@),
{
    let chars = str_chars(value);
    let len = chars.len();
    let after_dot = match last_index_of(&chars, '.') {
        Some(i) => value.substring_char(i + 1, len),
        None => value,
    };
    let ac = str_chars(after_dot);
    proof {
        lemma_find_bounds(ac@, '@', 0);
    }
    let at = find_char(&ac, '@', 0);
    let trimmed = trim_str(after_dot.substring_char(0, at));
    let bytes = trimmed.as_bytes();
    let mut out: Vec<u8> = Vec::new();
    let mut i: usize = 0;
    while i < bytes.len()
        invariant
            0 <= i <= bytes@.len(),
            bytes@ == text_bytes(trimmed),
            out@ == spec_label_bytes(bytes@).subrange(0, i as int),
        decreases bytes@.len() - i,
    {
        let b = bytes[i];
        let x = if b == 0x5Fu8 { 0x2Du8 } else { b };
        out.push(to_lower(x));
        proof {
            assert(spec_label_bytes(bytes@).subrange(0, i + 1) =~= spec_label_bytes(bytes@).subrange(0, i as int).push(
                spec_lower(x),
            ));
        }
        i = i + 1;
    }
    proof {
        assert(spec_label_bytes(bytes@).subrange(0, bytes@.len() as int) =~= spec_label_bytes(bytes@));
    }
    out
}

/// The name of the encoding a locale value names: one of the common ones by their usual
/// labels, else whatever the WHATWG table gives for the label.
pub open spec fn spec_locale_encoding(v: Seq<char>) -> Option<Seq<char>> {
    match spec_known_label(spec_locale_label(v)) {
        Some(k) => Some(spec_known_name(k)),
        None => label_encoding(spec_locale_label(v)),
    }
}

/// The encoding a locale value (`LC_ALL`, `LC_CTYPE` or `LANG`) names: one of the common
/// ones by their usual labels, else whatever the WHATWG table gives for the label.
pub fn encoding_from_locale_value(value: &str) -> (r: Option<LabeledEncoding>)
    ensures
        spec_encoding_name(r) == spec_locale_encoding(value@),
{
    let label = locale_label(value);
    match known_label(label.as_slice()) {
        Some(k) => Some(known_encoding(k)),
        None => encoding_for_label(label.as_slice()),
    }
}

/// An encoding choice resolved to the `encoding_rs` encoding that reads it.
#[derive(Debug, Clone, Copy)]
pub struct ResolvedTextEncoding {
    label: TextEncoding,
    encoding: LabeledEncoding,
}

/// The name of the encoding the first locale value that names one gives, else UTF-8.
pub open spec fn spec_local_encoding(values: Seq<Seq<char>>) -> Seq<char>
    decreases values.len(),
{
    if values.len() == 0 {
        "UTF-8"@
    } else {
        match spec_locale_encoding(values[0]) {
            Some(n) => n,
            None => spec_local_encoding(values.drop_first()),
        }
    }
}

/// The text of each string.
pub open spec fn spec_texts(values: Seq<String>) -> Seq<Seq<char>> {
    values.map_values(|s: String| s@)
}

/// The encoding the first locale value that names one gives, else UTF-8.
fn local_encoding(locale_values: &[String]) -> (r: LabeledEncoding)
    ensures
        r.spec_name() == spec_local_encoding(spec_texts(locale_values@)),
{
    let ghost all = spec_texts(locale_values@);
    let mut i: usize = 0;
    proof {
        assert(all.skip(0) =~= all);
    }
    while i < locale_values.len()
        invariant
            0 <= i <= locale_values@.len(),
            all == spec_texts(locale_values@),
            spec_local_encoding(all) == spec_local_encoding(all.skip(i as int)),
        decreases locale_values@.len() - i,
    {
        proof {
            assert(all.skip(i as int)[0] == locale_values@[i as int]@);
            assert(all.skip(i as int).drop_first() =~= all.skip(i + 1));
        }
        match encoding_from_locale_value(locale_values[i].as_str()) {
            Some(e) => return e,
            None => {},
        }
        i = i + 1;
    }
    proof {
        assert(all.skip(i as int).len() == 0);
    }
    known_encoding(KnownEncoding::Utf8)
}

/// Whether a Windows ANSI code page names one of the common encodings outright.
pub open spec fn spec_known_code_page(code_page: u32) -> bool {
    code_page == 65001 || code_page == 936 || code_page == 54936 || code_page == 950 || code_page == 932
        || code_page == 949
}

/// The label `windows-NNNN` of a code page from 1250 to 1258.
pub open spec fn spec_code_page_label(code_page: u32) -> Seq<u8> {
    text_bytes("windows-125") + seq![(48 + (code_page - 1250)) as u8]
}

/// The name of the encoding of a Windows ANSI code page: the common ones directly, the
/// Windows code pages 1250 to 1258 by their `windows-NNNN` label, no other.
pub open spec fn spec_code_page_encoding(code_page: u32) -> Option<Seq<char>> {
    if code_page == 65001 {
        Some(spec_known_name(KnownEncoding::Utf8))
    } else if code_page == 936 || code_page == 54936 {
        Some(spec_known_name(KnownEncoding::Gbk))
    } else if code_page == 950 {
        Some(spec_known_name(KnownEncoding::Big5))
    } else if code_page == 932 {
        Some(spec_known_name(KnownEncoding::ShiftJis))
    } else if code_page == 949 {
        Some(spec_known_name(KnownEncoding::EucKr))
    } else if 1250 <= code_page <= 1258 {
        label_encoding(spec_code_page_label(code_page))
    } else {
        None
    }
}

/// The encoding of a Windows ANSI code page: the common ones directly, the Windows code
/// pages 1250 to 1258 by their `windows-NNNN` label, no other.
pub fn encoding_for_windows_code_page(code_page: u32) -> (r: Option<LabeledEncoding>)
    ensures
        spec_encoding_name(r) == spec_code_page_encoding(code_page),
{
    match code_page {
        65001 => Some(known_encoding(KnownEncoding::Utf8)),
        936 | 54936 => Some(known_encoding(KnownEncoding::Gbk)),
        950 => Some(known_encoding(KnownEncoding::Big5)),
        932 => Some(known_encoding(KnownEncoding::ShiftJis)),
        949 => Some(known_encoding(KnownEncoding::EucKr)),
        1250..=1258 => {
            let mut label: Vec<u8> = Vec::new();
            let prefix = "windows-125".as_bytes();
            let mut i: usize = 0;
            while i < prefix.len()
                invariant
                    0 <= i <= prefix@.len(),
                    prefix@ == text_bytes("windows-125"),
                    label@ == prefix@.subrange(0, i as int),
                decreases prefix@.len() - i,
            {
                label.push(prefix[i]);
                proof {
                    assert(prefix@.subrange(0, i + 1) =~= prefix@.subrange(0, i as int).push(prefix@[i as int]));
                }
                i = i + 1;
            }
            let digit = (48 + (code_page - 1250)) as u8;
            label.push(digit);
            proof {
                assert(prefix@.subrange(0, prefix@.len() as int) =~= prefix@);
                assert(label@ =~= spec_code_page_label(code_page));
            }
            encoding_for_label(label.as_slice())
        },
        _ => None,
    }
}

/// The name of the encoding a choice resolves to where the local encoding is the one named
/// `local`, if any; UTF-8 otherwise.
pub open spec fn spec_resolved_name(choice: TextEncoding, local: Option<Seq<char>>) -> Seq<char> {
    match (choice, local) {
        (TextEncoding::Local, Some(n)) => n,
        _ => "UTF-8"@,
    }
}

impl TextEncoding {
    /// The encoding that reads text of this choice where the local encoding is the Windows
    /// ANSI code page `code_page` (UTF-8 when the code page names none).
    pub fn resolve_with_code_page(self, code_page: u32) -> (r: ResolvedTextEncoding)
        ensures
            r.label() == self,
            r.encoding_name() == spec_resolved_name(self, spec_code_page_encoding(code_page)),
    {
        let encoding = match self {
            TextEncoding::Utf8 => known_encoding(KnownEncoding::Utf8),
            TextEncoding::Local => match encoding_for_windows_code_page(code_page) {
                Some(e) => e,
                None => known_encoding(KnownEncoding::Utf8),
            },
        };
        ResolvedTextEncoding { label: self, encoding }
    }

    /// The encoding that reads text of this choice. The local encoding is named by the
    /// locale values `LC_ALL`, `LC_CTYPE` and `LANG`, in that order, which the caller reads.
    pub fn resolve(self, locale_values: &[String]) -> (r: ResolvedTextEncoding)
        ensures
            r.label() == self,
            r.encoding_name() == spec_resolved_name(self, Some(spec_local_encoding(spec_texts(locale_values@)))),
    {
        let encoding = match self {
            TextEncoding::Utf8 => known_encoding(KnownEncoding::Utf8),
            TextEncoding::Local => local_encoding(locale_values),
        };
        ResolvedTextEncoding { label: self, encoding }
    }
}

impl ResolvedTextEncoding {
    /// The choice this encoding was resolved from.
    pub closed spec fn label(self) -> TextEncoding {
        self.label
    }

    /// The name of the encoding that reads the text.
    pub closed spec fn encoding_name(self) -> Seq<char> {
        self.encoding.spec_name()
    }

    pub fn config_label(self) -> (r: &'static str)
        ensures
            r@ == spec_config_label(self.label()),
    {
        self.label.config_label()
    }

    /// The encoding that reads the text.
    pub fn encoding(self) -> (r: LabeledEncoding)
        ensures
            r.spec_name() == self.encoding_name(),
    {
        self.encoding
    }

    /// Reads `bytes` as text in the resolved encoding.
    pub fn decode<'a>(self, bytes: &'a [u8]) -> (r: Cow<'a, str>)
        requires
            bytes@.len() <= usize::MAX / 8,
        ensures
            r@ == spec_decode(self.encoding_name(), bytes@),
            self.encoding_name() == "UTF-8"@ && valid_utf8(bytes@) ==> r@ == decode_utf8(bytes@),
    {
        decode_with_encoding(self.encoding, bytes)
    }
}

/// The text `bytes` read in the encoding named `name`: UTF-8 leniently, any other through
/// `encoding_rs`.
pub open spec fn spec_decode(name: Seq<char>, bytes: Seq<u8>) -> Seq<char> {
    if name == "UTF-8"@ {
        utf8_lossy_text(bytes)
    } else {
        encoding_decode(name, bytes)
    }
}

/// `String::from_utf8_lossy`: claimed to give `utf8_lossy_text` of the bytes, and, as std
/// documents, the text they encode where they are valid UTF-8.
#[verifier::external_body]
fn utf8_lossy<'a>(bytes: &'a [u8]) -> (r: Cow<'a, str>)
    ensures
        r@ == utf8_lossy_text(bytes@),
        valid_utf8(bytes@) ==> r@ == decode_utf8(bytes@),
{
    String::from_utf8_lossy(bytes)
}

/// `encoding_rs::Encoding::decode`, keeping the text and dropping the flags: claimed to give
/// `encoding_decode` of the encoding's name and the bytes. It panics where the size of its
/// output buffer overflows `usize`, which inputs of up to an eighth of it stay clear of.
#[verifier::external_body]
fn decode_in<'a>(encoding: LabeledEncoding, bytes: &'a [u8]) -> (r: Cow<'a, str>)
    requires
        bytes@.len() <= usize::MAX / 8,
    ensures
        r@ == encoding_decode(encoding.spec_name(), bytes@),
{
    let (decoded, _, _) = encoding.encoding.decode(bytes);
    decoded
}

/// Reads `bytes` as text: UTF-8 leniently, any other encoding through `encoding_rs`.
pub fn decode_with_encoding<'a>(encoding: LabeledEncoding, bytes: &'a [u8]) -> (r: Cow<'a, str>)
    requires
        bytes@.len() <= usize::MAX / 8,
    ensures
        r@ == spec_decode(encoding.spec_name(), bytes@),
        encoding.spec_name() == "UTF-8"@ && valid_utf8(bytes@) ==> r@ == decode_utf8(bytes@),
{
    if crate::util::str_equal(encoding.name, "UTF-8") {
        utf8_lossy(bytes)
    } else {
        decode_in(encoding, bytes)
    }
}

} // verus!
