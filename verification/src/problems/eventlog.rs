//! Strict parsing for the small subset of the AOSP ActivityManager EventLog schema that
//! problem recognition reads.
//!
//! This parser only establishes that textual input matches an AOSP-shaped
//! schema. It deliberately does not assign source provenance.
use vstd::prelude::*;
use vstd::utf8::encode_utf8;
use vstd::string::StringSliceAdditionalSpecFns;
use crate::parser::all_digit_chars;

verus! {

pub const MAX_EVENTLOG_PAYLOAD_BYTES: usize = 64 * 1024;

pub const MAX_EVENTLOG_FIELD_BYTES: usize = 16 * 1024;

pub const MAX_EVENTLOG_FIELDS: usize = 32;

pub const MAX_AMBIGUOUS_SCHEMA_MATCHES: usize = 4;

#[derive(Debug, Clone, Copy, PartialEq, Eq, Hash, Structural)]
pub enum EventLogSchemaId {
    AmAnrLegacyNoUser,
    AmAnrUserPrefixed,
    AmProcDiedLegacyNoUser,
    AmProcDiedUserPrefixed,
    AmProcDiedModernTailNoUser,
    AmProcDiedModernTail,
    AmProcStartLegacyNoUser,
    AmProcStartUserPrefixed,
    AmCrashLegacyNoUser,
    AmCrashUserPrefixed,
    AmCrashModernTailNoUser,
    AmCrashModernTail,
    AmKillLegacyNoUser,
    AmKillUserPrefixed,
    AmKillModernTailNoUser,
    AmKillModernTail,
}

impl EventLogSchemaId {
    /// The number of fields the schema defines.
    pub open spec fn spec_nominal_arity(self) -> u8 {
        match self {
            EventLogSchemaId::AmAnrLegacyNoUser => 4,
            EventLogSchemaId::AmAnrUserPrefixed => 5,
            EventLogSchemaId::AmProcDiedLegacyNoUser => 2,
            EventLogSchemaId::AmProcDiedUserPrefixed => 3,
            EventLogSchemaId::AmProcDiedModernTailNoUser => 4,
            EventLogSchemaId::AmProcDiedModernTail => 5,
            EventLogSchemaId::AmProcStartLegacyNoUser => 5,
            EventLogSchemaId::AmProcStartUserPrefixed => 6,
            EventLogSchemaId::AmCrashLegacyNoUser => 7,
            EventLogSchemaId::AmCrashUserPrefixed => 8,
            EventLogSchemaId::AmCrashModernTailNoUser => 8,
            EventLogSchemaId::AmCrashModernTail => 9,
            EventLogSchemaId::AmKillLegacyNoUser => 4,
            EventLogSchemaId::AmKillUserPrefixed => 5,
            EventLogSchemaId::AmKillModernTailNoUser => 5,
            EventLogSchemaId::AmKillModernTail => 6,
        }
    }

    pub fn nominal_arity(self) -> (r: u8)
        ensures
            r == self.spec_nominal_arity(),
    {
        match self {
            EventLogSchemaId::AmAnrLegacyNoUser => 4,
            EventLogSchemaId::AmAnrUserPrefixed => 5,
            EventLogSchemaId::AmProcDiedLegacyNoUser => 2,
            EventLogSchemaId::AmProcDiedUserPrefixed => 3,
            EventLogSchemaId::AmProcDiedModernTailNoUser => 4,
            EventLogSchemaId::AmProcDiedModernTail => 5,
            EventLogSchemaId::AmProcStartLegacyNoUser => 5,
            EventLogSchemaId::AmProcStartUserPrefixed => 6,
            EventLogSchemaId::AmCrashLegacyNoUser => 7,
            EventLogSchemaId::AmCrashUserPrefixed => 8,
            EventLogSchemaId::AmCrashModernTailNoUser => 8,
            EventLogSchemaId::AmCrashModernTail => 9,
            EventLogSchemaId::AmKillLegacyNoUser => 4,
            EventLogSchemaId::AmKillUserPrefixed => 5,
            EventLogSchemaId::AmKillModernTailNoUser => 5,
            EventLogSchemaId::AmKillModernTail => 6,
        }
    }
}

#[derive(Debug, Clone, Copy, PartialEq, Eq, Structural)]
pub struct SchemaMatch {
    pub schema: EventLogSchemaId,
    pub nominal_arity: u8,
    pub observed_arity: u8,
}

#[derive(Debug, Clone, Copy, PartialEq, Eq)]
pub struct AmbiguousSchemaMatches {
    pub matches: [Option<SchemaMatch>; MAX_AMBIGUOUS_SCHEMA_MATCHES],
    pub count: u8,
}

#[derive(Debug, Clone, Copy, PartialEq, Eq, Structural)]
pub enum MalformedEventLog {
    InvalidEnvelope,
    EmptyPayload,
    PayloadTooLong,
    TooManyFields,
    FieldTooLong,
    InvalidNumber,
    NumericOverflow,
    InvalidText,
    NoMatchingSchema,
}

#[derive(Debug, Clone, Copy, PartialEq, Eq)]
pub enum EventLogParseError {
    UnsupportedTag,
    Malformed(MalformedEventLog),
    Ambiguous(AmbiguousSchemaMatches),
}

#[derive(Debug, Clone, Copy, PartialEq, Eq)]
pub struct AmAnr<'a> {
    pub schema: EventLogSchemaId,
    pub user_id: Option<i32>,
    pub pid: u32,
    pub package_name: &'a str,
    pub flags: i32,
    pub reason: &'a str,
}

#[derive(Debug, Clone, Copy, PartialEq, Eq)]
pub struct AmProcDied<'a> {
    pub schema: EventLogSchemaId,
    pub user_id: Option<i32>,
    pub pid: u32,
    pub process_name: &'a str,
    pub oom_adj: Option<i32>,
    pub proc_state: Option<i32>,
}

#[derive(Debug, Clone, Copy, PartialEq, Eq)]
pub struct AmProcStart<'a> {
    pub schema: EventLogSchemaId,
    pub user_id: Option<i32>,
    pub pid: u32,
    pub uid: u32,
    pub process_name: &'a str,
    pub start_type: &'a str,
    pub component: &'a str,
}

#[derive(Debug, Clone, Copy, PartialEq, Eq)]
pub struct AmCrash<'a> {
    pub schema: EventLogSchemaId,
    pub user_id: Option<i32>,
    pub pid: u32,
    pub process_name: &'a str,
    pub flags: i32,
    pub exception: &'a str,
    pub message: &'a str,
    pub file: &'a str,
    pub line: i32,
    pub recoverable: Option<bool>,
}

#[derive(Debug, Clone, Copy, PartialEq, Eq)]
pub struct AmKill<'a> {
    pub schema: EventLogSchemaId,
    pub user_id: Option<i32>,
    pub pid: u32,
    pub process_name: &'a str,
    pub oom_adj: i32,
    pub reason: &'a str,
    pub rss: Option<u64>,
}

#[derive(Debug, Clone, Copy, PartialEq, Eq)]
pub enum EventLogRecord<'a> {
    Anr(AmAnr<'a>),
    ProcDied(AmProcDied<'a>),
    ProcStart(AmProcStart<'a>),
    Crash(AmCrash<'a>),
    Kill(AmKill<'a>),
}

/// The abstract value of an `am_anr` record.
pub struct AmAnrView {
    pub schema: EventLogSchemaId,
    pub user_id: Option<i32>,
    pub pid: u32,
    pub package_name: Seq<char>,
    pub flags: i32,
    pub reason: Seq<char>,
}

/// The abstract value of an `am_proc_died` record.
pub struct AmProcDiedView {
    pub schema: EventLogSchemaId,
    pub user_id: Option<i32>,
    pub pid: u32,
    pub process_name: Seq<char>,
    pub oom_adj: Option<i32>,
    pub proc_state: Option<i32>,
}

/// The abstract value of an `am_proc_start` record.
pub struct AmProcStartView {
    pub schema: EventLogSchemaId,
    pub user_id: Option<i32>,
    pub pid: u32,
    pub uid: u32,
    pub process_name: Seq<char>,
    pub start_type: Seq<char>,
    pub component: Seq<char>,
}

/// The abstract value of an `am_crash` record.
pub struct AmCrashView {
    pub schema: EventLogSchemaId,
    pub user_id: Option<i32>,
    pub pid: u32,
    pub process_name: Seq<char>,
    pub flags: i32,
    pub exception: Seq<char>,
    pub message: Seq<char>,
    pub file: Seq<char>,
    pub line: i32,
    pub recoverable: Option<bool>,
}

/// The abstract value of an `am_kill` record.
pub struct AmKillView {
    pub schema: EventLogSchemaId,
    pub user_id: Option<i32>,
    pub pid: u32,
    pub process_name: Seq<char>,
    pub oom_adj: i32,
    pub reason: Seq<char>,
    pub rss: Option<u64>,
}

/// The abstract value of a parsed record.
pub enum RecordView {
    Anr(AmAnrView),
    ProcDied(AmProcDiedView),
    ProcStart(AmProcStartView),
    Crash(AmCrashView),
    Kill(AmKillView),
}

impl RecordView {
    pub open spec fn schema(self) -> EventLogSchemaId {
        match self {
            RecordView::Anr(r) => r.schema,
            RecordView::ProcDied(r) => r.schema,
            RecordView::ProcStart(r) => r.schema,
            RecordView::Crash(r) => r.schema,
            RecordView::Kill(r) => r.schema,
        }
    }
}

impl<'a> View for EventLogRecord<'a> {
    type V = RecordView;

    open spec fn view(&self) -> RecordView {
        match self {
            EventLogRecord::Anr(r) => RecordView::Anr(
                AmAnrView {
                    schema: r.schema,
                    user_id: r.user_id,
                    pid: r.pid,
                    package_name: r.package_name@,
                    flags: r.flags,
                    reason: r.reason@,
                },
            ),
            EventLogRecord::ProcDied(r) => RecordView::ProcDied(
                AmProcDiedView {
                    schema: r.schema,
                    user_id: r.user_id,
                    pid: r.pid,
                    process_name: r.process_name@,
                    oom_adj: r.oom_adj,
                    proc_state: r.proc_state,
                },
            ),
            EventLogRecord::ProcStart(r) => RecordView::ProcStart(
                AmProcStartView {
                    schema: r.schema,
                    user_id: r.user_id,
                    pid: r.pid,
                    uid: r.uid,
                    process_name: r.process_name@,
                    start_type: r.start_type@,
                    component: r.component@,
                },
            ),
            EventLogRecord::Crash(r) => RecordView::Crash(
                AmCrashView {
                    schema: r.schema,
                    user_id: r.user_id,
                    pid: r.pid,
                    process_name: r.process_name@,
                    flags: r.flags,
                    exception: r.exception@,
                    message: r.message@,
                    file: r.file@,
                    line: r.line,
                    recoverable: r.recoverable,
                },
            ),
            EventLogRecord::Kill(r) => RecordView::Kill(
                AmKillView {
                    schema: r.schema,
                    user_id: r.user_id,
                    pid: r.pid,
                    process_name: r.process_name@,
                    oom_adj: r.oom_adj,
                    reason: r.reason@,
                    rss: r.rss,
                },
            ),
        }
    }
}

impl<'a> EventLogRecord<'a> {
    pub fn schema(&self) -> (r: EventLogSchemaId)
        ensures
            r == self@.schema(),
    {
        match self {
            EventLogRecord::Anr(record) => record.schema,
            EventLogRecord::ProcDied(record) => record.schema,
            EventLogRecord::ProcStart(record) => record.schema,
            EventLogRecord::Crash(record) => record.schema,
            EventLogRecord::Kill(record) => record.schema,
        }
    }
}

/// Why one schema did not match.
#[derive(Debug, Clone, Copy, PartialEq, Eq, Structural)]
pub enum SchemaFailure {
    Shape,
    InvalidNumber,
    NumericOverflow,
    InvalidText,
    FieldTooLong,
}

/// ASCII whitespace, as `char::is_ascii_whitespace` defines it.
pub open spec fn spec_aws(c: char) -> bool {
    c == ' ' || c == '\t' || c == '\n' || c == '\x0C' || c == '\r'
}

pub fn is_aws(c: char) -> (r: bool)
    ensures
        r == spec_aws(c),
{
    c == ' ' || c == '\t' || c == '\n' || c == '\x0C' || c == '\r'
}

/// The control characters (general category Cc), as `char::is_control` defines them.
pub open spec fn spec_control_char(c: char) -> bool {
    (c as u32) <= 0x1F || (0x7F <= (c as u32) && (c as u32) <= 0x9F)
}

/// An ASCII letter.
pub open spec fn spec_alpha_char(c: char) -> bool {
    ('a' <= c && c <= 'z') || ('A' <= c && c <= 'Z')
}

/// The number of UTF-8 bytes that encode `s`.
pub open spec fn spec_utf8_len(s: Seq<char>) -> int {
    encode_utf8(s).len() as int
}

/// Text that fits a field and holds no control character.
pub open spec fn spec_valid_text(v: Seq<char>) -> bool {
    spec_utf8_len(v) <= MAX_EVENTLOG_FIELD_BYTES && forall|i: int|
        0 <= i < v.len() ==> !spec_control_char(#[trigger] v[i])
}

/// Whether `v` holds an ASCII letter.
pub open spec fn spec_has_alpha(v: Seq<char>) -> bool {
    exists|i: int| 0 <= i < v.len() && spec_alpha_char(#[trigger] v[i])
}

/// Whether `v` holds a square bracket.
pub open spec fn spec_has_bracket(v: Seq<char>) -> bool {
    exists|i: int| 0 <= i < v.len() && (#[trigger] v[i] == '[' || v[i] == ']')
}

/// What `char` scans of a field find: a control character, an ASCII letter, a bracket.
struct TextScan {
    control: bool,
    alpha: bool,
    bracket: bool,
}

fn scan_text(value: &str) -> (r: TextScan)
    ensures
        r.control == !(forall|i: int| 0 <= i < value@.len() ==> !spec_control_char(#[trigger] value@[i])),
        r.alpha == spec_has_alpha(value@),
        r.bracket == spec_has_bracket(value@),
{
    let mut control = false;
    let mut alpha = false;
    let mut bracket = false;
    for c in it: value.chars()
        invariant
            it.seq() == value@,
            control == !(forall|i: int| 0 <= i < it.index() ==> !spec_control_char(#[trigger] value@[i])),
            alpha == (exists|i: int| 0 <= i < it.index() && spec_alpha_char(#[trigger] value@[i])),
            bracket == (exists|i: int| 0 <= i < it.index() && (#[trigger] value@[i] == '[' || value@[i] == ']')),
    {
        let ghost k = it.index();
        let u = c as u32;
        if u <= 0x1F || (0x7F <= u && u <= 0x9F) {
            control = true;
        }
        if ('a' <= c && c <= 'z') || ('A' <= c && c <= 'Z') {
            alpha = true;
        }
        if c == '[' || c == ']' {
            bracket = true;
        }
        proof {
            assert(value@[k] == c);
            if !control {
                assert forall|i: int| 0 <= i < k + 1 implies !spec_control_char(#[trigger] value@[i]) by {
                    if i == k {
                    }
                }
            }
            if alpha {
                if !spec_alpha_char(c) {
                    let w = choose|i: int| 0 <= i < k && spec_alpha_char(#[trigger] value@[i]);
                    assert(0 <= w < k + 1 && spec_alpha_char(value@[w]));
                } else {
                    assert(0 <= k < k + 1 && spec_alpha_char(value@[k]));
                }
            } else {
                assert forall|i: int| 0 <= i < k + 1 implies !spec_alpha_char(#[trigger] value@[i]) by {
                    if i == k {
                    }
                }
            }
            if bracket {
                if !(c == '[' || c == ']') {
                    let w = choose|i: int| 0 <= i < k && (#[trigger] value@[i] == '[' || value@[i] == ']');
                    assert(0 <= w < k + 1 && (value@[w] == '[' || value@[w] == ']'));
                } else {
                    assert(0 <= k < k + 1 && (value@[k] == '[' || value@[k] == ']'));
                }
            } else {
                assert forall|i: int| 0 <= i < k + 1 implies !(#[trigger] value@[i] == '[' || value@[i] == ']') by {
                    if i == k {
                    }
                }
            }
        }
    }
    TextScan { control, alpha, bracket }
}

fn valid_text(value: &str) -> (r: bool)
    ensures
        r == spec_valid_text(value@),
{
    value.as_bytes().len() <= MAX_EVENTLOG_FIELD_BYTES && !scan_text(value).control
}

/// A process or class name: valid text, not empty, with a letter and no bracket.
pub open spec fn spec_parse_name(v: Seq<char>) -> Result<Seq<char>, SchemaFailure> {
    if !spec_valid_text(v) || v.len() == 0 || !spec_has_alpha(v) || spec_has_bracket(v) {
        Err(SchemaFailure::InvalidText)
    } else {
        Ok(v)
    }
}

fn parse_name(value: &str) -> (r: Result<&str, SchemaFailure>)
    ensures
        match r {
            Ok(s) => spec_parse_name(value@) == Ok::<Seq<char>, SchemaFailure>(s@),
            Err(e) => spec_parse_name(value@) == Err::<Seq<char>, SchemaFailure>(e),
        },
{
    let scan = scan_text(value);
    if !valid_text(value) || value.unicode_len() == 0 || !scan.alpha || scan.bracket {
        return Err(SchemaFailure::InvalidText);
    }
    Ok(value)
}

/// Valid, non-empty text.
pub open spec fn spec_parse_required_text(v: Seq<char>) -> Result<Seq<char>, SchemaFailure> {
    if v.len() == 0 || !spec_valid_text(v) {
        Err(SchemaFailure::InvalidText)
    } else {
        Ok(v)
    }
}

fn parse_required_text(value: &str) -> (r: Result<&str, SchemaFailure>)
    ensures
        match r {
            Ok(s) => spec_parse_required_text(value@) == Ok::<Seq<char>, SchemaFailure>(s@),
            Err(e) => spec_parse_required_text(value@) == Err::<Seq<char>, SchemaFailure>(e),
        },
{
    if value.unicode_len() == 0 || !valid_text(value) {
        return Err(SchemaFailure::InvalidText);
    }
    Ok(value)
}

/// Valid text, possibly empty.
pub open spec fn spec_parse_optional_text(v: Seq<char>) -> Result<Seq<char>, SchemaFailure> {
    if !spec_valid_text(v) {
        Err(SchemaFailure::InvalidText)
    } else {
        Ok(v)
    }
}

fn parse_optional_text(value: &str) -> (r: Result<&str, SchemaFailure>)
    ensures
        match r {
            Ok(s) => spec_parse_optional_text(value@) == Ok::<Seq<char>, SchemaFailure>(s@),
            Err(e) => spec_parse_optional_text(value@) == Err::<Seq<char>, SchemaFailure>(e),
        },
{
    if !valid_text(value) {
        return Err(SchemaFailure::InvalidText);
    }
    Ok(value)
}

/// A source file name: valid text that is empty or holds a letter.
pub open spec fn spec_parse_source_file(v: Seq<char>) -> Result<Seq<char>, SchemaFailure> {
    if !spec_valid_text(v) || (v.len() > 0 && !spec_has_alpha(v)) {
        Err(SchemaFailure::InvalidText)
    } else {
        Ok(v)
    }
}

fn parse_source_file(value: &str) -> (r: Result<&str, SchemaFailure>)
    ensures
        match r {
            Ok(s) => spec_parse_source_file(value@) == Ok::<Seq<char>, SchemaFailure>(s@),
            Err(e) => spec_parse_source_file(value@) == Err::<Seq<char>, SchemaFailure>(e),
        },
{
    if !valid_text(value) || (value.unicode_len() > 0 && !scan_text(value).alpha) {
        return Err(SchemaFailure::InvalidText);
    }
    Ok(value)
}

/// The value of a run of decimal digits.
pub open spec fn spec_digits_value(d: Seq<char>) -> int
    decreases d.len(),
{
    if d.len() == 0 {
        0
    } else {
        spec_digits_value(d.drop_last()) * 10 + (d.last() as int - '0' as int)
    }
}

/// The digits of a number: the text after an optional leading `-`.
pub open spec fn spec_number_digits(v: Seq<char>) -> Seq<char> {
    if v.len() > 0 && v[0] == '-' {
        v.drop_first()
    } else {
        v
    }
}

/// A signed decimal number that fits `i64`.
pub open spec fn spec_parse_i64(v: Seq<char>) -> Result<i64, SchemaFailure> {
    let d = spec_number_digits(v);
    if d.len() == 0 || !all_digit_chars(d) {
        Err(SchemaFailure::InvalidNumber)
    } else {
        let value = if v[0] == '-' {
            -spec_digits_value(d)
        } else {
            spec_digits_value(d)
        };
        if i64::MIN <= value <= i64::MAX {
            Ok(value as i64)
        } else {
            Err(SchemaFailure::NumericOverflow)
        }
    }
}

proof fn lemma_digits_value_step(d: Seq<char>, k: int)
    requires
        0 <= k < d.len(),
        all_digit_chars(d),
    ensures
        spec_digits_value(d.subrange(0, k + 1)) == spec_digits_value(d.subrange(0, k)) * 10 + (d[k]
            as int - '0' as int),
        spec_digits_value(d.subrange(0, k)) >= 0,
{
    assert(d.subrange(0, k + 1).drop_last() =~= d.subrange(0, k));
    lemma_digits_value_nonneg(d.subrange(0, k));
}

proof fn lemma_digits_value_nonneg(d: Seq<char>)
    requires
        all_digit_chars(d),
    ensures
        spec_digits_value(d) >= 0,
    decreases d.len(),
{
    if d.len() > 0 {
        assert(all_digit_chars(d.drop_last())) by {
            assert forall|i: int| 0 <= i < d.drop_last().len() implies '0' <= #[trigger] d.drop_last()[i] <= '9' by {
                assert(d.drop_last()[i] == d[i]);
            }
        }
        lemma_digits_value_nonneg(d.drop_last());
    }
}

fn parse_i64(value: &str) -> (r: Result<i64, SchemaFailure>)
    ensures
        r == spec_parse_i64(value@),
{
    let ghost v = value@;
    let ghost d = spec_number_digits(v);
    let ghost off: int = if v.len() > 0 && v[0] == '-' { 1 } else { 0 };
    let limit: u128 = 0x8000_0000_0000_0000;
    let mut negative = false;
    let mut any_digit = false;
    let mut bad = false;
    let mut overflow = false;
    let mut acc: u128 = 0;
    let mut first = true;
    for c in it: value.chars()
        invariant
            it.seq() == v,
            first == (it.index() == 0),
            negative == (v.len() > 0 && v[0] == '-' && it.index() > 0),
            off == (if v.len() > 0 && v[0] == '-' { 1int } else { 0int }),
            d == v.subrange(off, v.len() as int),
            limit == 0x8000_0000_0000_0000u128,
            any_digit == (it.index() > off),
            bad == !(forall|i: int| off <= i < it.index() ==> '0' <= #[trigger] v[i] <= '9'),
            it.index() >= off && !bad ==> (overflow == (spec_digits_value(v.subrange(off, it.index() as int)) > limit)),
            it.index() >= off && !bad && !overflow ==> acc == spec_digits_value(v.subrange(off, it.index() as int)),
            it.index() < off ==> !overflow && acc == 0,
            acc <= limit,
    {
        let ghost index = it.index();
        proof {
            assert(v[index] == c);
            if index == 0 && off == 1 {
                assert(v.subrange(1, 1) =~= Seq::<char>::empty());
            }
        }
        if first && c == '-' {
            negative = true;
            proof {
                assert(v.subrange(off, index + 1) =~= Seq::<char>::empty());
            }
        } else if '0' <= c && c <= '9' {
            if !bad {
                proof {
                    assert(all_digit_chars(v.subrange(off, index + 1)));
                    lemma_digits_value_step(v.subrange(off, index + 1), index - off);
                    assert(v.subrange(off, index + 1).subrange(0, index - off) =~= v.subrange(off, index as int));
                    assert(v.subrange(off, index + 1).subrange(0, index - off + 1) =~= v.subrange(off, index + 1));
                }
                if !overflow {
                    let digit = (c as u32 - '0' as u32) as u128;
                    let next = acc * 10 + digit;
                    if next > limit {
                        overflow = true;
                    } else {
                        acc = next;
                    }
                }
            }
            any_digit = true;
        } else {
            bad = true;
            any_digit = true;
        }
        first = false;
    }
    proof {
        assert(v.subrange(off, v.len() as int) =~= d);
        if !bad {
            assert(all_digit_chars(d));
        } else {
            let w = choose|i: int| off <= i < v.len() && !('0' <= #[trigger] v[i] <= '9');
            assert(!('0' <= d[w - off] <= '9'));
        }
    }
    if bad || !any_digit {
        return Err(SchemaFailure::InvalidNumber);
    }
    if negative {
        if overflow {
            return Err(SchemaFailure::NumericOverflow);
        }
        if acc == limit {
            return Ok(i64::MIN);
        }
        return Ok(-(acc as i64));
    }
    if overflow || acc == limit {
        return Err(SchemaFailure::NumericOverflow);
    }
    Ok(acc as i64)
}

/// A number that fits `i32`.
pub open spec fn spec_parse_i32(v: Seq<char>) -> Result<i32, SchemaFailure> {
    match spec_parse_i64(v) {
        Err(e) => Err(e),
        Ok(x) => if i32::MIN <= x <= i32::MAX {
            Ok(x as i32)
        } else {
            Err(SchemaFailure::NumericOverflow)
        },
    }
}

fn parse_i32(value: &str) -> (r: Result<i32, SchemaFailure>)
    ensures
        r == spec_parse_i32(value@),
{
    let x = match parse_i64(value) {
        Ok(x) => x,
        Err(e) => return Err(e),
    };
    if x < i32::MIN as i64 || x > i32::MAX as i64 {
        return Err(SchemaFailure::NumericOverflow);
    }
    Ok(x as i32)
}

/// A process id: a positive `i32`.
pub open spec fn spec_parse_pid(v: Seq<char>) -> Result<u32, SchemaFailure> {
    match spec_parse_i32(v) {
        Err(e) => Err(e),
        Ok(x) => if x <= 0 {
            Err(SchemaFailure::InvalidNumber)
        } else {
            Ok(x as u32)
        },
    }
}

fn parse_pid(value: &str) -> (r: Result<u32, SchemaFailure>)
    ensures
        r == spec_parse_pid(value@),
{
    let x = match parse_i32(value) {
        Ok(x) => x,
        Err(e) => return Err(e),
    };
    if x <= 0 {
        return Err(SchemaFailure::InvalidNumber);
    }
    Ok(x as u32)
}

/// A user id: a non-negative `i32`.
pub open spec fn spec_parse_uid(v: Seq<char>) -> Result<u32, SchemaFailure> {
    match spec_parse_i32(v) {
        Err(e) => Err(e),
        Ok(x) => if x < 0 {
            Err(SchemaFailure::InvalidNumber)
        } else {
            Ok(x as u32)
        },
    }
}

fn parse_uid(value: &str) -> (r: Result<u32, SchemaFailure>)
    ensures
        r == spec_parse_uid(value@),
{
    let x = match parse_i32(value) {
        Ok(x) => x,
        Err(e) => return Err(e),
    };
    if x < 0 {
        return Err(SchemaFailure::InvalidNumber);
    }
    Ok(x as u32)
}

/// A non-negative `i64`.
pub open spec fn spec_parse_non_negative_i64(v: Seq<char>) -> Result<u64, SchemaFailure> {
    match spec_parse_i64(v) {
        Err(e) => Err(e),
        Ok(x) => if x < 0 {
            Err(SchemaFailure::InvalidNumber)
        } else {
            Ok(x as u64)
        },
    }
}

fn parse_non_negative_i64(value: &str) -> (r: Result<u64, SchemaFailure>)
    ensures
        r == spec_parse_non_negative_i64(value@),
{
    let x = match parse_i64(value) {
        Ok(x) => x,
        Err(e) => return Err(e),
    };
    if x < 0 {
        return Err(SchemaFailure::InvalidNumber);
    }
    Ok(x as u64)
}

/// `0` or `1` as a flag.
pub open spec fn spec_parse_bool_int(v: Seq<char>) -> Result<bool, SchemaFailure> {
    match spec_parse_i64(v) {
        Err(e) => Err(e),
        Ok(x) => if x == 0 {
            Ok(false)
        } else if x == 1 {
            Ok(true)
        } else {
            Err(SchemaFailure::InvalidNumber)
        },
    }
}

fn parse_bool_int(value: &str) -> (r: Result<bool, SchemaFailure>)
    ensures
        r == spec_parse_bool_int(value@),
{
    match parse_i64(value) {
        Err(e) => Err(e),
        Ok(x) => if x == 0 {
            Ok(false)
        } else if x == 1 {
            Ok(true)
        } else {
            Err(SchemaFailure::InvalidNumber)
        },
    }
}

/// The first index in `s[lo..hi]` that is not ASCII whitespace (or `hi`).
pub open spec fn spec_aws_start(s: Seq<char>, lo: int, hi: int) -> int
    decreases hi - lo,
{
    if lo < hi && spec_aws(s[lo]) {
        spec_aws_start(s, lo + 1, hi)
    } else {
        lo
    }
}

/// The end of `s[lo..hi]` once trailing ASCII whitespace is removed.
pub open spec fn spec_aws_end(s: Seq<char>, lo: int, hi: int) -> int
    decreases hi - lo,
{
    if lo < hi && spec_aws(s[hi - 1]) {
        spec_aws_end(s, lo, hi - 1)
    } else {
        hi
    }
}

pub proof fn lemma_aws_bounds(s: Seq<char>, lo: int, hi: int)
    requires
        lo <= hi,
    ensures
        lo <= spec_aws_start(s, lo, hi) <= hi,
        lo <= spec_aws_end(s, lo, hi) <= hi,
    decreases hi - lo,
{
    if lo < hi {
        lemma_aws_bounds(s, lo + 1, hi);
        lemma_aws_bounds(s, lo, hi - 1);
    }
}

fn aws_start(s: &Vec<char>, lo: usize, hi: usize) -> (r: usize)
    requires
        lo <= hi <= s@.len(),
    ensures
        r == spec_aws_start(s@, lo as int, hi as int),
        lo <= r <= hi,
{
    let mut i = lo;
    while i < hi && is_aws(s[i])
        invariant
            lo <= i <= hi <= s@.len(),
            spec_aws_start(s@, lo as int, hi as int) == spec_aws_start(s@, i as int, hi as int),
        decreases hi - i,
    {
        i = i + 1;
    }
    i
}

fn aws_end(s: &Vec<char>, lo: usize, hi: usize) -> (r: usize)
    requires
        lo <= hi <= s@.len(),
    ensures
        r == spec_aws_end(s@, lo as int, hi as int),
        lo <= r <= hi,
{
    let mut j = hi;
    while j > lo && is_aws(s[j - 1])
        invariant
            lo <= j <= hi <= s@.len(),
            spec_aws_end(s@, lo as int, hi as int) == spec_aws_end(s@, lo as int, j as int),
        decreases j,
    {
        j = j - 1;
    }
    j
}

/// The first comma at or after `i` (or the length).
pub open spec fn spec_comma_from(s: Seq<char>, i: int) -> int
    decreases s.len() - i,
{
    if 0 <= i < s.len() && s[i] != ',' {
        spec_comma_from(s, i + 1)
    } else {
        i
    }
}

pub proof fn lemma_comma_bounds(s: Seq<char>, i: int)
    requires
        0 <= i <= s.len(),
    ensures
        i <= spec_comma_from(s, i) <= s.len(),
        spec_comma_from(s, i) < s.len() ==> s[spec_comma_from(s, i)] == ',',
    decreases s.len() - i,
{
    if i < s.len() && s[i] != ',' {
        lemma_comma_bounds(s, i + 1);
    }
}

/// The trimmed spans (character ranges) of the comma-separated fields of `p` from `start` on.
pub open spec fn spec_field_spans(p: Seq<char>, start: int) -> Seq<(int, int)>
    decreases p.len() - start,
{
    if 0 <= start <= p.len() {
        let j = spec_comma_from(p, start);
        let ts = spec_aws_start(p, start, j);
        let te = spec_aws_end(p, ts, j);
        proof {
            lemma_comma_bounds(p, start);
        }
        if j < p.len() {
            seq![(ts, te)] + spec_field_spans(p, j + 1)
        } else {
            seq![(ts, te)]
        }
    } else {
        seq![]
    }
}

/// Spans that lie in order inside a text of length `n`.
pub open spec fn spec_spans_ordered(spans: Seq<(int, int)>, lo: int, n: int) -> bool {
    &&& forall|i: int| 0 <= i < spans.len() ==> lo <= (#[trigger] spans[i]).0 <= spans[i].1 <= n
    &&& forall|i: int, j: int| 0 <= i < j < spans.len() ==> (#[trigger] spans[i]).1 <= (#[trigger] spans[j]).0
}

pub proof fn lemma_field_spans_ordered(p: Seq<char>, start: int)
    requires
        0 <= start <= p.len(),
    ensures
        spec_spans_ordered(spec_field_spans(p, start), start, p.len() as int),
        spec_field_spans(p, start).len() >= 1,
    decreases p.len() - start,
{
    let j = spec_comma_from(p, start);
    lemma_comma_bounds(p, start);
    let ts = spec_aws_start(p, start, j);
    lemma_aws_bounds(p, start, j);
    lemma_aws_bounds(p, ts, j);
    if j < p.len() {
        lemma_field_spans_ordered(p, j + 1);
        let rest = spec_field_spans(p, j + 1);
        let all = spec_field_spans(p, start);
        assert(all == seq![(ts, spec_aws_end(p, ts, j))] + rest);
        assert forall|i: int, k: int| 0 <= i < k < all.len() implies (#[trigger] all[i]).1 <= (#[trigger] all[k]).0 by {
            if i > 0 {
                assert(all[i] == rest[i - 1]);
                assert(all[k] == rest[k - 1]);
            } else {
                assert(all[k] == rest[k - 1]);
            }
        }
        assert forall|i: int| 0 <= i < all.len() implies start <= (#[trigger] all[i]).0 <= all[i].1 <= p.len() by {
            if i > 0 {
                assert(all[i] == rest[i - 1]);
            }
        }
    }
}

/// The abstract value of a split payload: the text inside the brackets and its field spans.
pub struct FieldsView {
    pub inner: Seq<char>,
    pub spans: Seq<(int, int)>,
}

impl FieldsView {
    pub open spec fn field(self, i: int) -> Seq<char> {
        self.inner.subrange(self.spans[i].0, self.spans[i].1)
    }

    /// The raw text from the start of field `start` to the end of field `end - 1`.
    pub open spec fn joined(self, start: int, end: int) -> Result<Seq<char>, SchemaFailure> {
        if start >= end || end > self.spans.len() {
            Err(SchemaFailure::Shape)
        } else {
            let value = self.inner.subrange(self.spans[start].0, self.spans[end - 1].1);
            if spec_utf8_len(value) > MAX_EVENTLOG_FIELD_BYTES {
                Err(SchemaFailure::FieldTooLong)
            } else {
                Ok(value)
            }
        }
    }

    pub open spec fn wf(self) -> bool {
        &&& 1 <= self.spans.len() <= MAX_EVENTLOG_FIELDS
        &&& spec_spans_ordered(self.spans, 0, self.inner.len() as int)
    }
}

/// A span whose text is longer than a field may be.
pub open spec fn spec_span_too_long(p: Seq<char>, span: (int, int)) -> bool {
    spec_utf8_len(p.subrange(span.0, span.1)) > MAX_EVENTLOG_FIELD_BYTES
}

/// The bracketed payload split into trimmed fields.
#[verifier::opaque]
pub open spec fn spec_payload_fields(bp: Seq<char>) -> Result<FieldsView, MalformedEventLog> {
    if spec_utf8_len(bp) > MAX_EVENTLOG_PAYLOAD_BYTES {
        Err(MalformedEventLog::PayloadTooLong)
    } else {
        let lo = spec_aws_start(bp, 0, bp.len() as int);
        let hi = spec_aws_end(bp, lo, bp.len() as int);
        let env = bp.subrange(lo, hi);
        if env.len() == 0 || env[0] != '[' || env.last() != ']' {
            Err(MalformedEventLog::InvalidEnvelope)
        } else {
            let inner = env.subrange(1, env.len() - 1);
            let spans = spec_field_spans(inner, 0);
            if inner.len() == 0 {
                Err(MalformedEventLog::EmptyPayload)
            } else if exists|k: int|
                0 <= k < spans.len() && k < MAX_EVENTLOG_FIELDS && spec_span_too_long(inner, #[trigger] spans[k]) {
                Err(MalformedEventLog::FieldTooLong)
            } else if spans.len() > MAX_EVENTLOG_FIELDS {
                Err(MalformedEventLog::TooManyFields)
            } else {
                Ok(FieldsView { inner, spans })
            }
        }
    }
}

struct PayloadFields<'a> {
    payload: &'a str,
    spans: Vec<(usize, usize)>,
}

impl<'a> PayloadFields<'a> {
    spec fn view(&self) -> FieldsView {
        FieldsView { inner: self.payload@, spans: self.spans@.map_values(|s: (usize, usize)| (s.0 as int, s.1 as int)) }
    }

    fn len(&self) -> (r: u8)
        requires
            self.view().wf(),
        ensures
            r == self.view().spans.len(),
    {
        self.spans.len() as u8
    }

    fn field(&self, index: usize) -> (r: &'a str)
        requires
            self.view().wf(),
            index < self.view().spans.len(),
        ensures
            r@ == self.view().field(index as int),
    {
        let (start, end) = self.spans[index];
        assert(self.view().spans[index as int] == (start as int, end as int));
        self.payload.substring_char(start, end)
    }

    fn joined(&self, start: usize, end: usize) -> (r: Result<&'a str, SchemaFailure>)
        requires
            self.view().wf(),
        ensures
            match r {
                Ok(s) => self.view().joined(start as int, end as int) == Ok::<Seq<char>, SchemaFailure>(s@),
                Err(e) => self.view().joined(start as int, end as int) == Err::<Seq<char>, SchemaFailure>(e),
            },
    {
        if start >= end || end > self.spans.len() {
            return Err(SchemaFailure::Shape);
        }
        let span_start = self.spans[start].0;
        let span_end = self.spans[end - 1].1;
        proof {
            assert(self.view().spans[start as int] == (span_start as int, self.spans@[start as int].1 as int));
            assert(self.view().spans[end - 1] == (self.spans@[end - 1].0 as int, span_end as int));
            if start < end - 1 {
                assert(self.view().spans[start as int].1 <= self.view().spans[end - 1].0);
            }
        }
        let value = self.payload.substring_char(span_start, span_end);
        if value.as_bytes().len() > MAX_EVENTLOG_FIELD_BYTES {
            return Err(SchemaFailure::FieldTooLong);
        }
        Ok(value)
    }
}

fn parse_fields<'a>(bracket_payload: &'a str) -> (r: Result<PayloadFields<'a>, MalformedEventLog>)
    ensures
        match r {
            Ok(f) => spec_payload_fields(bracket_payload@) == Ok::<FieldsView, MalformedEventLog>(f.view()) && f.view().wf(),
            Err(e) => spec_payload_fields(bracket_payload@) == Err::<FieldsView, MalformedEventLog>(e),
        },
{
    reveal(spec_payload_fields);
    if bracket_payload.as_bytes().len() > MAX_EVENTLOG_PAYLOAD_BYTES {
        return Err(MalformedEventLog::PayloadTooLong);
    }
    let all = crate::chars::str_chars(bracket_payload);
    let lo = aws_start(&all, 0, all.len());
    let hi = aws_end(&all, lo, all.len());
    if hi - lo == 0 || all[lo] != '[' || all[hi - 1] != ']' {
        return Err(MalformedEventLog::InvalidEnvelope);
    }
    let ghost env = bracket_payload@.subrange(lo as int, hi as int);
    assert(env[0] == all@[lo as int]);
    assert(env.last() == all@[hi - 1]);
    let inner = bracket_payload.substring_char(lo + 1, hi - 1);
    assert(inner@ =~= env.subrange(1, env.len() - 1));
    if inner.unicode_len() == 0 {
        return Err(MalformedEventLog::EmptyPayload);
    }
    let chars = crate::chars::str_chars(inner);
    let ghost p = inner@;
    let mut spans: Vec<(usize, usize)> = Vec::new();
    let mut start: usize = 0;
    proof {
        lemma_field_spans_ordered(p, 0);
    }
    loop
        invariant
            chars@ == p,
            p == inner@,
            0 <= start <= p.len(),
            spans@.len() <= MAX_EVENTLOG_FIELDS,
            spec_field_spans(p, 0) == spans@.map_values(|s: (usize, usize)| (s.0 as int, s.1 as int))
                + spec_field_spans(p, start as int),
            forall|k: int| 0 <= k < spans@.len() ==> !spec_span_too_long(p, #[trigger] spec_field_spans(p, 0)[k]),
            spec_payload_fields(bracket_payload@) == (if exists|k: int|
                0 <= k < spec_field_spans(p, 0).len() && k < MAX_EVENTLOG_FIELDS && spec_span_too_long(p, #[trigger] spec_field_spans(p, 0)[k]) {
                Err(MalformedEventLog::FieldTooLong)
            } else if spec_field_spans(p, 0).len() > MAX_EVENTLOG_FIELDS {
                Err(MalformedEventLog::TooManyFields)
            } else {
                Ok(FieldsView { inner: p, spans: spec_field_spans(p, 0) })
            }),
        decreases p.len() - start,
    {
        let j = crate::chars::find_char(&chars, ',', start);
        proof {
            lemma_comma_bounds(p, start as int);
            assert(j as int == spec_comma_from(p, start as int)) by {
                lemma_find_equals_comma(p, start as int);
            }
        }
        let ts = aws_start(&chars, start, j);
        let te = aws_end(&chars, ts, j);
        let ghost mapped = spans@.map_values(|s: (usize, usize)| (s.0 as int, s.1 as int));
        proof {
            assert(spec_field_spans(p, start as int)[0] == (ts as int, te as int));
            assert(spec_field_spans(p, 0)[spans@.len() as int] == (ts as int, te as int));
        }
        if spans.len() == MAX_EVENTLOG_FIELDS {
            return Err(MalformedEventLog::TooManyFields);
        }
        let field = inner.substring_char(ts, te);
        if field.as_bytes().len() > MAX_EVENTLOG_FIELD_BYTES {
            proof {
                assert(spec_span_too_long(p, spec_field_spans(p, 0)[spans@.len() as int]));
            }
            return Err(MalformedEventLog::FieldTooLong);
        }
        spans.push((ts, te));
        proof {
            let newmapped = spans@.map_values(|s: (usize, usize)| (s.0 as int, s.1 as int));
            assert(newmapped =~= mapped.push((ts as int, te as int)));
            if j < p.len() {
                assert(spec_field_spans(p, start as int) =~= seq![(ts as int, te as int)] + spec_field_spans(p, j + 1));
                assert(spec_field_spans(p, 0) =~= newmapped + spec_field_spans(p, j + 1));
            } else {
                assert(spec_field_spans(p, start as int) =~= seq![(ts as int, te as int)]);
                assert(spec_field_spans(p, 0) =~= newmapped);
            }
        }
        if j >= chars.len() {
            let fields = PayloadFields { payload: inner, spans };
            proof {
                assert(fields.view().spans =~= spec_field_spans(p, 0));
                assert(!exists|k: int|
                    0 <= k < spec_field_spans(p, 0).len() && k < MAX_EVENTLOG_FIELDS && spec_span_too_long(p, #[trigger] spec_field_spans(p, 0)[k]));
                lemma_field_spans_ordered(p, 0);
            }
            return Ok(fields);
        }
        start = j + 1;
    }
}

proof fn lemma_find_equals_comma(p: Seq<char>, i: int)
    requires
        0 <= i <= p.len(),
    ensures
        crate::chars::find_from(p, ',', i) == spec_comma_from(p, i),
    decreases p.len() - i,
{
    if i < p.len() && p[i] != ',' {
        lemma_find_equals_comma(p, i + 1);
    }
}

/// The user id that prefixes a user-prefixed schema, with its base index.
pub open spec fn spec_user_head(f: FieldsView, prefixed: bool) -> Result<(Option<i32>, int), SchemaFailure> {
    if prefixed {
        match spec_parse_i32(f.field(0)) {
            Ok(u) => Ok((Some(u), 1)),
            Err(e) => Err(e),
        }
    } else {
        Ok((None, 0))
    }
}

fn user_head(fields: &PayloadFields<'_>, prefixed: bool) -> (r: Result<(Option<i32>, usize), SchemaFailure>)
    requires
        fields.view().wf(),
    ensures
        match r {
            Ok((u, base)) => spec_user_head(fields.view(), prefixed) == Ok::<(Option<i32>, int), SchemaFailure>((u, base as int)) && base <= 1,
            Err(e) => spec_user_head(fields.view(), prefixed) == Err::<(Option<i32>, int), SchemaFailure>(e),
        },
{
    if prefixed {
        match parse_i32(fields.field(0)) {
            Ok(u) => Ok((Some(u), 1)),
            Err(e) => Err(e),
        }
    } else {
        Ok((None, 0))
    }
}

/// An `am_anr` record under one of its schemas.
pub open spec fn spec_parse_anr(f: FieldsView, schema: EventLogSchemaId) -> Result<RecordView, SchemaFailure> {
    let (prefixed, minimum) = match schema {
        EventLogSchemaId::AmAnrLegacyNoUser => (false, 4int),
        _ => (true, 5int),
    };
    if !(schema == EventLogSchemaId::AmAnrLegacyNoUser || schema == EventLogSchemaId::AmAnrUserPrefixed) {
        Err(SchemaFailure::Shape)
    } else {
        match spec_user_head(f, prefixed) {
            Err(e) => Err(e),
            Ok((user_id, base)) => {
                let n = f.spans.len() as int;
                if n < minimum {
                    Err(SchemaFailure::Shape)
                } else {
                    match spec_parse_pid(f.field(base)) {
                        Err(e) => Err(e),
                        Ok(pid) => match spec_parse_name(f.field(base + 1)) {
                            Err(e) => Err(e),
                            Ok(package_name) => match spec_parse_i32(f.field(base + 2)) {
                                Err(e) => Err(e),
                                Ok(flags) => match f.joined(base + 3, n) {
                                    Err(e) => Err(e),
                                    Ok(joined) => match spec_parse_required_text(joined) {
                                        Err(e) => Err(e),
                                        Ok(reason) => Ok(
                                            RecordView::Anr(
                                                AmAnrView { schema, user_id, pid, package_name, flags, reason },
                                            ),
                                        ),
                                    },
                                },
                            },
                        },
                    }
                }
            },
        }
    }
}

/// The view of a record result.
pub open spec fn spec_record_result(r: Result<EventLogRecord, SchemaFailure>) -> Result<RecordView, SchemaFailure> {
    match r {
        Ok(rec) => Ok(rec@),
        Err(e) => Err(e),
    }
}

fn parse_anr<'a>(fields: &PayloadFields<'a>, schema: EventLogSchemaId) -> (r: Result<EventLogRecord<'a>, SchemaFailure>)
    requires
        fields.view().wf(),
    ensures
        spec_record_result(r) == spec_parse_anr(fields.view(), schema),
{
    let (prefixed, minimum) = match schema {
        EventLogSchemaId::AmAnrLegacyNoUser => (false, 4usize),
        EventLogSchemaId::AmAnrUserPrefixed => (true, 5usize),
        _ => return Err(SchemaFailure::Shape),
    };
    let (user_id, base) = match user_head(fields, prefixed) {
        Ok(h) => h,
        Err(e) => return Err(e),
    };
    let n = fields.len() as usize;
    if n < minimum {
        return Err(SchemaFailure::Shape);
    }
    let pid = match parse_pid(fields.field(base)) {
        Ok(v) => v,
        Err(e) => return Err(e),
    };
    let package_name = match parse_name(fields.field(base + 1)) {
        Ok(v) => v,
        Err(e) => return Err(e),
    };
    let flags = match parse_i32(fields.field(base + 2)) {
        Ok(v) => v,
        Err(e) => return Err(e),
    };
    let joined = match fields.joined(base + 3, n) {
        Ok(v) => v,
        Err(e) => return Err(e),
    };
    let reason = match parse_required_text(joined) {
        Ok(v) => v,
        Err(e) => return Err(e),
    };
    Ok(EventLogRecord::Anr(AmAnr { schema, user_id, pid, package_name, flags, reason }))
}

/// An `am_proc_died` record under one of its schemas.
pub open spec fn spec_parse_proc_died(f: FieldsView, schema: EventLogSchemaId) -> Result<RecordView, SchemaFailure> {
    let (prefixed, expected, modern) = match schema {
        EventLogSchemaId::AmProcDiedLegacyNoUser => (false, 2int, false),
        EventLogSchemaId::AmProcDiedUserPrefixed => (true, 3int, false),
        EventLogSchemaId::AmProcDiedModernTailNoUser => (false, 4int, true),
        _ => (true, 5int, true),
    };
    if !(schema == EventLogSchemaId::AmProcDiedLegacyNoUser || schema == EventLogSchemaId::AmProcDiedUserPrefixed
        || schema == EventLogSchemaId::AmProcDiedModernTailNoUser || schema == EventLogSchemaId::AmProcDiedModernTail) {
        Err(SchemaFailure::Shape)
    } else {
        match spec_user_head(f, prefixed) {
            Err(e) => Err(e),
            Ok((user_id, base)) => if f.spans.len() != expected {
                Err(SchemaFailure::Shape)
            } else {
                match spec_parse_pid(f.field(base)) {
                    Err(e) => Err(e),
                    Ok(pid) => match spec_parse_name(f.field(base + 1)) {
                        Err(e) => Err(e),
                        Ok(process_name) => if modern {
                            match spec_parse_i32(f.field(base + 2)) {
                                Err(e) => Err(e),
                                Ok(oom_adj) => match spec_parse_i32(f.field(base + 3)) {
                                    Err(e) => Err(e),
                                    Ok(proc_state) => Ok(
                                        RecordView::ProcDied(
                                            AmProcDiedView {
                                                schema,
                                                user_id,
                                                pid,
                                                process_name,
                                                oom_adj: Some(oom_adj),
                                                proc_state: Some(proc_state),
                                            },
                                        ),
                                    ),
                                },
                            }
                        } else {
                            Ok(
                                RecordView::ProcDied(
                                    AmProcDiedView { schema, user_id, pid, process_name, oom_adj: None, proc_state: None },
                                ),
                            )
                        },
                    },
                }
            },
        }
    }
}

fn parse_proc_died<'a>(fields: &PayloadFields<'a>, schema: EventLogSchemaId) -> (r: Result<EventLogRecord<'a>, SchemaFailure>)
    requires
        fields.view().wf(),
    ensures
        spec_record_result(r) == spec_parse_proc_died(fields.view(), schema),
{
    let (prefixed, expected, modern) = match schema {
        EventLogSchemaId::AmProcDiedLegacyNoUser => (false, 2usize, false),
        EventLogSchemaId::AmProcDiedUserPrefixed => (true, 3usize, false),
        EventLogSchemaId::AmProcDiedModernTailNoUser => (false, 4usize, true),
        EventLogSchemaId::AmProcDiedModernTail => (true, 5usize, true),
        _ => return Err(SchemaFailure::Shape),
    };
    let (user_id, base) = match user_head(fields, prefixed) {
        Ok(h) => h,
        Err(e) => return Err(e),
    };
    if fields.len() as usize != expected {
        return Err(SchemaFailure::Shape);
    }
    let pid = match parse_pid(fields.field(base)) {
        Ok(v) => v,
        Err(e) => return Err(e),
    };
    let process_name = match parse_name(fields.field(base + 1)) {
        Ok(v) => v,
        Err(e) => return Err(e),
    };
    let (oom_adj, proc_state) = if modern {
        let oom_adj = match parse_i32(fields.field(base + 2)) {
            Ok(v) => v,
            Err(e) => return Err(e),
        };
        let proc_state = match parse_i32(fields.field(base + 3)) {
            Ok(v) => v,
            Err(e) => return Err(e),
        };
        (Some(oom_adj), Some(proc_state))
    } else {
        (None, None)
    };
    Ok(EventLogRecord::ProcDied(AmProcDied { schema, user_id, pid, process_name, oom_adj, proc_state }))
}

/// An `am_proc_start` record under one of its schemas.
pub open spec fn spec_parse_proc_start(f: FieldsView, schema: EventLogSchemaId) -> Result<RecordView, SchemaFailure> {
    let (prefixed, expected) = match schema {
        EventLogSchemaId::AmProcStartLegacyNoUser => (false, 5int),
        _ => (true, 6int),
    };
    if !(schema == EventLogSchemaId::AmProcStartLegacyNoUser || schema == EventLogSchemaId::AmProcStartUserPrefixed) {
        Err(SchemaFailure::Shape)
    } else {
        match spec_user_head(f, prefixed) {
            Err(e) => Err(e),
            Ok((user_id, base)) => if f.spans.len() != expected {
                Err(SchemaFailure::Shape)
            } else {
                match spec_parse_pid(f.field(base)) {
                    Err(e) => Err(e),
                    Ok(pid) => match spec_parse_uid(f.field(base + 1)) {
                        Err(e) => Err(e),
                        Ok(uid) => match spec_parse_name(f.field(base + 2)) {
                            Err(e) => Err(e),
                            Ok(process_name) => match spec_parse_required_text(f.field(base + 3)) {
                                Err(e) => Err(e),
                                Ok(start_type) => match spec_parse_required_text(f.field(base + 4)) {
                                    Err(e) => Err(e),
                                    Ok(component) => Ok(
                                        RecordView::ProcStart(
                                            AmProcStartView { schema, user_id, pid, uid, process_name, start_type, component },
                                        ),
                                    ),
                                },
                            },
                        },
                    },
                }
            },
        }
    }
}

fn parse_proc_start<'a>(fields: &PayloadFields<'a>, schema: EventLogSchemaId) -> (r: Result<EventLogRecord<'a>, SchemaFailure>)
    requires
        fields.view().wf(),
    ensures
        spec_record_result(r) == spec_parse_proc_start(fields.view(), schema),
{
    let (prefixed, expected) = match schema {
        EventLogSchemaId::AmProcStartLegacyNoUser => (false, 5usize),
        EventLogSchemaId::AmProcStartUserPrefixed => (true, 6usize),
        _ => return Err(SchemaFailure::Shape),
    };
    let (user_id, base) = match user_head(fields, prefixed) {
        Ok(h) => h,
        Err(e) => return Err(e),
    };
    if fields.len() as usize != expected {
        return Err(SchemaFailure::Shape);
    }
    let pid = match parse_pid(fields.field(base)) {
        Ok(v) => v,
        Err(e) => return Err(e),
    };
    let uid = match parse_uid(fields.field(base + 1)) {
        Ok(v) => v,
        Err(e) => return Err(e),
    };
    let process_name = match parse_name(fields.field(base + 2)) {
        Ok(v) => v,
        Err(e) => return Err(e),
    };
    let start_type = match parse_required_text(fields.field(base + 3)) {
        Ok(v) => v,
        Err(e) => return Err(e),
    };
    let component = match parse_required_text(fields.field(base + 4)) {
        Ok(v) => v,
        Err(e) => return Err(e),
    };
    Ok(EventLogRecord::ProcStart(AmProcStart { schema, user_id, pid, uid, process_name, start_type, component }))
}

/// The message, file, line and recoverable flag at the tail of an `am_crash` record.
pub open spec fn spec_crash_tail(f: FieldsView, base: int, file_index: int, has_recoverable: bool) -> Result<
    (Seq<char>, Seq<char>, i32, Option<bool>),
    SchemaFailure,
> {
    match f.joined(base + 4, file_index) {
        Err(e) => Err(e),
        Ok(joined) => match spec_parse_optional_text(joined) {
            Err(e) => Err(e),
            Ok(message) => match spec_parse_source_file(f.field(file_index)) {
                Err(e) => Err(e),
                Ok(file) => match spec_parse_i32(f.field(file_index + 1)) {
                    Err(e) => Err(e),
                    Ok(line) => if has_recoverable {
                        match spec_parse_bool_int(f.field(file_index + 2)) {
                            Ok(b) => Ok((message, file, line, Some(b))),
                            Err(e) => Err(e),
                        }
                    } else {
                        Ok((message, file, line, None))
                    },
                },
            },
        },
    }
}

/// An `am_crash` record under one of its schemas.
pub open spec fn spec_parse_crash(f: FieldsView, schema: EventLogSchemaId) -> Result<RecordView, SchemaFailure> {
    let (prefixed, minimum, has_recoverable) = match schema {
        EventLogSchemaId::AmCrashLegacyNoUser => (false, 7int, false),
        EventLogSchemaId::AmCrashUserPrefixed => (true, 8int, false),
        EventLogSchemaId::AmCrashModernTailNoUser => (false, 8int, true),
        _ => (true, 9int, true),
    };
    if !(schema == EventLogSchemaId::AmCrashLegacyNoUser || schema == EventLogSchemaId::AmCrashUserPrefixed
        || schema == EventLogSchemaId::AmCrashModernTailNoUser || schema == EventLogSchemaId::AmCrashModernTail) {
        Err(SchemaFailure::Shape)
    } else {
        match spec_user_head(f, prefixed) {
            Err(e) => Err(e),
            Ok((user_id, base)) => {
                let n = f.spans.len() as int;
                let file_index = n - (if has_recoverable { 3int } else { 2int });
                if n < minimum {
                    Err(SchemaFailure::Shape)
                } else {
                    match spec_parse_pid(f.field(base)) {
                        Err(e) => Err(e),
                        Ok(pid) => match spec_parse_name(f.field(base + 1)) {
                            Err(e) => Err(e),
                            Ok(process_name) => match spec_parse_i32(f.field(base + 2)) {
                                Err(e) => Err(e),
                                Ok(flags) => match spec_parse_name(f.field(base + 3)) {
                                    Err(e) => Err(e),
                                    Ok(exception) => match spec_crash_tail(f, base, file_index, has_recoverable) {
                                        Err(e) => Err(e),
                                        Ok((message, file, line, recoverable)) => Ok(
                                            RecordView::Crash(
                                                AmCrashView {
                                                    schema,
                                                    user_id,
                                                    pid,
                                                    process_name,
                                                    flags,
                                                    exception,
                                                    message,
                                                    file,
                                                    line,
                                                    recoverable,
                                                },
                                            ),
                                        ),
                                    },
                                },
                            },
                        },
                    }
                }
            },
        }
    }
}

fn crash_tail<'a>(fields: &PayloadFields<'a>, base: usize, file_index: usize, has_recoverable: bool) -> (r: Result<
    (&'a str, &'a str, i32, Option<bool>),
    SchemaFailure,
>)
    requires
        fields.view().wf(),
        base <= 1,
        file_index + (if has_recoverable { 3int } else { 2int }) == fields.view().spans.len(),
    ensures
        match r {
            Ok((m, f, l, rec)) => spec_crash_tail(fields.view(), base as int, file_index as int, has_recoverable)
                == Ok::<(Seq<char>, Seq<char>, i32, Option<bool>), SchemaFailure>((m@, f@, l, rec)),
            Err(e) => spec_crash_tail(fields.view(), base as int, file_index as int, has_recoverable)
                == Err::<(Seq<char>, Seq<char>, i32, Option<bool>), SchemaFailure>(e),
        },
{
    let joined = match fields.joined(base + 4, file_index) {
        Ok(v) => v,
        Err(e) => return Err(e),
    };
    let message = match parse_optional_text(joined) {
        Ok(v) => v,
        Err(e) => return Err(e),
    };
    let file = match parse_source_file(fields.field(file_index)) {
        Ok(v) => v,
        Err(e) => return Err(e),
    };
    let line = match parse_i32(fields.field(file_index + 1)) {
        Ok(v) => v,
        Err(e) => return Err(e),
    };
    if has_recoverable {
        match parse_bool_int(fields.field(file_index + 2)) {
            Ok(b) => Ok((message, file, line, Some(b))),
            Err(e) => Err(e),
        }
    } else {
        Ok((message, file, line, None))
    }
}

fn parse_crash<'a>(fields: &PayloadFields<'a>, schema: EventLogSchemaId) -> (r: Result<EventLogRecord<'a>, SchemaFailure>)
    requires
        fields.view().wf(),
    ensures
        spec_record_result(r) == spec_parse_crash(fields.view(), schema),
{
    let (prefixed, minimum, has_recoverable) = match schema {
        EventLogSchemaId::AmCrashLegacyNoUser => (false, 7usize, false),
        EventLogSchemaId::AmCrashUserPrefixed => (true, 8usize, false),
        EventLogSchemaId::AmCrashModernTailNoUser => (false, 8usize, true),
        EventLogSchemaId::AmCrashModernTail => (true, 9usize, true),
        _ => return Err(SchemaFailure::Shape),
    };
    let (user_id, base) = match user_head(fields, prefixed) {
        Ok(h) => h,
        Err(e) => return Err(e),
    };
    let field_count = fields.len() as usize;
    if field_count < minimum {
        return Err(SchemaFailure::Shape);
    }
    let pid = match parse_pid(fields.field(base)) {
        Ok(v) => v,
        Err(e) => return Err(e),
    };
    let process_name = match parse_name(fields.field(base + 1)) {
        Ok(v) => v,
        Err(e) => return Err(e),
    };
    let flags = match parse_i32(fields.field(base + 2)) {
        Ok(v) => v,
        Err(e) => return Err(e),
    };
    let exception = match parse_name(fields.field(base + 3)) {
        Ok(v) => v,
        Err(e) => return Err(e),
    };
    let tail_fields: usize = if has_recoverable { 3 } else { 2 };
    let file_index = field_count - tail_fields;
    let (message, file, line, recoverable) = match crash_tail(fields, base, file_index, has_recoverable) {
        Ok(t) => t,
        Err(e) => return Err(e),
    };
    Ok(
        EventLogRecord::Crash(
            AmCrash { schema, user_id, pid, process_name, flags, exception, message, file, line, recoverable },
        ),
    )
}

/// An `am_kill` record under one of its schemas.
pub open spec fn spec_parse_kill(f: FieldsView, schema: EventLogSchemaId) -> Result<RecordView, SchemaFailure> {
    let (prefixed, minimum, has_rss) = match schema {
        EventLogSchemaId::AmKillLegacyNoUser => (false, 4int, false),
        EventLogSchemaId::AmKillUserPrefixed => (true, 5int, false),
        EventLogSchemaId::AmKillModernTailNoUser => (false, 5int, true),
        _ => (true, 6int, true),
    };
    if !(schema == EventLogSchemaId::AmKillLegacyNoUser || schema == EventLogSchemaId::AmKillUserPrefixed
        || schema == EventLogSchemaId::AmKillModernTailNoUser || schema == EventLogSchemaId::AmKillModernTail) {
        Err(SchemaFailure::Shape)
    } else {
        match spec_user_head(f, prefixed) {
            Err(e) => Err(e),
            Ok((user_id, base)) => {
                let n = f.spans.len() as int;
                let reason_end = if has_rss { n - 1 } else { n };
                if n < minimum {
                    Err(SchemaFailure::Shape)
                } else {
                    match spec_parse_pid(f.field(base)) {
                        Err(e) => Err(e),
                        Ok(pid) => match spec_parse_name(f.field(base + 1)) {
                            Err(e) => Err(e),
                            Ok(process_name) => match spec_parse_i32(f.field(base + 2)) {
                                Err(e) => Err(e),
                                Ok(oom_adj) => match f.joined(base + 3, reason_end) {
                                    Err(e) => Err(e),
                                    Ok(joined) => match spec_parse_required_text(joined) {
                                        Err(e) => Err(e),
                                        Ok(reason) => {
                                            let rss: Result<Option<u64>, SchemaFailure> = if has_rss {
                                                match spec_parse_non_negative_i64(f.field(n - 1)) {
                                                    Ok(v) => Ok(Some(v)),
                                                    Err(e) => Err(e),
                                                }
                                            } else {
                                                Ok(None)
                                            };
                                            match rss {
                                                Err(e) => Err(e),
                                                Ok(rss) => Ok(
                                                    RecordView::Kill(
                                                        AmKillView { schema, user_id, pid, process_name, oom_adj, reason, rss },
                                                    ),
                                                ),
                                            }
                                        },
                                    },
                                },
                            },
                        },
                    }
                }
            },
        }
    }
}

fn parse_kill<'a>(fields: &PayloadFields<'a>, schema: EventLogSchemaId) -> (r: Result<EventLogRecord<'a>, SchemaFailure>)
    requires
        fields.view().wf(),
    ensures
        spec_record_result(r) == spec_parse_kill(fields.view(), schema),
{
    let (prefixed, minimum, has_rss) = match schema {
        EventLogSchemaId::AmKillLegacyNoUser => (false, 4usize, false),
        EventLogSchemaId::AmKillUserPrefixed => (true, 5usize, false),
        EventLogSchemaId::AmKillModernTailNoUser => (false, 5usize, true),
        EventLogSchemaId::AmKillModernTail => (true, 6usize, true),
        _ => return Err(SchemaFailure::Shape),
    };
    let (user_id, base) = match user_head(fields, prefixed) {
        Ok(h) => h,
        Err(e) => return Err(e),
    };
    let field_count = fields.len() as usize;
    if field_count < minimum {
        return Err(SchemaFailure::Shape);
    }
    let pid = match parse_pid(fields.field(base)) {
        Ok(v) => v,
        Err(e) => return Err(e),
    };
    let process_name = match parse_name(fields.field(base + 1)) {
        Ok(v) => v,
        Err(e) => return Err(e),
    };
    let oom_adj = match parse_i32(fields.field(base + 2)) {
        Ok(v) => v,
        Err(e) => return Err(e),
    };
    let reason_end = if has_rss { field_count - 1 } else { field_count };
    let joined = match fields.joined(base + 3, reason_end) {
        Ok(v) => v,
        Err(e) => return Err(e),
    };
    let reason = match parse_required_text(joined) {
        Ok(v) => v,
        Err(e) => return Err(e),
    };
    let rss = if has_rss {
        match parse_non_negative_i64(fields.field(field_count - 1)) {
            Ok(v) => Some(v),
            Err(e) => return Err(e),
        }
    } else {
        None
    };
    Ok(EventLogRecord::Kill(AmKill { schema, user_id, pid, process_name, oom_adj, reason, rss }))
}

/// A schema parsed against the payload, by its family.
#[verifier::opaque]
pub open spec fn spec_parse_schema(f: FieldsView, schema: EventLogSchemaId) -> Result<RecordView, SchemaFailure> {
    match schema {
        EventLogSchemaId::AmAnrLegacyNoUser | EventLogSchemaId::AmAnrUserPrefixed => spec_parse_anr(f, schema),
        EventLogSchemaId::AmProcDiedLegacyNoUser | EventLogSchemaId::AmProcDiedUserPrefixed
        | EventLogSchemaId::AmProcDiedModernTailNoUser
        | EventLogSchemaId::AmProcDiedModernTail => spec_parse_proc_died(f, schema),
        EventLogSchemaId::AmProcStartLegacyNoUser
        | EventLogSchemaId::AmProcStartUserPrefixed => spec_parse_proc_start(f, schema),
        EventLogSchemaId::AmCrashLegacyNoUser | EventLogSchemaId::AmCrashUserPrefixed
        | EventLogSchemaId::AmCrashModernTailNoUser
        | EventLogSchemaId::AmCrashModernTail => spec_parse_crash(f, schema),
        _ => spec_parse_kill(f, schema),
    }
}

fn parse_schema<'a>(fields: &PayloadFields<'a>, schema: EventLogSchemaId) -> (r: Result<EventLogRecord<'a>, SchemaFailure>)
    requires
        fields.view().wf(),
    ensures
        spec_record_result(r) == spec_parse_schema(fields.view(), schema),
{
    reveal(spec_parse_schema);
    match schema {
        EventLogSchemaId::AmAnrLegacyNoUser | EventLogSchemaId::AmAnrUserPrefixed => parse_anr(fields, schema),
        EventLogSchemaId::AmProcDiedLegacyNoUser | EventLogSchemaId::AmProcDiedUserPrefixed
        | EventLogSchemaId::AmProcDiedModernTailNoUser
        | EventLogSchemaId::AmProcDiedModernTail => parse_proc_died(fields, schema),
        EventLogSchemaId::AmProcStartLegacyNoUser
        | EventLogSchemaId::AmProcStartUserPrefixed => parse_proc_start(fields, schema),
        EventLogSchemaId::AmCrashLegacyNoUser | EventLogSchemaId::AmCrashUserPrefixed
        | EventLogSchemaId::AmCrashModernTailNoUser
        | EventLogSchemaId::AmCrashModernTail => parse_crash(fields, schema),
        _ => parse_kill(fields, schema),
    }
}

/// The schemas a supported tag is tried against, in order.
pub open spec fn spec_tag_schemas(tag: Seq<u8>) -> Option<Seq<EventLogSchemaId>> {
    if tag == crate::util::text_bytes("am_anr") {
        Some(seq![EventLogSchemaId::AmAnrLegacyNoUser, EventLogSchemaId::AmAnrUserPrefixed])
    } else if tag == crate::util::text_bytes("am_proc_died") {
        Some(
            seq![
                EventLogSchemaId::AmProcDiedLegacyNoUser,
                EventLogSchemaId::AmProcDiedUserPrefixed,
                EventLogSchemaId::AmProcDiedModernTailNoUser,
                EventLogSchemaId::AmProcDiedModernTail,
            ],
        )
    } else if tag == crate::util::text_bytes("am_proc_start") {
        Some(seq![EventLogSchemaId::AmProcStartLegacyNoUser, EventLogSchemaId::AmProcStartUserPrefixed])
    } else if tag == crate::util::text_bytes("am_crash") {
        Some(
            seq![
                EventLogSchemaId::AmCrashLegacyNoUser,
                EventLogSchemaId::AmCrashUserPrefixed,
                EventLogSchemaId::AmCrashModernTailNoUser,
                EventLogSchemaId::AmCrashModernTail,
            ],
        )
    } else if tag == crate::util::text_bytes("am_kill") {
        Some(
            seq![
                EventLogSchemaId::AmKillLegacyNoUser,
                EventLogSchemaId::AmKillUserPrefixed,
                EventLogSchemaId::AmKillModernTailNoUser,
                EventLogSchemaId::AmKillModernTail,
            ],
        )
    } else {
        None
    }
}

fn tag_schemas(tag: &str) -> (r: Option<Vec<EventLogSchemaId>>)
    ensures
        match r {
            Some(v) => spec_tag_schemas(tag.spec_bytes()) == Some(v@),
            None => spec_tag_schemas(tag.spec_bytes()) is None,
        },
{
    let t = tag.as_bytes();
    if crate::util::bytes_equal_text(t, "am_anr") {
        let v = vec![EventLogSchemaId::AmAnrLegacyNoUser, EventLogSchemaId::AmAnrUserPrefixed];
        assert(v@ =~= seq![EventLogSchemaId::AmAnrLegacyNoUser, EventLogSchemaId::AmAnrUserPrefixed]);
        Some(v)
    } else if crate::util::bytes_equal_text(t, "am_proc_died") {
        let v = vec![
            EventLogSchemaId::AmProcDiedLegacyNoUser,
            EventLogSchemaId::AmProcDiedUserPrefixed,
            EventLogSchemaId::AmProcDiedModernTailNoUser,
            EventLogSchemaId::AmProcDiedModernTail,
        ];
        assert(v@ =~= seq![
            EventLogSchemaId::AmProcDiedLegacyNoUser,
            EventLogSchemaId::AmProcDiedUserPrefixed,
            EventLogSchemaId::AmProcDiedModernTailNoUser,
            EventLogSchemaId::AmProcDiedModernTail,
        ]);
        Some(v)
    } else if crate::util::bytes_equal_text(t, "am_proc_start") {
        let v = vec![EventLogSchemaId::AmProcStartLegacyNoUser, EventLogSchemaId::AmProcStartUserPrefixed];
        assert(v@ =~= seq![EventLogSchemaId::AmProcStartLegacyNoUser, EventLogSchemaId::AmProcStartUserPrefixed]);
        Some(v)
    } else if crate::util::bytes_equal_text(t, "am_crash") {
        let v = vec![
            EventLogSchemaId::AmCrashLegacyNoUser,
            EventLogSchemaId::AmCrashUserPrefixed,
            EventLogSchemaId::AmCrashModernTailNoUser,
            EventLogSchemaId::AmCrashModernTail,
        ];
        assert(v@ =~= seq![
            EventLogSchemaId::AmCrashLegacyNoUser,
            EventLogSchemaId::AmCrashUserPrefixed,
            EventLogSchemaId::AmCrashModernTailNoUser,
            EventLogSchemaId::AmCrashModernTail,
        ]);
        Some(v)
    } else if crate::util::bytes_equal_text(t, "am_kill") {
        let v = vec![
            EventLogSchemaId::AmKillLegacyNoUser,
            EventLogSchemaId::AmKillUserPrefixed,
            EventLogSchemaId::AmKillModernTailNoUser,
            EventLogSchemaId::AmKillModernTail,
        ];
        assert(v@ =~= seq![
            EventLogSchemaId::AmKillLegacyNoUser,
            EventLogSchemaId::AmKillUserPrefixed,
            EventLogSchemaId::AmKillModernTailNoUser,
            EventLogSchemaId::AmKillModernTail,
        ]);
        Some(v)
    } else {
        None
    }
}

/// The records of the schemas that matched, in order.
pub open spec fn spec_successes(rs: Seq<Result<RecordView, SchemaFailure>>) -> Seq<RecordView>
    decreases rs.len(),
{
    if rs.len() == 0 {
        seq![]
    } else {
        match rs.last() {
            Ok(r) => spec_successes(rs.drop_last()).push(r),
            Err(_) => spec_successes(rs.drop_last()),
        }
    }
}

/// Whether some schema failed with `e`.
pub open spec fn spec_failed_with(rs: Seq<Result<RecordView, SchemaFailure>>, e: SchemaFailure) -> bool {
    exists|i: int| 0 <= i < rs.len() && #[trigger] rs[i] == Err::<RecordView, SchemaFailure>(e)
}

/// The most telling failure among those of the schemas.
pub open spec fn spec_failure_summary(rs: Seq<Result<RecordView, SchemaFailure>>) -> MalformedEventLog {
    if spec_failed_with(rs, SchemaFailure::FieldTooLong) {
        MalformedEventLog::FieldTooLong
    } else if spec_failed_with(rs, SchemaFailure::NumericOverflow) {
        MalformedEventLog::NumericOverflow
    } else if spec_failed_with(rs, SchemaFailure::InvalidNumber) {
        MalformedEventLog::InvalidNumber
    } else if spec_failed_with(rs, SchemaFailure::InvalidText) {
        MalformedEventLog::InvalidText
    } else {
        MalformedEventLog::NoMatchingSchema
    }
}

/// The abstract value of a parse error.
pub enum ErrorView {
    UnsupportedTag,
    Malformed(MalformedEventLog),
    /// The schemas that matched, in order, and the number of fields seen.
    Ambiguous(Seq<EventLogSchemaId>, u8),
}

/// One record when exactly one schema matched; otherwise why not.
pub open spec fn spec_finish(rs: Seq<Result<RecordView, SchemaFailure>>, observed: u8) -> Result<RecordView, ErrorView> {
    let ok = spec_successes(rs);
    if ok.len() == 0 {
        Err(ErrorView::Malformed(spec_failure_summary(rs)))
    } else if ok.len() == 1 {
        Ok(ok[0])
    } else {
        Err(ErrorView::Ambiguous(ok.map_values(|r: RecordView| r.schema()), observed))
    }
}

/// The outcome of trying each schema against the fields.
pub open spec fn spec_outcomes(f: FieldsView, schemas: Seq<EventLogSchemaId>) -> Seq<Result<RecordView, SchemaFailure>> {
    schemas.map_values(|s: EventLogSchemaId| spec_parse_schema(f, s))
}

/// The record that an event-log line with tag bytes `tag` and bracketed payload `payload` holds.
pub open spec fn spec_parse_event_log(tag: Seq<u8>, payload: Seq<char>) -> Result<RecordView, ErrorView> {
    match spec_tag_schemas(tag) {
        None => Err(ErrorView::UnsupportedTag),
        Some(schemas) => match spec_payload_fields(payload) {
            Err(m) => Err(ErrorView::Malformed(m)),
            Ok(f) => spec_finish(spec_outcomes(f, schemas), f.spans.len() as u8),
        },
    }
}

/// `a` lists the matching `schemas`, in order, with their arities.
pub open spec fn spec_ambiguous_holds(a: AmbiguousSchemaMatches, schemas: Seq<EventLogSchemaId>, observed: u8) -> bool {
    &&& a.count == schemas.len()
    &&& schemas.len() <= MAX_AMBIGUOUS_SCHEMA_MATCHES
    &&& forall|i: int|
        0 <= i < MAX_AMBIGUOUS_SCHEMA_MATCHES ==> #[trigger] a.matches@[i] == (if i < schemas.len() {
            Some(
                SchemaMatch {
                    schema: schemas[i],
                    nominal_arity: schemas[i].spec_nominal_arity(),
                    observed_arity: observed,
                },
            )
        } else {
            None
        })
}

/// Whether the error `e` is the abstract error `v`.
pub open spec fn spec_error_is(e: EventLogParseError, v: ErrorView) -> bool {
    match (e, v) {
        (EventLogParseError::UnsupportedTag, ErrorView::UnsupportedTag) => true,
        (EventLogParseError::Malformed(m), ErrorView::Malformed(n)) => m == n,
        (EventLogParseError::Ambiguous(a), ErrorView::Ambiguous(ss, obs)) => spec_ambiguous_holds(a, ss, obs),
        _ => false,
    }
}

/// Whether `r` is the abstract result `v`.
pub open spec fn spec_result_is(r: Result<EventLogRecord, EventLogParseError>, v: Result<RecordView, ErrorView>) -> bool {
    match (r, v) {
        (Ok(rec), Ok(w)) => rec@ == w,
        (Err(e), Err(w)) => spec_error_is(e, w),
        _ => false,
    }
}

struct FailureSummary {
    invalid_number: bool,
    numeric_overflow: bool,
    invalid_text: bool,
    field_too_long: bool,
}

struct CandidateSet<'a> {
    records: Vec<EventLogRecord<'a>>,
    observed_arity: u8,
    failures: FailureSummary,
}

impl<'a> CandidateSet<'a> {
    /// The set after seeing the outcomes `rs`.
    spec fn holds(&self, rs: Seq<Result<RecordView, SchemaFailure>>) -> bool {
        &&& self.records@.map_values(|r: EventLogRecord<'a>| r@) == spec_successes(rs)
        &&& self.failures.invalid_number == spec_failed_with(rs, SchemaFailure::InvalidNumber)
        &&& self.failures.numeric_overflow == spec_failed_with(rs, SchemaFailure::NumericOverflow)
        &&& self.failures.invalid_text == spec_failed_with(rs, SchemaFailure::InvalidText)
        &&& self.failures.field_too_long == spec_failed_with(rs, SchemaFailure::FieldTooLong)
    }

    fn new(observed_arity: u8) -> (r: Self)
        ensures
            r.holds(Seq::empty()),
            r.observed_arity == observed_arity,
            r.records@.len() == 0,
    {
        let r = CandidateSet {
            records: Vec::new(),
            observed_arity,
            failures: FailureSummary {
                invalid_number: false,
                numeric_overflow: false,
                invalid_text: false,
                field_too_long: false,
            },
        };
        assert(r.records@.map_values(|r: EventLogRecord<'a>| r@) =~= Seq::<RecordView>::empty());
        r
    }

    fn add(&mut self, result: Result<EventLogRecord<'a>, SchemaFailure>, Ghost(rs): Ghost<Seq<Result<RecordView, SchemaFailure>>>)
        requires
            old(self).holds(rs),
        ensures
            final(self).holds(rs.push(spec_record_result(result))),
            final(self).observed_arity == old(self).observed_arity,
            final(self).records@.len() <= old(self).records@.len() + 1,
    {
        let ghost next = rs.push(spec_record_result(result));
        proof {
            assert(next.drop_last() =~= rs);
            assert forall|e: SchemaFailure| spec_failed_with(next, e) == (spec_failed_with(rs, e) || next.last() == Err::<RecordView, SchemaFailure>(e)) by {
                if spec_failed_with(next, e) {
                    let i = choose|i: int| 0 <= i < next.len() && #[trigger] next[i] == Err::<RecordView, SchemaFailure>(e);
                    if i < rs.len() {
                        assert(rs[i] == next[i]);
                    }
                }
                if spec_failed_with(rs, e) {
                    let i = choose|i: int| 0 <= i < rs.len() && #[trigger] rs[i] == Err::<RecordView, SchemaFailure>(e);
                    assert(next[i] == rs[i]);
                }
                if next.last() == Err::<RecordView, SchemaFailure>(e) {
                    assert(next[next.len() - 1] == Err::<RecordView, SchemaFailure>(e));
                }
            }
        }
        match result {
            Ok(record) => {
                let ghost before = self.records@;
                self.records.push(record);
                proof {
                    assert(self.records@.map_values(|r: EventLogRecord<'a>| r@) =~= before.map_values(|r: EventLogRecord<'a>| r@).push(record@));
                }
            },
            Err(failure) => {
                match failure {
                    SchemaFailure::Shape => {},
                    SchemaFailure::InvalidNumber => self.failures.invalid_number = true,
                    SchemaFailure::NumericOverflow => self.failures.numeric_overflow = true,
                    SchemaFailure::InvalidText => self.failures.invalid_text = true,
                    SchemaFailure::FieldTooLong => self.failures.field_too_long = true,
                }
            },
        }
    }

    fn malformed(&self, Ghost(rs): Ghost<Seq<Result<RecordView, SchemaFailure>>>) -> (r: MalformedEventLog)
        requires
            self.holds(rs),
        ensures
            r == spec_failure_summary(rs),
    {
        if self.failures.field_too_long {
            MalformedEventLog::FieldTooLong
        } else if self.failures.numeric_overflow {
            MalformedEventLog::NumericOverflow
        } else if self.failures.invalid_number {
            MalformedEventLog::InvalidNumber
        } else if self.failures.invalid_text {
            MalformedEventLog::InvalidText
        } else {
            MalformedEventLog::NoMatchingSchema
        }
    }

    fn finish(self, Ghost(rs): Ghost<Seq<Result<RecordView, SchemaFailure>>>) -> (r: Result<EventLogRecord<'a>, EventLogParseError>)
        requires
            self.holds(rs),
            self.records@.len() <= MAX_AMBIGUOUS_SCHEMA_MATCHES,
        ensures
            spec_result_is(r, spec_finish(rs, self.observed_arity)),
    {
        let count = self.records.len();
        proof {
            assert(self.records@.map_values(|r: EventLogRecord<'a>| r@).len() == count);
        }
        if count == 0 {
            return Err(EventLogParseError::Malformed(self.malformed(Ghost(rs))));
        }
        if count == 1 {
            proof {
                assert(self.records@.map_values(|r: EventLogRecord<'a>| r@)[0] == self.records@[0]@);
            }
            return Ok(self.records[0]);
        }
        let mut matches: [Option<SchemaMatch>; MAX_AMBIGUOUS_SCHEMA_MATCHES] = [None, None, None, None];
        let ghost ok = spec_successes(rs);
        let ghost schemas = ok.map_values(|r: RecordView| r.schema());
        let mut i: usize = 0;
        while i < count
            invariant
                count == self.records@.len(),
                count <= MAX_AMBIGUOUS_SCHEMA_MATCHES,
                self.holds(rs),
                ok == spec_successes(rs),
                schemas == ok.map_values(|r: RecordView| r.schema()),
                matches@.len() == MAX_AMBIGUOUS_SCHEMA_MATCHES,
                0 <= i <= count,
                forall|k: int|
                    0 <= k < MAX_AMBIGUOUS_SCHEMA_MATCHES ==> #[trigger] matches@[k] == (if k < i {
                        Some(
                            SchemaMatch {
                                schema: schemas[k],
                                nominal_arity: schemas[k].spec_nominal_arity(),
                                observed_arity: self.observed_arity,
                            },
                        )
                    } else {
                        None
                    }),
            decreases count - i,
        {
            let schema = self.records[i].schema();
            proof {
                assert(self.records@.map_values(|r: EventLogRecord<'a>| r@)[i as int] == self.records@[i as int]@);
                assert(schemas[i as int] == schema);
            }
            matches[i] = Some(SchemaMatch { schema, nominal_arity: schema.nominal_arity(), observed_arity: self.observed_arity });
            i = i + 1;
        }
        let a = AmbiguousSchemaMatches { matches, count: count as u8 };
        proof {
            assert(spec_ambiguous_holds(a, schemas, self.observed_arity));
        }
        Err(EventLogParseError::Ambiguous(a))
    }
}

pub fn parse_event_log<'a>(tag: &str, bracket_payload: &'a str) -> (r: Result<EventLogRecord<'a>, EventLogParseError>)
    ensures
        spec_result_is(r, spec_parse_event_log(tag.spec_bytes(), bracket_payload@)),
{
    let schemas = match tag_schemas(tag) {
        Some(v) => v,
        None => return Err(EventLogParseError::UnsupportedTag),
    };
    let fields = match parse_fields(bracket_payload) {
        Ok(f) => f,
        Err(m) => return Err(EventLogParseError::Malformed(m)),
    };
    let ghost f = fields.view();
    let mut candidates = CandidateSet::new(fields.len());
    let ghost mut rs: Seq<Result<RecordView, SchemaFailure>> = Seq::empty();
    let mut i: usize = 0;
    while i < schemas.len()
        invariant
            f == fields.view(),
            f.wf(),
            schemas@.len() <= 4,
            0 <= i <= schemas@.len(),
            rs == spec_outcomes(f, schemas@).subrange(0, i as int),
            candidates.holds(rs),
            candidates.observed_arity == f.spans.len() as u8,
            candidates.records@.len() <= i,
        decreases schemas@.len() - i,
    {
        let outcome = parse_schema(&fields, schemas[i]);
        candidates.add(outcome, Ghost(rs));
        proof {
            rs = rs.push(spec_record_result(outcome));
            assert(rs =~= spec_outcomes(f, schemas@).subrange(0, i + 1));
        }
        i = i + 1;
    }
    proof {
        assert(rs =~= spec_outcomes(f, schemas@));
    }
    candidates.finish(Ghost(rs))
}


/// What a positive decimal field gives as a process id: its digits' value.
proof fn lemma_pid_is_digits(v: Seq<char>)
    requires
        spec_parse_pid(v) is Ok,
    ensures
        all_digit_chars(v),
        v.len() > 0,
        spec_parse_pid(v)->Ok_0 as int == spec_digits_value(v),
{
    let d = spec_number_digits(v);
    lemma_digits_value_nonneg(d);
    if v.len() > 0 && v[0] == '-' {
        assert(spec_parse_i64(v)->Ok_0 as int == -spec_digits_value(d));
    } else {
        assert(d == v);
    }
}

/// An `am_anr` record reads its process id from the field right after the user id when a
/// user id leads (the user-prefixed schema), and from the first field otherwise: the pid is
/// the decimal value of that field, and the user id, where there is one, that of the first.
pub proof fn lemma_anr_pid_follows_the_user_id(payload: Seq<char>)
    ensures
        spec_parse_event_log(crate::util::text_bytes("am_anr"), payload) matches Ok(RecordView::Anr(a)) ==> {
            let f = spec_payload_fields(payload)->Ok_0;
            let base: int = if a.schema == EventLogSchemaId::AmAnrUserPrefixed { 1 } else { 0 };
            &&& spec_payload_fields(payload) is Ok
            &&& f.spans.len() > base
            &&& all_digit_chars(f.field(base))
            &&& a.pid as int == spec_digits_value(f.field(base))
            &&& (a.schema == EventLogSchemaId::AmAnrUserPrefixed ==> a.user_id == Some(spec_parse_i32(f.field(0))->Ok_0)
                && spec_parse_i32(f.field(0)) is Ok)
            &&& (a.schema != EventLogSchemaId::AmAnrUserPrefixed ==> a.user_id is None && a.schema
                == EventLogSchemaId::AmAnrLegacyNoUser)
        },
{
    let tag = crate::util::text_bytes("am_anr");
    let r = spec_parse_event_log(tag, payload);
    match r {
        Ok(RecordView::Anr(a)) => {
        let schemas = seq![EventLogSchemaId::AmAnrLegacyNoUser, EventLogSchemaId::AmAnrUserPrefixed];
        assert(spec_tag_schemas(tag) == Some(schemas));
        let f = spec_payload_fields(payload)->Ok_0;
        let rs = spec_outcomes(f, schemas);
        reveal(spec_parse_schema);
        assert(rs.len() == 2);
        assert(rs[0] == spec_parse_anr(f, EventLogSchemaId::AmAnrLegacyNoUser));
        assert(rs[1] == spec_parse_anr(f, EventLogSchemaId::AmAnrUserPrefixed));
        assert(rs.drop_last().drop_last() =~= Seq::<Result<RecordView, SchemaFailure>>::empty());
        assert(rs.drop_last().last() == rs[0]);
        let ok = spec_successes(rs);
        let r0 = rs.drop_last();
        assert(spec_successes(r0.drop_last()) == Seq::<RecordView>::empty());
        assert(spec_successes(r0) == (match rs[0] {
            Ok(x) => seq![x],
            Err(_) => Seq::<RecordView>::empty(),
        })) by {
            assert(r0.last() == rs[0]);
            if rs[0] is Ok {
                assert(Seq::<RecordView>::empty().push(rs[0]->Ok_0) =~= seq![rs[0]->Ok_0]);
            }
        }
        assert(ok.len() == 1 && ok[0] == RecordView::Anr(a));
        if rs[1] is Ok && rs[1]->Ok_0 == RecordView::Anr(a) {
            let f1 = f.field(1);
            lemma_pid_is_digits(f1);
        } else {
            assert(rs[0] == Ok::<RecordView, SchemaFailure>(RecordView::Anr(a)));
            lemma_pid_is_digits(f.field(0));
        }
        },
        _ => {},
    }
}


/// Whether a schema's records lead with a user id.
pub open spec fn spec_user_prefixed(schema: EventLogSchemaId) -> bool {
    schema == EventLogSchemaId::AmAnrUserPrefixed || schema == EventLogSchemaId::AmProcDiedUserPrefixed
        || schema == EventLogSchemaId::AmProcDiedModernTail || schema == EventLogSchemaId::AmProcStartUserPrefixed
        || schema == EventLogSchemaId::AmCrashUserPrefixed || schema == EventLogSchemaId::AmCrashModernTail
        || schema == EventLogSchemaId::AmKillUserPrefixed || schema == EventLogSchemaId::AmKillModernTail
}

/// The process id a record carries.
pub open spec fn spec_record_pid(r: RecordView) -> u32 {
    match r {
        RecordView::Anr(x) => x.pid,
        RecordView::ProcDied(x) => x.pid,
        RecordView::ProcStart(x) => x.pid,
        RecordView::Crash(x) => x.pid,
        RecordView::Kill(x) => x.pid,
    }
}

/// The user id a record carries.
pub open spec fn spec_record_user(r: RecordView) -> Option<i32> {
    match r {
        RecordView::Anr(x) => x.user_id,
        RecordView::ProcDied(x) => x.user_id,
        RecordView::ProcStart(x) => x.user_id,
        RecordView::Crash(x) => x.user_id,
        RecordView::Kill(x) => x.user_id,
    }
}

/// Under every schema, a record reads its process id from the field right after the user id
/// where a user id leads, and from the first field otherwise: the pid is that field's
/// decimal value, and the user id, where the schema has one, is the first field's.
pub proof fn lemma_pid_follows_the_user_id(f: FieldsView, schema: EventLogSchemaId)
    ensures
        spec_parse_schema(f, schema) matches Ok(r) ==> {
            let base: int = if spec_user_prefixed(schema) { 1 } else { 0 };
            &&& f.spans.len() > base
            &&& all_digit_chars(f.field(base))
            &&& spec_record_pid(r) as int == spec_digits_value(f.field(base))
            &&& spec_user_prefixed(schema) ==> spec_parse_i32(f.field(0)) is Ok && spec_record_user(r) == Some(spec_parse_i32(f.field(0))->Ok_0)
            &&& !spec_user_prefixed(schema) ==> spec_record_user(r) is None
        },
{
    reveal(spec_parse_schema);
    if spec_parse_schema(f, schema) is Ok {
        let base: int = if spec_user_prefixed(schema) { 1 } else { 0 };
        lemma_pid_is_digits(f.field(base));
    }
}


proof fn lemma_schema_of_record(f: FieldsView, schema: EventLogSchemaId)
    ensures
        spec_parse_schema(f, schema) matches Ok(r) ==> r.schema() == schema,
{
    reveal(spec_parse_schema);
}

proof fn lemma_successes_come_from_outcomes(rs: Seq<Result<RecordView, SchemaFailure>>)
    ensures
        forall|x: int| 0 <= x < spec_successes(rs).len() ==> exists|i: int| 0 <= i < rs.len()
            && rs[i] == Ok::<RecordView, SchemaFailure>(#[trigger] spec_successes(rs)[x]),
    decreases rs.len(),
{
    if rs.len() > 0 {
        let prev = rs.drop_last();
        lemma_successes_come_from_outcomes(prev);
        let ok = spec_successes(rs);
        assert forall|x: int| 0 <= x < ok.len() implies exists|i: int| 0 <= i < rs.len()
            && rs[i] == Ok::<RecordView, SchemaFailure>(#[trigger] ok[x]) by {
            if x < spec_successes(prev).len() {
                assert(ok[x] == spec_successes(prev)[x]);
                let i = choose|i: int| 0 <= i < prev.len() && prev[i] == Ok::<RecordView, SchemaFailure>(spec_successes(prev)[x]);
                assert(rs[i] == prev[i]);
            } else {
                assert(rs[rs.len() - 1] == Ok::<RecordView, SchemaFailure>(ok[x]));
            }
        }
    }
}

/// Whatever the tag, a parsed event-log record reads its process id from the field right
/// after the user id where its schema leads with one, and from the first field otherwise.
pub proof fn lemma_event_log_pid_follows_the_user_id(tag: Seq<u8>, payload: Seq<char>)
    ensures
        spec_parse_event_log(tag, payload) matches Ok(r) ==> {
            let f = spec_payload_fields(payload)->Ok_0;
            let base: int = if spec_user_prefixed(r.schema()) { 1 } else { 0 };
            &&& spec_payload_fields(payload) is Ok
            &&& f.spans.len() > base
            &&& all_digit_chars(f.field(base))
            &&& spec_record_pid(r) as int == spec_digits_value(f.field(base))
            &&& spec_user_prefixed(r.schema()) ==> spec_parse_i32(f.field(0)) is Ok && spec_record_user(r) == Some(
                spec_parse_i32(f.field(0))->Ok_0)
            &&& !spec_user_prefixed(r.schema()) ==> spec_record_user(r) is None
        },
{
    match spec_parse_event_log(tag, payload) {
        Ok(r) => {
            let schemas = spec_tag_schemas(tag)->Some_0;
            let f = spec_payload_fields(payload)->Ok_0;
            let rs = spec_outcomes(f, schemas);
            lemma_successes_come_from_outcomes(rs);
            assert(spec_successes(rs)[0] == r);
            let i = choose|i: int| 0 <= i < rs.len() && rs[i] == Ok::<RecordView, SchemaFailure>(spec_successes(rs)[0]);
            assert(rs[i] == spec_parse_schema(f, schemas[i]));
            lemma_schema_of_record(f, schemas[i]);
            lemma_pid_follows_the_user_id(f, schemas[i]);
        },
        _ => {},
    }
}

} // verus!
