use vstd::prelude::*;
use crate::util::{bytes_equal_text, text_bytes};

verus! {

#[derive(Debug, Clone, Copy, PartialEq, Eq, Hash, Structural)]
pub enum LogBuffer {
    Main,
    System,
    Events,
    Crash,
    Radio,
    Kernel,
}

impl LogBuffer {
    /// The packed code of a buffer.
    pub open spec fn spec_code(self) -> u8 {
        match self {
            LogBuffer::Main => 0,
            LogBuffer::System => 1,
            LogBuffer::Events => 2,
            LogBuffer::Crash => 3,
            LogBuffer::Radio => 4,
            LogBuffer::Kernel => 5,
        }
    }

    /// The buffer with a packed code.
    pub open spec fn spec_from_code(value: u8) -> Option<LogBuffer> {
        if value == 0 {
            Some(LogBuffer::Main)
        } else if value == 1 {
            Some(LogBuffer::System)
        } else if value == 2 {
            Some(LogBuffer::Events)
        } else if value == 3 {
            Some(LogBuffer::Crash)
        } else if value == 4 {
            Some(LogBuffer::Radio)
        } else if value == 5 {
            Some(LogBuffer::Kernel)
        } else {
            None
        }
    }

    pub fn code(self) -> (r: u8)
        ensures
            r == self.spec_code(),
    {
        match self {
            LogBuffer::Main => 0,
            LogBuffer::System => 1,
            LogBuffer::Events => 2,
            LogBuffer::Crash => 3,
            LogBuffer::Radio => 4,
            LogBuffer::Kernel => 5,
        }
    }

    /// The single-bit mask of a buffer inside a `BufferSet`.
    pub open spec fn spec_bit(self) -> u8 {
        match self {
            LogBuffer::Main => 1,
            LogBuffer::System => 2,
            LogBuffer::Events => 4,
            LogBuffer::Crash => 8,
            LogBuffer::Radio => 16,
            LogBuffer::Kernel => 32,
        }
    }

    pub fn bit(self) -> (r: u8)
        ensures
            r == self.spec_bit(),
    {
        match self {
            LogBuffer::Main => 1,
            LogBuffer::System => 2,
            LogBuffer::Events => 4,
            LogBuffer::Crash => 8,
            LogBuffer::Radio => 16,
            LogBuffer::Kernel => 32,
        }
    }

    pub fn from_packed(value: u8) -> (r: Option<Self>)
        ensures
            r == Self::spec_from_code(value),
    {
        match value {
            0 => Some(LogBuffer::Main),
            1 => Some(LogBuffer::System),
            2 => Some(LogBuffer::Events),
            3 => Some(LogBuffer::Crash),
            4 => Some(LogBuffer::Radio),
            5 => Some(LogBuffer::Kernel),
            _ => None,
        }
    }
}

/// Decoding the packed code of a buffer gives the buffer back.
pub proof fn lemma_log_buffer_code_round_trip(buffer: LogBuffer)
    ensures
        LogBuffer::spec_from_code(buffer.spec_code()) == Some(buffer),
        buffer.spec_code() < 16,
{
}

/// A set of logcat buffers, one bit per buffer.
#[derive(Debug, Default, Clone, Copy, PartialEq, Eq, Hash, Structural)]
pub struct BufferSet(pub u8);

impl BufferSet {
    pub open spec fn spec_bits(self) -> u8 {
        self.0
    }

    #[allow(non_snake_case)]
    pub fn NONE() -> (r: BufferSet)
        ensures
            r.spec_bits() == 0,
    {
        BufferSet(0)
    }

    /// The set that holds one buffer.
    pub fn of(buffer: LogBuffer) -> (r: BufferSet)
        ensures
            r.spec_bits() == buffer.spec_bit(),
    {
        BufferSet(buffer.bit())
    }

    #[allow(non_snake_case)]
    pub fn MAIN() -> (r: BufferSet)
        ensures
            r.spec_bits() == LogBuffer::Main.spec_bit(),
    {
        BufferSet::of(LogBuffer::Main)
    }

    #[allow(non_snake_case)]
    pub fn SYSTEM() -> (r: BufferSet)
        ensures
            r.spec_bits() == LogBuffer::System.spec_bit(),
    {
        BufferSet::of(LogBuffer::System)
    }

    #[allow(non_snake_case)]
    pub fn EVENTS() -> (r: BufferSet)
        ensures
            r.spec_bits() == LogBuffer::Events.spec_bit(),
    {
        BufferSet::of(LogBuffer::Events)
    }

    #[allow(non_snake_case)]
    pub fn CRASH() -> (r: BufferSet)
        ensures
            r.spec_bits() == LogBuffer::Crash.spec_bit(),
    {
        BufferSet::of(LogBuffer::Crash)
    }

    #[allow(non_snake_case)]
    pub fn RADIO() -> (r: BufferSet)
        ensures
            r.spec_bits() == LogBuffer::Radio.spec_bit(),
    {
        BufferSet::of(LogBuffer::Radio)
    }

    #[allow(non_snake_case)]
    pub fn KERNEL() -> (r: BufferSet)
        ensures
            r.spec_bits() == LogBuffer::Kernel.spec_bit(),
    {
        BufferSet::of(LogBuffer::Kernel)
    }

    /// Whether the set holds a buffer.
    pub open spec fn spec_contains(self, buffer: LogBuffer) -> bool {
        self.spec_bits() & buffer.spec_bit() != 0
    }

    pub fn contains(self, buffer: LogBuffer) -> (r: bool)
        ensures
            r == self.spec_contains(buffer),
    {
        self.0 & buffer.bit() != 0
    }

    pub fn bits(self) -> (r: u8)
        ensures
            r == self.spec_bits(),
    {
        self.0
    }

    /// The union of two sets.
    pub fn union(self, rhs: BufferSet) -> (r: BufferSet)
        ensures
            r.spec_bits() == self.spec_bits() | rhs.spec_bits(),
    {
        BufferSet(self.0 | rhs.0)
    }
}

impl core::ops::BitOr for BufferSet {
    type Output = BufferSet;

    fn bitor(self, rhs: BufferSet) -> (r: BufferSet) {
        BufferSet(self.0 | rhs.0)
    }
}

impl vstd::std_specs::ops::BitOrSpecImpl for BufferSet {
    open spec fn obeys_bitor_spec() -> bool {
        true
    }

    open spec fn bitor_req(self, rhs: BufferSet) -> bool {
        true
    }

    open spec fn bitor_spec(self, rhs: BufferSet) -> BufferSet {
        BufferSet(self.0 | rhs.0)
    }
}

/// A union keeps every buffer of either operand, and adds none.
pub proof fn lemma_buffer_set_union_contains(a: BufferSet, b: BufferSet, buffer: LogBuffer)
    ensures
        (a.spec_bits() | b.spec_bits()) & buffer.spec_bit() != 0 <==> a.spec_contains(buffer)
            || b.spec_contains(buffer),
{
    let x = a.spec_bits();
    let y = b.spec_bits();
    let m = buffer.spec_bit();
    assert(m == 1 || m == 2 || m == 4 || m == 8 || m == 16 || m == 32);
    assert((x | y) & m != 0 <==> (x & m != 0 || y & m != 0)) by (bit_vector)
        requires
            m == 1 || m == 2 || m == 4 || m == 8 || m == 16 || m == 32,
    ;
}

#[derive(Debug, Clone, Copy, PartialEq, Eq, Hash, Structural)]
pub enum CaptureOrigin {
    StaticFile,
    AdbLive,
}

#[derive(Debug, Clone, Copy, PartialEq, Eq, Hash, Structural)]
pub enum RangeCompleteness {
    Unknown,
    Bounded,
    StartTruncated,
    EndTruncated,
}

#[derive(Debug, Clone, Copy, PartialEq, Eq, Hash, Structural)]
pub struct InputCoverage {
    origin: CaptureOrigin,
    requested_buffers: BufferSet,
    requested_buffers_known: bool,
    range_completeness: RangeCompleteness,
}

impl InputCoverage {
    pub closed spec fn spec_origin(self) -> CaptureOrigin {
        self.origin
    }

    /// The buffers the capture requested, when the capture contract states them.
    pub closed spec fn spec_requested_buffers(self) -> Option<BufferSet> {
        if self.requested_buffers_known {
            Some(self.requested_buffers)
        } else {
            None
        }
    }

    pub closed spec fn spec_range_completeness(self) -> RangeCompleteness {
        self.range_completeness
    }

    pub fn static_file(range_completeness: RangeCompleteness) -> (r: Self)
        ensures
            r.spec_origin() == CaptureOrigin::StaticFile,
            r.spec_requested_buffers() is None,
            r.spec_range_completeness() == range_completeness,
    {
        InputCoverage {
            origin: CaptureOrigin::StaticFile,
            requested_buffers: BufferSet(0),
            requested_buffers_known: false,
            range_completeness,
        }
    }

    pub fn adb_live(requested_buffers: BufferSet, range_completeness: RangeCompleteness) -> (r: Self)
        ensures
            r.spec_origin() == CaptureOrigin::AdbLive,
            r.spec_requested_buffers() == Some(requested_buffers),
            r.spec_range_completeness() == range_completeness,
    {
        InputCoverage {
            origin: CaptureOrigin::AdbLive,
            requested_buffers,
            requested_buffers_known: true,
            range_completeness,
        }
    }

    pub fn origin(self) -> (r: CaptureOrigin)
        ensures
            r == self.spec_origin(),
    {
        self.origin
    }

    pub fn requested_buffers(self) -> (r: Option<BufferSet>)
        ensures
            r == self.spec_requested_buffers(),
    {
        if self.requested_buffers_known {
            Some(self.requested_buffers)
        } else {
            None
        }
    }

    pub fn range_completeness(self) -> (r: RangeCompleteness)
        ensures
            r == self.spec_range_completeness(),
    {
        self.range_completeness
    }

    /// Whether the capture contract states the requested buffers and `buffer` is not one of them.
    pub open spec fn spec_excludes(self, buffer: LogBuffer) -> bool {
        self.spec_requested_buffers() matches Some(set) && !set.spec_contains(buffer)
    }

    /// The provenance that the capture contract lets a line of `format` carry.
    pub open spec fn spec_infer(self, format: EvidenceFormat, provenance: LineProvenance) -> LineProvenance {
        if provenance != LineProvenance::Unknown {
            provenance
        } else {
            match format {
                EvidenceFormat::EventLogShapedText => if self.spec_excludes(LogBuffer::Events) {
                    LineProvenance::Unknown
                } else {
                    LineProvenance::Inferred(LogBuffer::Events)
                },
                _ => LineProvenance::Unknown,
            }
        }
    }

    /// Add only source-specific inference that the capture contract permits.
    pub fn infer_format_provenance(self, format: EvidenceFormat, provenance: LineProvenance) -> (r: LineProvenance)
        ensures
            r == self.spec_infer(format, provenance),
    {
        if provenance != LineProvenance::Unknown {
            return provenance;
        }
        match format {
            EvidenceFormat::EventLogShapedText => {
                let excluded = match self.requested_buffers() {
                    Some(buffers) => !buffers.contains(LogBuffer::Events),
                    None => false,
                };
                if excluded {
                    LineProvenance::Unknown
                } else {
                    LineProvenance::Inferred(LogBuffer::Events)
                }
            },
            EvidenceFormat::KernelShapedText | EvidenceFormat::AospText
            | EvidenceFormat::TombstoneShapedText => LineProvenance::Unknown,
        }
    }

    /// The admission of a line of `format` under this capture.
    pub open spec fn spec_admission(self, format: EvidenceFormat, provenance: LineProvenance) -> EvidenceAdmission {
        let blocked = match format {
            EvidenceFormat::EventLogShapedText => self.spec_excludes(LogBuffer::Events),
            EvidenceFormat::KernelShapedText => self.spec_excludes(LogBuffer::Kernel),
            _ => false,
        };
        if blocked {
            EvidenceAdmission::Rejected
        } else {
            spec_evidence_admission(format, self.spec_infer(format, provenance))
        }
    }

    pub fn admit_line(self, format: EvidenceFormat, provenance: LineProvenance) -> (r: EvidenceAdmission)
        ensures
            r == self.spec_admission(format, provenance),
    {
        let required_buffer = match format {
            EvidenceFormat::EventLogShapedText => Some(LogBuffer::Events),
            EvidenceFormat::KernelShapedText => Some(LogBuffer::Kernel),
            EvidenceFormat::AospText | EvidenceFormat::TombstoneShapedText => None,
        };
        let blocked = match required_buffer {
            Some(required) => match self.requested_buffers() {
                Some(requested) => !requested.contains(required),
                None => false,
            },
            None => false,
        };
        if blocked {
            return EvidenceAdmission::Rejected;
        }
        evidence_admission(format, self.infer_format_provenance(format, provenance))
    }
}

#[derive(Debug, Clone, Copy, PartialEq, Eq, Hash, Structural)]
pub enum LineProvenance {
    Unknown,
    Inferred(LogBuffer),
    Known(LogBuffer),
}

impl LineProvenance {
    /// The one-byte packing of a provenance.
    pub open spec fn spec_pack(self) -> u8 {
        match self {
            LineProvenance::Unknown => 0,
            LineProvenance::Inferred(buffer) => (0x40 + buffer.spec_code()) as u8,
            LineProvenance::Known(buffer) => (0x80 + buffer.spec_code()) as u8,
        }
    }

    /// The provenance a packed byte stands for.
    pub open spec fn spec_unpack(value: u8) -> Option<LineProvenance> {
        let buffer = value % 16;
        let high = value / 16;
        if high == 0 {
            if buffer == 0 {
                Some(LineProvenance::Unknown)
            } else {
                None
            }
        } else if high == 4 {
            match LogBuffer::spec_from_code(buffer) {
                Some(b) => Some(LineProvenance::Inferred(b)),
                None => None,
            }
        } else if high == 8 {
            match LogBuffer::spec_from_code(buffer) {
                Some(b) => Some(LineProvenance::Known(b)),
                None => None,
            }
        } else {
            None
        }
    }

    pub fn pack(self) -> (r: u8)
        ensures
            r == self.spec_pack(),
    {
        match self {
            LineProvenance::Unknown => 0,
            LineProvenance::Inferred(buffer) => 0x40 + buffer.code(),
            LineProvenance::Known(buffer) => 0x80 + buffer.code(),
        }
    }

    pub fn unpack(value: u8) -> (r: Option<Self>)
        ensures
            r == Self::spec_unpack(value),
    {
        let buffer = value % 16;
        let high = value / 16;
        if high == 0 {
            if buffer == 0 {
                Some(LineProvenance::Unknown)
            } else {
                None
            }
        } else if high == 4 {
            match LogBuffer::from_packed(buffer) {
                Some(b) => Some(LineProvenance::Inferred(b)),
                None => None,
            }
        } else if high == 8 {
            match LogBuffer::from_packed(buffer) {
                Some(b) => Some(LineProvenance::Known(b)),
                None => None,
            }
        } else {
            None
        }
    }
}

/// Unpacking a packed provenance gives the provenance back.
pub proof fn lemma_provenance_pack_round_trip(provenance: LineProvenance)
    ensures
        LineProvenance::spec_unpack(provenance.spec_pack()) == Some(provenance),
{
}

/// Streaming fallback provenance derived from exact logcat buffer dividers.
///
/// The tracker owns only the active buffer, so memory use is constant regardless
/// of input size. A divider affects rows after itself. Provenance supplied by an
/// input adapter wins for the current row; a valid divider still advances the
/// fallback state used after that explicit span ends.
#[derive(Debug, Default, Clone, Copy, PartialEq, Eq, Structural)]
pub struct BufferProvenanceTracker {
    pub active_buffer: Option<LogBuffer>,
}

/// The bytes of the divider line that starts a buffer's section.
pub open spec fn spec_divider_text(buffer: LogBuffer) -> Seq<u8> {
    match buffer {
        LogBuffer::Main => text_bytes("--------- beginning of main"),
        LogBuffer::System => text_bytes("--------- beginning of system"),
        LogBuffer::Events => text_bytes("--------- beginning of events"),
        LogBuffer::Crash => text_bytes("--------- beginning of crash"),
        LogBuffer::Radio => text_bytes("--------- beginning of radio"),
        LogBuffer::Kernel => text_bytes("--------- beginning of kernel"),
    }
}

/// `line` without one trailing `\n` and then one trailing `\r`.
pub open spec fn spec_strip_line_ending(line: Seq<u8>) -> Seq<u8> {
    let a = if line.len() > 0 && line.last() == 0x0Au8 {
        line.drop_last()
    } else {
        line
    };
    if a.len() > 0 && a.last() == 0x0Du8 {
        a.drop_last()
    } else {
        a
    }
}

/// The buffer whose exact divider the line is, if any.
pub open spec fn spec_parse_divider(raw_line: Seq<u8>) -> Option<LogBuffer> {
    let line = spec_strip_line_ending(raw_line);
    if line == spec_divider_text(LogBuffer::Main) {
        Some(LogBuffer::Main)
    } else if line == spec_divider_text(LogBuffer::System) {
        Some(LogBuffer::System)
    } else if line == spec_divider_text(LogBuffer::Events) {
        Some(LogBuffer::Events)
    } else if line == spec_divider_text(LogBuffer::Crash) {
        Some(LogBuffer::Crash)
    } else if line == spec_divider_text(LogBuffer::Radio) {
        Some(LogBuffer::Radio)
    } else if line == spec_divider_text(LogBuffer::Kernel) {
        Some(LogBuffer::Kernel)
    } else {
        None
    }
}

pub fn parse_logcat_buffer_divider(raw_line: &[u8]) -> (r: Option<LogBuffer>)
    ensures
        r == spec_parse_divider(raw_line@),
{
    let mut end = raw_line.len();
    if end > 0 && raw_line[end - 1] == 0x0Au8 {
        end = end - 1;
    }
    if end > 0 && raw_line[end - 1] == 0x0Du8 {
        end = end - 1;
    }
    let line = &raw_line[0..end];
    proof {
        let a = if raw_line@.len() > 0 && raw_line@.last() == 0x0Au8 {
            raw_line@.drop_last()
        } else {
            raw_line@
        };
        assert(a =~= raw_line@.subrange(0, a.len() as int));
        assert(line@ =~= spec_strip_line_ending(raw_line@));
    }
    if bytes_equal_text(line, "--------- beginning of main") {
        Some(LogBuffer::Main)
    } else if bytes_equal_text(line, "--------- beginning of system") {
        Some(LogBuffer::System)
    } else if bytes_equal_text(line, "--------- beginning of events") {
        Some(LogBuffer::Events)
    } else if bytes_equal_text(line, "--------- beginning of crash") {
        Some(LogBuffer::Crash)
    } else if bytes_equal_text(line, "--------- beginning of radio") {
        Some(LogBuffer::Radio)
    } else if bytes_equal_text(line, "--------- beginning of kernel") {
        Some(LogBuffer::Kernel)
    } else {
        None
    }
}

impl BufferProvenanceTracker {
    pub fn new() -> (r: Self)
        ensures
            r.active_buffer is None,
    {
        BufferProvenanceTracker { active_buffer: None }
    }

    /// The provenance of the current row: explicit adapter provenance wins, else the
    /// buffer of the last divider before this row. A divider row moves the fallback for
    /// later rows only.
    pub fn observe_stable_line(&mut self, raw_line: &[u8], adapter_provenance: LineProvenance) -> (r: LineProvenance)
        ensures
            r == (match adapter_provenance {
                LineProvenance::Unknown => match old(self).active_buffer {
                    Some(b) => LineProvenance::Known(b),
                    None => LineProvenance::Unknown,
                },
                explicit => explicit,
            }),
            final(self).active_buffer == (match spec_parse_divider(raw_line@) {
                Some(b) => Some(b),
                None => old(self).active_buffer,
            }),
    {
        let fallback = match self.active_buffer {
            Some(b) => LineProvenance::Known(b),
            None => LineProvenance::Unknown,
        };
        let resolved = match adapter_provenance {
            LineProvenance::Unknown => fallback,
            explicit => explicit,
        };
        if let Some(buffer) = parse_logcat_buffer_divider(raw_line) {
            self.active_buffer = Some(buffer);
        }
        resolved
    }
}

#[derive(Debug, Clone, Copy, PartialEq, Eq, Hash, Structural)]
pub enum EvidenceFormat {
    AospText,
    EventLogShapedText,
    TombstoneShapedText,
    KernelShapedText,
}

impl EvidenceFormat {
    pub open spec fn spec_code(self) -> u8 {
        match self {
            EvidenceFormat::AospText => 0,
            EvidenceFormat::EventLogShapedText => 1,
            EvidenceFormat::TombstoneShapedText => 2,
            EvidenceFormat::KernelShapedText => 3,
        }
    }

    pub open spec fn spec_from_code(value: u8) -> Option<EvidenceFormat> {
        if value == 0 {
            Some(EvidenceFormat::AospText)
        } else if value == 1 {
            Some(EvidenceFormat::EventLogShapedText)
        } else if value == 2 {
            Some(EvidenceFormat::TombstoneShapedText)
        } else if value == 3 {
            Some(EvidenceFormat::KernelShapedText)
        } else {
            None
        }
    }

    pub fn code(self) -> (r: u8)
        ensures
            r == self.spec_code(),
    {
        match self {
            EvidenceFormat::AospText => 0,
            EvidenceFormat::EventLogShapedText => 1,
            EvidenceFormat::TombstoneShapedText => 2,
            EvidenceFormat::KernelShapedText => 3,
        }
    }

    pub fn from_packed(value: u8) -> (r: Option<Self>)
        ensures
            r == Self::spec_from_code(value),
    {
        match value {
            0 => Some(EvidenceFormat::AospText),
            1 => Some(EvidenceFormat::EventLogShapedText),
            2 => Some(EvidenceFormat::TombstoneShapedText),
            3 => Some(EvidenceFormat::KernelShapedText),
            _ => None,
        }
    }
}

#[derive(Debug, Clone, Copy, PartialEq, Eq, Structural)]
pub enum EvidenceAdmission {
    CommitEligible,
    SupportingOnly,
    Rejected,
}

/// How far a line of `format` with `provenance` may be trusted.
pub open spec fn spec_evidence_admission(format: EvidenceFormat, provenance: LineProvenance) -> EvidenceAdmission {
    match format {
        EvidenceFormat::AospText | EvidenceFormat::TombstoneShapedText => EvidenceAdmission::CommitEligible,
        EvidenceFormat::EventLogShapedText => match provenance {
            LineProvenance::Known(LogBuffer::Events) => EvidenceAdmission::CommitEligible,
            LineProvenance::Inferred(LogBuffer::Events) => EvidenceAdmission::SupportingOnly,
            _ => EvidenceAdmission::Rejected,
        },
        EvidenceFormat::KernelShapedText => match provenance {
            LineProvenance::Known(LogBuffer::Kernel) => EvidenceAdmission::CommitEligible,
            _ => EvidenceAdmission::Rejected,
        },
    }
}

pub fn evidence_admission(format: EvidenceFormat, provenance: LineProvenance) -> (r: EvidenceAdmission)
    ensures
        r == spec_evidence_admission(format, provenance),
{
    match format {
        EvidenceFormat::AospText | EvidenceFormat::TombstoneShapedText => EvidenceAdmission::CommitEligible,
        EvidenceFormat::EventLogShapedText => match provenance {
            LineProvenance::Known(LogBuffer::Events) => EvidenceAdmission::CommitEligible,
            LineProvenance::Inferred(LogBuffer::Events) => EvidenceAdmission::SupportingOnly,
            _ => EvidenceAdmission::Rejected,
        },
        EvidenceFormat::KernelShapedText => match provenance {
            LineProvenance::Known(LogBuffer::Kernel) => EvidenceAdmission::CommitEligible,
            _ => EvidenceAdmission::Rejected,
        },
    }
}

/// Kernel-shaped text never commits without a proven kernel source.
pub proof fn lemma_kernel_text_needs_known_kernel_source(provenance: LineProvenance)
    ensures
        spec_evidence_admission(EvidenceFormat::KernelShapedText, provenance)
            == EvidenceAdmission::CommitEligible <==> provenance == LineProvenance::Known(LogBuffer::Kernel),
{
}

/// The capture contract wins: a capture whose requested buffers exclude the events
/// buffer rejects event-log shaped text whatever the line's own provenance says.
pub proof fn lemma_capture_contract_wins(coverage: InputCoverage, provenance: LineProvenance)
    requires
        coverage.spec_excludes(LogBuffer::Events),
    ensures
        coverage.spec_admission(EvidenceFormat::EventLogShapedText, provenance) == EvidenceAdmission::Rejected,
{
}

#[derive(Debug, Clone, Copy, PartialEq, Eq, Structural)]
pub struct SourceSpan {
    start_line: u32,
    end_line: u32,
    buffer: LogBuffer,
}

#[derive(Debug, Clone, Copy, PartialEq, Eq, Structural)]
pub enum SourceSpanError {
    InvalidRange,
    Overlap,
    Capacity,
}

impl SourceSpan {
    pub closed spec fn spec_start(self) -> u32 {
        self.start_line
    }

    pub closed spec fn spec_end(self) -> u32 {
        self.end_line
    }

    pub closed spec fn spec_buffer(self) -> LogBuffer {
        self.buffer
    }

    pub closed spec fn wf(self) -> bool {
        self.start_line <= self.end_line
    }

    pub fn new(start_line: u32, end_line: u32, buffer: LogBuffer) -> (r: Result<Self, SourceSpanError>)
        ensures
            start_line > end_line ==> r == Err::<Self, SourceSpanError>(SourceSpanError::InvalidRange),
            start_line <= end_line ==> (r matches Ok(span) && span.spec_start() == start_line
                && span.spec_end() == end_line && span.spec_buffer() == buffer && span.wf()),
    {
        if start_line > end_line {
            return Err(SourceSpanError::InvalidRange);
        }
        Ok(SourceSpan { start_line, end_line, buffer })
    }

    pub fn start_line(self) -> (r: u32)
        ensures
            r == self.spec_start(),
    {
        self.start_line
    }

    pub fn end_line(self) -> (r: u32)
        ensures
            r == self.spec_end(),
    {
        self.end_line
    }
}

/// Non-overlapping source spans, kept sorted by start line.
#[derive(Debug, Default, Clone)]
pub struct SourceSpanIndex {
    spans: Vec<SourceSpan>,
}

/// Spans are well formed, sorted, and pairwise disjoint.
pub open spec fn spec_spans_ordered(spans: Seq<SourceSpan>) -> bool {
    &&& forall|i: int| 0 <= i < spans.len() ==> (#[trigger] spans[i]).wf()
    &&& forall|i: int, j: int| 0 <= i < j < spans.len() ==> spans[i].spec_end() < spans[j].spec_start()
}

/// The provenance that a set of spans assigns to a line.
pub open spec fn spec_span_provenance(spans: Seq<SourceSpan>, line: u32) -> LineProvenance {
    if exists|i: int| 0 <= i < spans.len() && (#[trigger] spans[i]).spec_start() <= line <= spans[i].spec_end() {
        let i = choose|i: int| 0 <= i < spans.len() && (#[trigger] spans[i]).spec_start() <= line <= spans[i].spec_end();
        LineProvenance::Known(spans[i].spec_buffer())
    } else {
        LineProvenance::Unknown
    }
}

impl SourceSpanIndex {
    pub closed spec fn spec_spans(&self) -> Seq<SourceSpan> {
        self.spans@
    }

    pub open spec fn wf(&self) -> bool {
        spec_spans_ordered(self.spec_spans())
    }

    pub fn new() -> (r: Self)
        ensures
            r.spec_spans() == Seq::<SourceSpan>::empty(),
            r.wf(),
    {
        SourceSpanIndex { spans: Vec::new() }
    }

    /// The number of spans whose start line is below `line`.
    fn count_starting_before(&self, line: u32) -> (r: usize)
        requires
            self.wf(),
        ensures
            r <= self.spans@.len(),
            forall|i: int| 0 <= i < r ==> (#[trigger] self.spans@[i]).spec_start() < line,
            forall|i: int| r <= i < self.spans@.len() ==> (#[trigger] self.spans@[i]).spec_start() >= line,
    {
        let mut i: usize = 0;
        while i < self.spans.len() && self.spans[i].start_line() < line
            invariant
                self.wf(),
                0 <= i <= self.spans@.len(),
                forall|k: int| 0 <= k < i ==> (#[trigger] self.spans@[k]).spec_start() < line,
            decreases self.spans@.len() - i,
        {
            i = i + 1;
        }
        proof {
            if i < self.spans@.len() {
                assert forall|k: int| i <= k < self.spans@.len() implies (#[trigger] self.spans@[k]).spec_start() >= line by {
                    if k > i {
                        assert(self.spans@[i as int].spec_end() < self.spans@[k].spec_start());
                        assert(self.spans@[i as int].wf());
                    }
                }
            }
        }
        i
    }

    /// Insert a span that overlaps none already held.
    pub fn insert(&mut self, span: SourceSpan) -> (r: Result<(), SourceSpanError>)
        requires
            old(self).wf(),
            span.wf(),
        ensures
            final(self).wf(),
            (exists|i: int| 0 <= i < old(self).spec_spans().len() && !((#[trigger] old(self).spec_spans()[i]).spec_end() < span.spec_start()
                || span.spec_end() < old(self).spec_spans()[i].spec_start())) ==> r == Err::<(), SourceSpanError>(SourceSpanError::Overlap)
                && final(self).spec_spans() == old(self).spec_spans(),
            r is Ok ==> final(self).spec_spans().to_multiset() == old(self).spec_spans().to_multiset().insert(span),
            r is Err ==> final(self).spec_spans() == old(self).spec_spans(),
            r is Ok || r == Err::<(), SourceSpanError>(SourceSpanError::Overlap),
            (forall|i: int| 0 <= i < old(self).spec_spans().len() ==> ((#[trigger] old(self).spec_spans()[i]).spec_end() < span.spec_start()
                || span.spec_end() < old(self).spec_spans()[i].spec_start())) ==> r is Ok,
    {
        let position = self.count_starting_before(span.start_line());
        if position > 0 && self.spans[position - 1].end_line() >= span.start_line() {
            proof {
                let w = position - 1;
                assert(!(self.spans@[w].spec_end() < span.spec_start() || span.spec_end() < self.spans@[w].spec_start()));
            }
            return Err(SourceSpanError::Overlap);
        }
        if position < self.spans.len() && self.spans[position].start_line() <= span.end_line() {
            proof {
                let w = position as int;
                assert(self.spans@[w].wf());
                assert(!(self.spans@[w].spec_end() < span.spec_start() || span.spec_end() < self.spans@[w].spec_start()));
            }
            return Err(SourceSpanError::Overlap);
        }
        proof {
            assert forall|i: int| 0 <= i < old(self).spec_spans().len() implies ((#[trigger] old(self).spec_spans()[i]).spec_end() < span.spec_start()
                || span.spec_end() < old(self).spec_spans()[i].spec_start()) by {
                if i < position as int {
                    if i < position - 1 {
                        assert(self.spans@[i].spec_end() < self.spans@[position - 1].spec_start());
                        assert(self.spans@[position - 1].wf());
                    }
                } else {
                    if i > position as int {
                        assert(self.spans@[position as int].spec_end() < self.spans@[i].spec_start());
                        assert(self.spans@[position as int].wf());
                    }
                }
            }
        }
        let ghost before = self.spans@;
        self.spans.insert(position, span);
        proof {
            assert(self.spans@ == before.insert(position as int, span));
            vstd::seq_lib::to_multiset_insert(before, position as int, span);
            assert forall|i: int, j: int| 0 <= i < j < self.spans@.len() implies self.spans@[i].spec_end() < self.spans@[j].spec_start() by {
                if j < position {
                } else if j == position {
                    if i < position - 1 {
                        assert(before[i].spec_end() < before[position - 1].spec_start());
                        assert(before[position - 1].wf());
                    }
                } else if i < position {
                    assert(before[j - 1].spec_start() >= span.spec_start());
                } else if i == position {
                    if j > position + 1 {
                        assert(before[position as int].spec_end() < before[j - 1].spec_start());
                        assert(before[position as int].wf());
                    }
                } else {
                    assert(before[i - 1].spec_end() < before[j - 1].spec_start());
                }
            }
        }
        Ok(())
    }

    /// The provenance a span assigns to `line`, or `Unknown` outside every span.
    pub fn provenance_at(&self, line: u32) -> (r: LineProvenance)
        requires
            self.wf(),
        ensures
            r == spec_span_provenance(self.spec_spans(), line),
    {
        let ghost spans = self.spans@;
        let mut i: usize = 0;
        while i < self.spans.len() && self.spans[i].start_line() <= line
            invariant
                self.wf(),
                0 <= i <= spans.len(),
                spans == self.spans@,
                forall|k: int| 0 <= k < i ==> (#[trigger] spans[k]).spec_start() <= line,
            decreases spans.len() - i,
        {
            i = i + 1;
        }
        if i == 0 {
            proof {
                assert forall|k: int| 0 <= k < spans.len() implies !((#[trigger] spans[k]).spec_start() <= line <= spans[k].spec_end()) by {
                    if k > 0 {
                        assert(spans[0].spec_end() < spans[k].spec_start());
                        assert(spans[0].wf());
                    }
                }
            }
            return LineProvenance::Unknown;
        }
        let span = self.spans[i - 1];
        if line <= span.end_line() {
            proof {
                let k = (i - 1) as int;
                assert(spans[k].spec_start() <= line <= spans[k].spec_end());
                let c = choose|c: int| 0 <= c < spans.len() && (#[trigger] spans[c]).spec_start() <= line <= spans[c].spec_end();
                if c != k {
                    if c < k {
                        assert(spans[c].spec_end() < spans[k].spec_start());
                    } else {
                        assert(spans[k].spec_end() < spans[c].spec_start());
                    }
                }
            }
            LineProvenance::Known(span.buffer)
        } else {
            proof {
                assert forall|k: int| 0 <= k < spans.len() implies !((#[trigger] spans[k]).spec_start() <= line <= spans[k].spec_end()) by {
                    let last = (i - 1) as int;
                    if k < last {
                        assert(spans[k].spec_end() < spans[last].spec_start());
                        assert(spans[last].wf());
                    } else if k > last {
                        if k >= i {
                            assert(spans[k].spec_start() > line) by {
                                if i < spans.len() {
                                    if k > i {
                                        assert(spans[i as int].spec_end() < spans[k].spec_start());
                                        assert(spans[i as int].wf());
                                    }
                                }
                            }
                        }
                    }
                }
            }
            LineProvenance::Unknown
        }
    }

    pub fn len(&self) -> (r: usize)
        ensures
            r == self.spec_spans().len(),
    {
        self.spans.len()
    }

    pub fn is_empty(&self) -> (r: bool)
        ensures
            r == (self.spec_spans().len() == 0),
    {
        self.spans.len() == 0
    }
}

} // verus!
