use vstd::prelude::*;
use crate::parser::ParsedLine;
use crate::util::{
    bytes_equal_text, contains_text, is_digit, spec_contains, spec_digit, spec_starts_with,
    spec_trim_start, starts_with_text, text_bytes, trim_start,
};

verus! {

/// Bit of a Java fatal-exception start.
pub const CANDIDATE_JAVA_FATAL: u16 = 0x1;
/// Bit of a Java out-of-memory line.
pub const CANDIDATE_JAVA_OOM: u16 = 0x2;
/// Bit of an ANR start.
pub const CANDIDATE_ANR: u16 = 0x4;
/// Bit of a structured event-log record.
pub const CANDIDATE_EVENT_LOG: u16 = 0x8;
/// Bit of a native crash start.
pub const CANDIDATE_NATIVE_CRASH: u16 = 0x10;
/// Bit of a process lifecycle line.
pub const CANDIDATE_LIFECYCLE: u16 = 0x20;
/// Bit of a low-memory-killer kill.
pub const CANDIDATE_LMK: u16 = 0x40;
/// Bit of a kernel OOM kill.
pub const CANDIDATE_KERNEL_OOM: u16 = 0x80;
/// Bit of an allowlisted continuation line.
pub const CANDIDATE_CONTINUATION: u16 = 0x100;

/// 廉价候选类别位集。分类只决定“哪些确定性 parser 值得看这一行”，不提交 Problem。
#[derive(Debug, Clone, Copy, PartialEq, Eq, Hash, Default, Structural)]
pub struct CandidateKinds(pub u16);

impl CandidateKinds {
    #[allow(non_snake_case)]
    pub fn EMPTY() -> (r: CandidateKinds)
        ensures
            r.0 == 0,
    {
        CandidateKinds(0)
    }

    #[allow(non_snake_case)]
    pub fn JAVA_FATAL() -> (r: CandidateKinds)
        ensures
            r.0 == CANDIDATE_JAVA_FATAL,
    {
        CandidateKinds(CANDIDATE_JAVA_FATAL)
    }

    #[allow(non_snake_case)]
    pub fn JAVA_OOM() -> (r: CandidateKinds)
        ensures
            r.0 == CANDIDATE_JAVA_OOM,
    {
        CandidateKinds(CANDIDATE_JAVA_OOM)
    }

    #[allow(non_snake_case)]
    pub fn ANR() -> (r: CandidateKinds)
        ensures
            r.0 == CANDIDATE_ANR,
    {
        CandidateKinds(CANDIDATE_ANR)
    }

    #[allow(non_snake_case)]
    pub fn EVENT_LOG() -> (r: CandidateKinds)
        ensures
            r.0 == CANDIDATE_EVENT_LOG,
    {
        CandidateKinds(CANDIDATE_EVENT_LOG)
    }

    #[allow(non_snake_case)]
    pub fn NATIVE_CRASH() -> (r: CandidateKinds)
        ensures
            r.0 == CANDIDATE_NATIVE_CRASH,
    {
        CandidateKinds(CANDIDATE_NATIVE_CRASH)
    }

    #[allow(non_snake_case)]
    pub fn LIFECYCLE() -> (r: CandidateKinds)
        ensures
            r.0 == CANDIDATE_LIFECYCLE,
    {
        CandidateKinds(CANDIDATE_LIFECYCLE)
    }

    #[allow(non_snake_case)]
    pub fn LMK() -> (r: CandidateKinds)
        ensures
            r.0 == CANDIDATE_LMK,
    {
        CandidateKinds(CANDIDATE_LMK)
    }

    #[allow(non_snake_case)]
    pub fn KERNEL_OOM() -> (r: CandidateKinds)
        ensures
            r.0 == CANDIDATE_KERNEL_OOM,
    {
        CandidateKinds(CANDIDATE_KERNEL_OOM)
    }

    #[allow(non_snake_case)]
    pub fn CONTINUATION() -> (r: CandidateKinds)
        ensures
            r.0 == CANDIDATE_CONTINUATION,
    {
        CandidateKinds(CANDIDATE_CONTINUATION)
    }

    pub fn is_empty(self) -> (r: bool)
        ensures
            r == (self.0 == 0),
    {
        self.0 == 0
    }

    pub fn contains(self, other: Self) -> (r: bool)
        ensures
            r == (self.0 & other.0 == other.0),
    {
        self.0 & other.0 == other.0
    }

    /// Adds every bit of `other`.
    pub fn insert(&mut self, other: Self)
        ensures
            final(self).0 == old(self).0 | other.0,
    {
        self.0 = self.0 | other.0;
    }
}

impl core::ops::BitOr for CandidateKinds {
    type Output = CandidateKinds;

    fn bitor(self, rhs: CandidateKinds) -> (r: CandidateKinds) {
        CandidateKinds(self.0 | rhs.0)
    }
}

impl vstd::std_specs::ops::BitOrSpecImpl for CandidateKinds {
    open spec fn obeys_bitor_spec() -> bool {
        true
    }

    open spec fn bitor_req(self, rhs: CandidateKinds) -> bool {
        true
    }

    open spec fn bitor_spec(self, rhs: CandidateKinds) -> CandidateKinds {
        CandidateKinds(self.0 | rhs.0)
    }
}

/// `b` begins with `p` and has at least one byte after it.
pub open spec fn spec_starts_with_payload(b: Seq<u8>, p: Seq<u8>) -> bool {
    spec_starts_with(b, p) && b.len() > p.len()
}

/// The level is exactly `E` or `F`.
pub open spec fn spec_error_or_fatal_level(level: Seq<u8>) -> bool {
    level == text_bytes("E") || level == text_bytes("F")
}

/// Text that announces a Java out-of-memory error.
pub open spec fn spec_java_oom_text(m: Seq<u8>) -> bool {
    spec_contains(m, text_bytes("java.lang.OutOfMemoryError"))
        || spec_starts_with_payload(m, text_bytes("Throwing OutOfMemoryError"))
        || spec_starts_with_payload(m, text_bytes("Out of memory on a "))
}

/// The separator line that opens a tombstone.
pub open spec fn spec_tombstone_separator(b: Seq<u8>) -> bool {
    spec_starts_with(b, text_bytes("*** *** *** *** *** *** *** ***"))
}

/// Text of a kernel OOM kill.
pub open spec fn spec_kernel_oom_text(b: Seq<u8>) -> bool {
    spec_contains(b, text_bytes("invoked oom-killer:"))
        || spec_contains(b, text_bytes("oom-kill:constraint="))
        || spec_contains(b, text_bytes("Out of memory: Killed process "))
        || spec_contains(b, text_bytes("Memory cgroup out of memory: Killed process "))
}

/// `#`, two ASCII digits and a space: a native backtrace frame.
pub open spec fn spec_native_frame_prefix(b: Seq<u8>) -> bool {
    b.len() >= 4 && b[0] == 0x23u8 && spec_digit(b[1]) && spec_digit(b[2]) && b[3] == 0x20u8
}

/// One of the allowlisted continuation starts.
pub open spec fn spec_raw_continuation(b: Seq<u8>) -> bool {
    spec_starts_with(b, text_bytes("at "))
        || spec_starts_with(b, text_bytes("Caused by: "))
        || spec_starts_with(b, text_bytes("Suppressed: "))
        || spec_starts_with(b, text_bytes("... "))
        || spec_starts_with(b, text_bytes("Process: "))
        || spec_starts_with(b, text_bytes("PID: "))
        || spec_starts_with(b, text_bytes("pid: "))
        || spec_starts_with(b, text_bytes("Reason: "))
        || spec_starts_with(b, text_bytes("Subject: "))
        || spec_starts_with(b, text_bytes("Cmdline: "))
        || spec_starts_with(b, text_bytes("Abort message: "))
        || spec_starts_with(b, text_bytes("signal "))
        || spec_starts_with(b, text_bytes("backtrace:"))
        || spec_starts_with(b, text_bytes(">>> "))
        || spec_starts_with(b, text_bytes("java."))
        || spec_starts_with(b, text_bytes("javax."))
        || spec_starts_with(b, text_bytes("kotlin."))
        || spec_starts_with(b, text_bytes("android."))
        || spec_native_frame_prefix(b)
}

/// A continuation after leading ASCII whitespace.
pub open spec fn spec_tagged_continuation(m: Seq<u8>) -> bool {
    spec_raw_continuation(spec_trim_start(m))
}

/// The candidate bits of a line whose tag, level and message bytes are given, with the
/// whole raw line for untagged text.
pub open spec fn spec_classify(tag: Seq<u8>, level: Seq<u8>, message: Seq<u8>, raw: Seq<u8>) -> u16 {
    if tag == text_bytes("AndroidRuntime") {
        let fatal = spec_error_or_fatal_level(level) && (spec_starts_with_payload(
            message,
            text_bytes("FATAL EXCEPTION:"),
        ) || spec_starts_with_payload(message, text_bytes("*** FATAL EXCEPTION IN SYSTEM PROCESS:")));
        let oom = spec_java_oom_text(message);
        if fatal && oom {
            CANDIDATE_JAVA_FATAL | CANDIDATE_JAVA_OOM
        } else if fatal {
            CANDIDATE_JAVA_FATAL
        } else if oom {
            CANDIDATE_JAVA_OOM
        } else if spec_tagged_continuation(message) {
            CANDIDATE_CONTINUATION
        } else {
            0
        }
    } else if tag == text_bytes("art") || tag == text_bytes("dalvikvm") {
        if spec_java_oom_text(message) {
            CANDIDATE_JAVA_OOM
        } else {
            0
        }
    } else if tag == text_bytes("ActivityManager") {
        let anr = spec_starts_with_payload(message, text_bytes("ANR in "));
        let life = (spec_starts_with_payload(message, text_bytes("Process ")) && spec_contains(
            message,
            text_bytes(" has died"),
        )) || spec_starts_with_payload(message, text_bytes("Start proc "));
        if anr && life {
            CANDIDATE_ANR | CANDIDATE_LIFECYCLE
        } else if anr {
            CANDIDATE_ANR
        } else if life {
            CANDIDATE_LIFECYCLE
        } else if spec_tagged_continuation(message) {
            CANDIDATE_CONTINUATION
        } else {
            0
        }
    } else if tag == text_bytes("am_crash") {
        CANDIDATE_EVENT_LOG
    } else if tag == text_bytes("am_anr") {
        CANDIDATE_EVENT_LOG | CANDIDATE_ANR
    } else if tag == text_bytes("am_proc_start") || tag == text_bytes("am_proc_died") || tag
        == text_bytes("am_kill") {
        CANDIDATE_EVENT_LOG | CANDIDATE_LIFECYCLE
    } else if tag == text_bytes("Zygote") {
        if spec_starts_with_payload(message, text_bytes("Process ")) && spec_contains(
            message,
            text_bytes(" exited due to signal "),
        ) {
            CANDIDATE_LIFECYCLE
        } else {
            0
        }
    } else if tag == text_bytes("libc") {
        if spec_starts_with_payload(message, text_bytes("Fatal signal ")) {
            CANDIDATE_NATIVE_CRASH
        } else if spec_tagged_continuation(message) {
            CANDIDATE_CONTINUATION
        } else {
            0
        }
    } else if tag == text_bytes("DEBUG") || tag == text_bytes("debuggerd") {
        if spec_tombstone_separator(message) {
            CANDIDATE_NATIVE_CRASH
        } else if spec_tagged_continuation(message) {
            CANDIDATE_CONTINUATION
        } else {
            0
        }
    } else if tag == text_bytes("lmkd") {
        if spec_starts_with_payload(message, text_bytes("Kill '")) {
            CANDIDATE_LMK
        } else {
            0
        }
    } else if tag == text_bytes("lowmemorykiller") {
        if spec_starts_with_payload(message, text_bytes("Kill '")) || spec_starts_with_payload(
            message,
            text_bytes("Killing '"),
        ) {
            CANDIDATE_LMK
        } else {
            0
        }
    } else if tag == text_bytes("kernel") {
        let oom = spec_kernel_oom_text(message);
        let lmk = spec_contains(message, text_bytes("lowmemorykiller: Killing '"));
        if oom && lmk {
            CANDIDATE_KERNEL_OOM | CANDIDATE_LMK
        } else if oom {
            CANDIDATE_KERNEL_OOM
        } else if lmk {
            CANDIDATE_LMK
        } else {
            0
        }
    } else if tag.len() == 0 {
        let r = spec_trim_start(raw);
        if spec_tombstone_separator(r) {
            CANDIDATE_NATIVE_CRASH
        } else if spec_kernel_oom_text(r) {
            CANDIDATE_KERNEL_OOM
        } else if spec_contains(r, text_bytes("lowmemorykiller: Killing '")) {
            CANDIDATE_LMK
        } else if spec_raw_continuation(r) {
            CANDIDATE_CONTINUATION
        } else {
            0
        }
    } else {
        0
    }
}

/// A continuation never opens a candidate: whenever the continuation bit is set, it is the
/// only bit set.
pub proof fn lemma_continuation_is_exclusive(tag: Seq<u8>, level: Seq<u8>, message: Seq<u8>, raw: Seq<u8>)
    ensures
        spec_classify(tag, level, message, raw) & CANDIDATE_CONTINUATION != 0 ==> spec_classify(
            tag,
            level,
            message,
            raw,
        ) == CANDIDATE_CONTINUATION,
{
    assert({
        &&& 0u16 & 0x100u16 == 0
        &&& 0x1u16 & 0x100u16 == 0
        &&& 0x2u16 & 0x100u16 == 0
        &&& 0x4u16 & 0x100u16 == 0
        &&& 0x8u16 & 0x100u16 == 0
        &&& 0x10u16 & 0x100u16 == 0
        &&& 0x20u16 & 0x100u16 == 0
        &&& 0x40u16 & 0x100u16 == 0
        &&& 0x80u16 & 0x100u16 == 0
        &&& (0x1u16 | 0x2u16) & 0x100u16 == 0
        &&& (0x4u16 | 0x20u16) & 0x100u16 == 0
        &&& (0x8u16 | 0x4u16) & 0x100u16 == 0
        &&& (0x8u16 | 0x20u16) & 0x100u16 == 0
        &&& (0x80u16 | 0x40u16) & 0x100u16 == 0
    }) by (bit_vector);
}

/// A line tagged exactly `Zygote` whose message starts with `Process ` (with more text after
/// it) and reports ` exited due to signal ` is a lifecycle candidate, whatever its level and
/// raw bytes.
/// Any other `Zygote` line is no candidate at all.
pub proof fn lemma_zygote_signal_exit_is_lifecycle(level: Seq<u8>, message: Seq<u8>, raw: Seq<u8>)
    ensures
        spec_starts_with(message, text_bytes("Process ")) && message.len() > text_bytes("Process ").len()
            && spec_contains(message, text_bytes(" exited due to signal ")) ==> spec_classify(text_bytes("Zygote"), level,
            message, raw) & CANDIDATE_LIFECYCLE == CANDIDATE_LIFECYCLE,
        !(spec_starts_with(message, text_bytes("Process ")) && message.len() > text_bytes("Process ").len()
            && spec_contains(message, text_bytes(" exited due to signal "))) ==> spec_classify(text_bytes("Zygote"), level,
            message, raw) == 0,
{
    reveal_strlit("Zygote");
    assert(vstd::string::is_ascii("Zygote"));
    vstd::string::is_ascii_spec_bytes("Zygote");
    reveal_strlit("AndroidRuntime");
    assert(vstd::string::is_ascii("AndroidRuntime"));
    vstd::string::is_ascii_spec_bytes("AndroidRuntime");
    reveal_strlit("art");
    assert(vstd::string::is_ascii("art"));
    vstd::string::is_ascii_spec_bytes("art");
    reveal_strlit("dalvikvm");
    assert(vstd::string::is_ascii("dalvikvm"));
    vstd::string::is_ascii_spec_bytes("dalvikvm");
    reveal_strlit("ActivityManager");
    assert(vstd::string::is_ascii("ActivityManager"));
    vstd::string::is_ascii_spec_bytes("ActivityManager");
    reveal_strlit("am_crash");
    assert(vstd::string::is_ascii("am_crash"));
    vstd::string::is_ascii_spec_bytes("am_crash");
    reveal_strlit("am_anr");
    assert(vstd::string::is_ascii("am_anr"));
    vstd::string::is_ascii_spec_bytes("am_anr");
    reveal_strlit("am_proc_start");
    assert(vstd::string::is_ascii("am_proc_start"));
    vstd::string::is_ascii_spec_bytes("am_proc_start");
    reveal_strlit("am_proc_died");
    assert(vstd::string::is_ascii("am_proc_died"));
    vstd::string::is_ascii_spec_bytes("am_proc_died");
    reveal_strlit("am_kill");
    assert(vstd::string::is_ascii("am_kill"));
    vstd::string::is_ascii_spec_bytes("am_kill");
    let z = text_bytes("Zygote");
    assert(z.len() == 6);
    assert(z != text_bytes("AndroidRuntime"));
    assert(z != text_bytes("art"));
    assert(z != text_bytes("dalvikvm"));
    assert(z != text_bytes("ActivityManager"));
    assert(z != text_bytes("am_crash"));
    assert(z[0] != text_bytes("am_anr")[0]);
    assert(z != text_bytes("am_proc_start"));
    assert(z != text_bytes("am_proc_died"));
    assert(z != text_bytes("am_kill"));
    assert(0x20u16 & 0x20u16 == 0x20u16) by (bit_vector);
}

/// Each platform tag opens the candidates its report begins: a fatal exception on
/// `AndroidRuntime` (at level E or F), an ANR on `ActivityManager`, a fatal signal on `libc`,
/// a kill on `lmkd` or `lowmemorykiller`; and the event-log tags are event-log candidates of
/// their kind.
pub proof fn lemma_tags_open_their_candidates(level: Seq<u8>, message: Seq<u8>, raw: Seq<u8>)
    ensures
        (level == text_bytes("E") || level == text_bytes("F")) && spec_starts_with(message, text_bytes("FATAL EXCEPTION:")) && message.len() > text_bytes("FATAL EXCEPTION:").len() ==> spec_classify(text_bytes("AndroidRuntime"), level,
            message, raw) & CANDIDATE_JAVA_FATAL == CANDIDATE_JAVA_FATAL,
        spec_starts_with(message, text_bytes("ANR in ")) && message.len() > text_bytes("ANR in ").len() ==> spec_classify(text_bytes("ActivityManager"), level, message, raw) & CANDIDATE_ANR == CANDIDATE_ANR,
        spec_classify(text_bytes("am_anr"), level, message, raw) == CANDIDATE_EVENT_LOG | CANDIDATE_ANR,
        spec_classify(text_bytes("am_crash"), level, message, raw) == CANDIDATE_EVENT_LOG,
        spec_classify(text_bytes("am_proc_start"), level, message, raw) == CANDIDATE_EVENT_LOG | CANDIDATE_LIFECYCLE,
        spec_classify(text_bytes("am_proc_died"), level, message, raw) == CANDIDATE_EVENT_LOG | CANDIDATE_LIFECYCLE,
        spec_classify(text_bytes("am_kill"), level, message, raw) == CANDIDATE_EVENT_LOG | CANDIDATE_LIFECYCLE,
        spec_starts_with(message, text_bytes("Fatal signal ")) && message.len() > text_bytes("Fatal signal ").len() ==> spec_classify(text_bytes("libc"), level, message, raw) == CANDIDATE_NATIVE_CRASH,
        spec_starts_with(message, text_bytes("Kill '")) && message.len() > text_bytes("Kill '").len() ==> spec_classify(text_bytes("lmkd"), level, message, raw) == CANDIDATE_LMK,
        (spec_starts_with(message, text_bytes("Kill '")) && message.len() > text_bytes("Kill '").len()) || (spec_starts_with(message, text_bytes("Killing '")) && message.len() > text_bytes("Killing '").len()) ==> spec_classify(text_bytes("lowmemorykiller"), level, message, raw) == CANDIDATE_LMK,
{
    reveal_strlit("AndroidRuntime");
    assert(vstd::string::is_ascii("AndroidRuntime"));
    vstd::string::is_ascii_spec_bytes("AndroidRuntime");
    reveal_strlit("art");
    assert(vstd::string::is_ascii("art"));
    vstd::string::is_ascii_spec_bytes("art");
    reveal_strlit("dalvikvm");
    assert(vstd::string::is_ascii("dalvikvm"));
    vstd::string::is_ascii_spec_bytes("dalvikvm");
    reveal_strlit("ActivityManager");
    assert(vstd::string::is_ascii("ActivityManager"));
    vstd::string::is_ascii_spec_bytes("ActivityManager");
    reveal_strlit("am_crash");
    assert(vstd::string::is_ascii("am_crash"));
    vstd::string::is_ascii_spec_bytes("am_crash");
    reveal_strlit("am_anr");
    assert(vstd::string::is_ascii("am_anr"));
    vstd::string::is_ascii_spec_bytes("am_anr");
    reveal_strlit("am_proc_start");
    assert(vstd::string::is_ascii("am_proc_start"));
    vstd::string::is_ascii_spec_bytes("am_proc_start");
    reveal_strlit("am_proc_died");
    assert(vstd::string::is_ascii("am_proc_died"));
    vstd::string::is_ascii_spec_bytes("am_proc_died");
    reveal_strlit("am_kill");
    assert(vstd::string::is_ascii("am_kill"));
    vstd::string::is_ascii_spec_bytes("am_kill");
    reveal_strlit("Zygote");
    assert(vstd::string::is_ascii("Zygote"));
    vstd::string::is_ascii_spec_bytes("Zygote");
    reveal_strlit("libc");
    assert(vstd::string::is_ascii("libc"));
    vstd::string::is_ascii_spec_bytes("libc");
    reveal_strlit("DEBUG");
    assert(vstd::string::is_ascii("DEBUG"));
    vstd::string::is_ascii_spec_bytes("DEBUG");
    reveal_strlit("debuggerd");
    assert(vstd::string::is_ascii("debuggerd"));
    vstd::string::is_ascii_spec_bytes("debuggerd");
    reveal_strlit("lmkd");
    assert(vstd::string::is_ascii("lmkd"));
    vstd::string::is_ascii_spec_bytes("lmkd");
    reveal_strlit("lowmemorykiller");
    assert(vstd::string::is_ascii("lowmemorykiller"));
    vstd::string::is_ascii_spec_bytes("lowmemorykiller");
    reveal_strlit("kernel");
    assert(vstd::string::is_ascii("kernel"));
    vstd::string::is_ascii_spec_bytes("kernel");
    reveal_strlit("FATAL EXCEPTION:");
    assert(vstd::string::is_ascii("FATAL EXCEPTION:"));
    vstd::string::is_ascii_spec_bytes("FATAL EXCEPTION:");
    reveal_strlit("ANR in ");
    assert(vstd::string::is_ascii("ANR in "));
    vstd::string::is_ascii_spec_bytes("ANR in ");
    reveal_strlit("Fatal signal ");
    assert(vstd::string::is_ascii("Fatal signal "));
    vstd::string::is_ascii_spec_bytes("Fatal signal ");
    reveal_strlit("Kill '");
    assert(vstd::string::is_ascii("Kill '"));
    vstd::string::is_ascii_spec_bytes("Kill '");
    reveal_strlit("Killing '");
    assert(vstd::string::is_ascii("Killing '"));
    vstd::string::is_ascii_spec_bytes("Killing '");
    reveal_strlit("E");
    assert(vstd::string::is_ascii("E"));
    vstd::string::is_ascii_spec_bytes("E");
    reveal_strlit("F");
    assert(vstd::string::is_ascii("F"));
    vstd::string::is_ascii_spec_bytes("F");
    assert(text_bytes("ActivityManager").len() != text_bytes("AndroidRuntime").len());
    assert(text_bytes("ActivityManager").len() != text_bytes("art").len());
    assert(text_bytes("ActivityManager").len() != text_bytes("dalvikvm").len());
    assert(text_bytes("am_anr").len() != text_bytes("AndroidRuntime").len());
    assert(text_bytes("am_anr").len() != text_bytes("art").len());
    assert(text_bytes("am_anr").len() != text_bytes("dalvikvm").len());
    assert(text_bytes("am_anr").len() != text_bytes("ActivityManager").len());
    assert(text_bytes("am_anr").len() != text_bytes("am_crash").len());
    assert(text_bytes("am_crash").len() != text_bytes("AndroidRuntime").len());
    assert(text_bytes("am_crash").len() != text_bytes("art").len());
    assert(text_bytes("am_crash")[0] != text_bytes("dalvikvm")[0]);
    assert(text_bytes("am_crash").len() != text_bytes("ActivityManager").len());
    assert(text_bytes("am_proc_start").len() != text_bytes("AndroidRuntime").len());
    assert(text_bytes("am_proc_start").len() != text_bytes("art").len());
    assert(text_bytes("am_proc_start").len() != text_bytes("dalvikvm").len());
    assert(text_bytes("am_proc_start").len() != text_bytes("ActivityManager").len());
    assert(text_bytes("am_proc_start").len() != text_bytes("am_crash").len());
    assert(text_bytes("am_proc_start").len() != text_bytes("am_anr").len());
    assert(text_bytes("am_proc_died").len() != text_bytes("AndroidRuntime").len());
    assert(text_bytes("am_proc_died").len() != text_bytes("art").len());
    assert(text_bytes("am_proc_died").len() != text_bytes("dalvikvm").len());
    assert(text_bytes("am_proc_died").len() != text_bytes("ActivityManager").len());
    assert(text_bytes("am_proc_died").len() != text_bytes("am_crash").len());
    assert(text_bytes("am_proc_died").len() != text_bytes("am_anr").len());
    assert(text_bytes("am_proc_died").len() != text_bytes("am_proc_start").len());
    assert(text_bytes("am_kill").len() != text_bytes("AndroidRuntime").len());
    assert(text_bytes("am_kill").len() != text_bytes("art").len());
    assert(text_bytes("am_kill").len() != text_bytes("dalvikvm").len());
    assert(text_bytes("am_kill").len() != text_bytes("ActivityManager").len());
    assert(text_bytes("am_kill").len() != text_bytes("am_crash").len());
    assert(text_bytes("am_kill").len() != text_bytes("am_anr").len());
    assert(text_bytes("am_kill").len() != text_bytes("am_proc_start").len());
    assert(text_bytes("am_kill").len() != text_bytes("am_proc_died").len());
    assert(text_bytes("libc").len() != text_bytes("AndroidRuntime").len());
    assert(text_bytes("libc").len() != text_bytes("art").len());
    assert(text_bytes("libc").len() != text_bytes("dalvikvm").len());
    assert(text_bytes("libc").len() != text_bytes("ActivityManager").len());
    assert(text_bytes("libc").len() != text_bytes("am_crash").len());
    assert(text_bytes("libc").len() != text_bytes("am_anr").len());
    assert(text_bytes("libc").len() != text_bytes("am_proc_start").len());
    assert(text_bytes("libc").len() != text_bytes("am_proc_died").len());
    assert(text_bytes("libc").len() != text_bytes("am_kill").len());
    assert(text_bytes("libc").len() != text_bytes("Zygote").len());
    assert(text_bytes("lmkd").len() != text_bytes("AndroidRuntime").len());
    assert(text_bytes("lmkd").len() != text_bytes("art").len());
    assert(text_bytes("lmkd").len() != text_bytes("dalvikvm").len());
    assert(text_bytes("lmkd").len() != text_bytes("ActivityManager").len());
    assert(text_bytes("lmkd").len() != text_bytes("am_crash").len());
    assert(text_bytes("lmkd").len() != text_bytes("am_anr").len());
    assert(text_bytes("lmkd").len() != text_bytes("am_proc_start").len());
    assert(text_bytes("lmkd").len() != text_bytes("am_proc_died").len());
    assert(text_bytes("lmkd").len() != text_bytes("am_kill").len());
    assert(text_bytes("lmkd").len() != text_bytes("Zygote").len());
    assert(text_bytes("lmkd")[1] != text_bytes("libc")[1]);
    assert(text_bytes("lmkd").len() != text_bytes("DEBUG").len());
    assert(text_bytes("lmkd").len() != text_bytes("debuggerd").len());
    assert(text_bytes("lowmemorykiller").len() != text_bytes("AndroidRuntime").len());
    assert(text_bytes("lowmemorykiller").len() != text_bytes("art").len());
    assert(text_bytes("lowmemorykiller").len() != text_bytes("dalvikvm").len());
    assert(text_bytes("lowmemorykiller")[0] != text_bytes("ActivityManager")[0]);
    assert(text_bytes("lowmemorykiller").len() != text_bytes("am_crash").len());
    assert(text_bytes("lowmemorykiller").len() != text_bytes("am_anr").len());
    assert(text_bytes("lowmemorykiller").len() != text_bytes("am_proc_start").len());
    assert(text_bytes("lowmemorykiller").len() != text_bytes("am_proc_died").len());
    assert(text_bytes("lowmemorykiller").len() != text_bytes("am_kill").len());
    assert(text_bytes("lowmemorykiller").len() != text_bytes("Zygote").len());
    assert(text_bytes("lowmemorykiller").len() != text_bytes("libc").len());
    assert(text_bytes("lowmemorykiller").len() != text_bytes("DEBUG").len());
    assert(text_bytes("lowmemorykiller").len() != text_bytes("debuggerd").len());
    assert(text_bytes("lowmemorykiller").len() != text_bytes("lmkd").len());
    assert({
        &&& 0x1u16 & 0x1u16 == 0x1u16
        &&& (0x1u16 | 0x2u16) & 0x1u16 == 0x1u16
        &&& 0x4u16 & 0x4u16 == 0x4u16
        &&& (0x4u16 | 0x20u16) & 0x4u16 == 0x4u16
    }) by (bit_vector);
}

fn starts_with_payload(bytes: &[u8], prefix: &str) -> (r: bool)
    ensures
        r == spec_starts_with_payload(bytes@, text_bytes(prefix)),
{
    starts_with_text(bytes, prefix) && bytes.len() > prefix.as_bytes().len()
}

fn is_error_or_fatal_level(level: &[u8]) -> (r: bool)
    ensures
        r == spec_error_or_fatal_level(level@),
{
    bytes_equal_text(level, "E") || bytes_equal_text(level, "F")
}

fn is_java_oom_text(message: &[u8]) -> (r: bool)
    ensures
        r == spec_java_oom_text(message@),
{
    contains_text(message, "java.lang.OutOfMemoryError") || starts_with_payload(
        message,
        "Throwing OutOfMemoryError",
    ) || starts_with_payload(message, "Out of memory on a ")
}

fn is_tombstone_separator(bytes: &[u8]) -> (r: bool)
    ensures
        r == spec_tombstone_separator(bytes@),
{
    starts_with_text(bytes, "*** *** *** *** *** *** *** ***")
}

fn is_kernel_oom_text(bytes: &[u8]) -> (r: bool)
    ensures
        r == spec_kernel_oom_text(bytes@),
{
    contains_text(bytes, "invoked oom-killer:") || contains_text(bytes, "oom-kill:constraint=")
        || contains_text(bytes, "Out of memory: Killed process ") || contains_text(
        bytes,
        "Memory cgroup out of memory: Killed process ",
    )
}

fn is_native_frame_prefix(bytes: &[u8]) -> (r: bool)
    ensures
        r == spec_native_frame_prefix(bytes@),
{
    bytes.len() >= 4 && bytes[0] == 0x23u8 && is_digit(bytes[1]) && is_digit(bytes[2]) && bytes[3]
        == 0x20u8
}

fn is_raw_continuation(bytes: &[u8]) -> (r: bool)
    ensures
        r == spec_raw_continuation(bytes@),
{
    starts_with_text(bytes, "at ") || starts_with_text(bytes, "Caused by: ") || starts_with_text(
        bytes,
        "Suppressed: ",
    ) || starts_with_text(bytes, "... ") || starts_with_text(bytes, "Process: ")
        || starts_with_text(bytes, "PID: ") || starts_with_text(bytes, "pid: ") || starts_with_text(
        bytes,
        "Reason: ",
    ) || starts_with_text(bytes, "Subject: ") || starts_with_text(bytes, "Cmdline: ")
        || starts_with_text(bytes, "Abort message: ") || starts_with_text(bytes, "signal ")
        || starts_with_text(bytes, "backtrace:") || starts_with_text(bytes, ">>> ")
        || starts_with_text(bytes, "java.") || starts_with_text(bytes, "javax.")
        || starts_with_text(bytes, "kotlin.") || starts_with_text(bytes, "android.")
        || is_native_frame_prefix(bytes)
}

fn is_tagged_continuation(message: &[u8]) -> (r: bool)
    ensures
        r == spec_tagged_continuation(message@),
{
    is_raw_continuation(trim_start(message))
}

/// 无分配候选预筛。
///
/// 策略有意保守：
/// - 带 logcat prefix 的候选开始必须使用大小写敏感的精确平台 tag。
/// - 无 tag 的 raw 行只接受严格 tombstone/kernel/legacy-LMK 起始文本。
/// - allowlist continuation 只设置 `CONTINUATION`；它不能自行打开或提交事件，是否附着
///   仍由已有 recognizer 状态、producer 与歧义规则决定。
pub fn classify_candidate(line: &ParsedLine<'_>, raw_bytes: &[u8]) -> (r: CandidateKinds)
    ensures
        r.0 == spec_classify(
            text_bytes(line.tag),
            text_bytes(line.level),
            text_bytes(line.message),
            raw_bytes@,
        ),
{
    let tag = line.tag.as_bytes();
    let message = line.message.as_bytes();
    if bytes_equal_text(tag, "AndroidRuntime") {
        let fatal = is_error_or_fatal_level(line.level.as_bytes()) && (starts_with_payload(
            message,
            "FATAL EXCEPTION:",
        ) || starts_with_payload(message, "*** FATAL EXCEPTION IN SYSTEM PROCESS:"));
        let oom = is_java_oom_text(message);
        if fatal && oom {
            CandidateKinds(CANDIDATE_JAVA_FATAL | CANDIDATE_JAVA_OOM)
        } else if fatal {
            CandidateKinds(CANDIDATE_JAVA_FATAL)
        } else if oom {
            CandidateKinds(CANDIDATE_JAVA_OOM)
        } else if is_tagged_continuation(message) {
            CandidateKinds(CANDIDATE_CONTINUATION)
        } else {
            CandidateKinds(0)
        }
    } else if bytes_equal_text(tag, "art") || bytes_equal_text(tag, "dalvikvm") {
        if is_java_oom_text(message) {
            CandidateKinds(CANDIDATE_JAVA_OOM)
        } else {
            CandidateKinds(0)
        }
    } else if bytes_equal_text(tag, "ActivityManager") {
        let anr = starts_with_payload(message, "ANR in ");
        let life = (starts_with_payload(message, "Process ") && contains_text(
            message,
            " has died",
        )) || starts_with_payload(message, "Start proc ");
        if anr && life {
            CandidateKinds(CANDIDATE_ANR | CANDIDATE_LIFECYCLE)
        } else if anr {
            CandidateKinds(CANDIDATE_ANR)
        } else if life {
            CandidateKinds(CANDIDATE_LIFECYCLE)
        } else if is_tagged_continuation(message) {
            CandidateKinds(CANDIDATE_CONTINUATION)
        } else {
            CandidateKinds(0)
        }
    } else if bytes_equal_text(tag, "am_crash") {
        CandidateKinds(CANDIDATE_EVENT_LOG)
    } else if bytes_equal_text(tag, "am_anr") {
        CandidateKinds(CANDIDATE_EVENT_LOG | CANDIDATE_ANR)
    } else if bytes_equal_text(tag, "am_proc_start") || bytes_equal_text(tag, "am_proc_died")
        || bytes_equal_text(tag, "am_kill") {
        CandidateKinds(CANDIDATE_EVENT_LOG | CANDIDATE_LIFECYCLE)
    } else if bytes_equal_text(tag, "Zygote") {
        if starts_with_payload(message, "Process ") && contains_text(
            message,
            " exited due to signal ",
        ) {
            CandidateKinds(CANDIDATE_LIFECYCLE)
        } else {
            CandidateKinds(0)
        }
    } else if bytes_equal_text(tag, "libc") {
        if starts_with_payload(message, "Fatal signal ") {
            CandidateKinds(CANDIDATE_NATIVE_CRASH)
        } else if is_tagged_continuation(message) {
            CandidateKinds(CANDIDATE_CONTINUATION)
        } else {
            CandidateKinds(0)
        }
    } else if bytes_equal_text(tag, "DEBUG") || bytes_equal_text(tag, "debuggerd") {
        if is_tombstone_separator(message) {
            CandidateKinds(CANDIDATE_NATIVE_CRASH)
        } else if is_tagged_continuation(message) {
            CandidateKinds(CANDIDATE_CONTINUATION)
        } else {
            CandidateKinds(0)
        }
    } else if bytes_equal_text(tag, "lmkd") {
        if starts_with_payload(message, "Kill '") {
            CandidateKinds(CANDIDATE_LMK)
        } else {
            CandidateKinds(0)
        }
    } else if bytes_equal_text(tag, "lowmemorykiller") {
        if starts_with_payload(message, "Kill '") || starts_with_payload(message, "Killing '") {
            CandidateKinds(CANDIDATE_LMK)
        } else {
            CandidateKinds(0)
        }
    } else if bytes_equal_text(tag, "kernel") {
        let oom = is_kernel_oom_text(message);
        let lmk = contains_text(message, "lowmemorykiller: Killing '");
        if oom && lmk {
            CandidateKinds(CANDIDATE_KERNEL_OOM | CANDIDATE_LMK)
        } else if oom {
            CandidateKinds(CANDIDATE_KERNEL_OOM)
        } else if lmk {
            CandidateKinds(CANDIDATE_LMK)
        } else {
            CandidateKinds(0)
        }
    } else if tag.len() == 0 {
        let raw = trim_start(raw_bytes);
        if is_tombstone_separator(raw) {
            CandidateKinds(CANDIDATE_NATIVE_CRASH)
        } else if is_kernel_oom_text(raw) {
            CandidateKinds(CANDIDATE_KERNEL_OOM)
        } else if contains_text(raw, "lowmemorykiller: Killing '") {
            CandidateKinds(CANDIDATE_LMK)
        } else if is_raw_continuation(raw) {
            CandidateKinds(CANDIDATE_CONTINUATION)
        } else {
            CandidateKinds(0)
        }
    } else {
        CandidateKinds(0)
    }
}

} // verus!
