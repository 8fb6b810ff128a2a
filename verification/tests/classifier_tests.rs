use logcore::parser::ParsedLine;
use logcore::problems::classifier::{classify_candidate, CandidateKinds};
use std::mem::{needs_drop, size_of};

fn parsed<'a>(tag: &'a str, message: &'a str) -> ParsedLine<'a> {
    ParsedLine { level: "E", tag, message, ..Default::default() }
}

#[test]
fn candidate_kinds_is_a_compact_copy_bitset() {
    assert_eq!(size_of::<CandidateKinds>(), 2);
    assert!(!needs_drop::<CandidateKinds>());
    let kinds = CandidateKinds::JAVA_FATAL() | CandidateKinds::JAVA_OOM();
    let copied = kinds;
    assert_eq!(copied, kinds);
}

#[test]
fn android_runtime_requires_exact_tag_and_strict_fatal_or_oom_text() {
    let fatal = parsed("AndroidRuntime", "FATAL EXCEPTION: main");
    assert_eq!(classify_candidate(&fatal, b"ignored"), CandidateKinds::JAVA_FATAL());

    let system = parsed("AndroidRuntime", "*** FATAL EXCEPTION IN SYSTEM PROCESS: system_server");
    assert_eq!(classify_candidate(&system, b"ignored"), CandidateKinds::JAVA_FATAL());

    let oom = parsed("AndroidRuntime", "java.lang.OutOfMemoryError: Failed to allocate");
    assert_eq!(classify_candidate(&oom, b"ignored"), CandidateKinds::JAVA_OOM());

    let fatal_oom = parsed("AndroidRuntime", "FATAL EXCEPTION: main java.lang.OutOfMemoryError");
    assert_eq!(
        classify_candidate(&fatal_oom, b"ignored"),
        CandidateKinds::JAVA_FATAL() | CandidateKinds::JAVA_OOM()
    );

    assert!(classify_candidate(&parsed("App", "FATAL EXCEPTION: copied text"), b"FATAL EXCEPTION: copied text")
        .is_empty());
    assert!(classify_candidate(&parsed("androidruntime", "FATAL EXCEPTION: main"), b"FATAL EXCEPTION: main")
        .is_empty());
    assert!(classify_candidate(&parsed("AndroidRuntime", "fatal exception: main"), b"fatal exception: main")
        .is_empty());
    let mut info = parsed("AndroidRuntime", "FATAL EXCEPTION: copied text");
    info.level = "I";
    assert!(classify_candidate(&info, b"ignored").is_empty());
}

#[test]
fn anr_and_eventlog_candidates_use_exact_platform_tags() {
    assert_eq!(
        classify_candidate(&parsed("ActivityManager", "ANR in com.example.app"), b"ignored"),
        CandidateKinds::ANR()
    );
    assert_eq!(
        classify_candidate(&parsed("am_anr", "[0,123,com.example,reason]"), b"ignored"),
        CandidateKinds::EVENT_LOG() | CandidateKinds::ANR()
    );
    assert_eq!(
        classify_candidate(&parsed("am_crash", "[0,123,com.example,...]"), b"ignored"),
        CandidateKinds::EVENT_LOG()
    );
    for tag in ["am_proc_start", "am_proc_died", "am_kill"] {
        assert_eq!(
            classify_candidate(&parsed(tag, "[0,123,com.example]"), b"ignored"),
            CandidateKinds::EVENT_LOG() | CandidateKinds::LIFECYCLE(),
            "tag {tag}"
        );
    }
    assert_eq!(
        classify_candidate(&parsed("ActivityManager", "Process com.example (pid 123) has died"), b"ignored"),
        CandidateKinds::LIFECYCLE()
    );
    assert_eq!(
        classify_candidate(&parsed("ActivityManager", "Start proc 456:com.example/u0a1"), b"ignored"),
        CandidateKinds::LIFECYCLE()
    );
    assert!(classify_candidate(&parsed("MyActivityManager", "ANR in com.example"), b"ignored").is_empty());
    assert!(classify_candidate(&parsed("am_low_memory", "[0,123]"), b"ignored").is_empty());
}

#[test]
fn native_candidates_require_libc_signal_or_debuggerd_tombstone_start() {
    assert_eq!(
        classify_candidate(&parsed("libc", "Fatal signal 11 (SIGSEGV), code 1, fault addr 0x0"), b"ignored"),
        CandidateKinds::NATIVE_CRASH()
    );
    let separator = "*** *** *** *** *** *** *** *** *** *** *** *** *** *** *** ***";
    for tag in ["DEBUG", "debuggerd"] {
        assert_eq!(
            classify_candidate(&parsed(tag, separator), b"ignored"),
            CandidateKinds::NATIVE_CRASH(),
            "tag {tag}"
        );
    }
    assert!(classify_candidate(&parsed("App", "Fatal signal 11 (SIGSEGV)"), b"Fatal signal 11 (SIGSEGV)").is_empty());
    assert_eq!(
        classify_candidate(&parsed("DEBUG", "pid: 123, tid: 124, name: worker"), b"ignored"),
        CandidateKinds::CONTINUATION()
    );
}

#[test]
fn lmk_candidates_exclude_selection_and_pressure_chatter() {
    assert_eq!(
        classify_candidate(
            &parsed("lmkd", "Kill 'com.example' (123), uid 10001, to free 123kB; reason: low watermark"),
            b"ignored"
        ),
        CandidateKinds::LMK()
    );
    assert_eq!(
        classify_candidate(&parsed("lowmemorykiller", "Killing 'com.example' (123), adj 900"), b"ignored"),
        CandidateKinds::LMK()
    );
    for message in [
        "Skipping kill because process is protected",
        "Selecting victim with oom_score_adj 900",
        "pressure stall detected",
    ] {
        assert!(classify_candidate(&parsed("lmkd", message), b"ignored").is_empty(), "{message}");
    }
    assert!(classify_candidate(&parsed("ActivityManager", "Killing 123:com.example"), b"ignored").is_empty());
}

#[test]
fn raw_kernel_and_legacy_lmk_starts_are_bounded_ascii_checks() {
    let raw = parsed("", "");
    assert_eq!(
        classify_candidate(&raw, b"<3>[ 12.345] task invoked oom-killer: gfp_mask=0x0"),
        CandidateKinds::KERNEL_OOM()
    );
    assert_eq!(
        classify_candidate(&raw, b"[ 12.346] Out of memory: Killed process 123 (com.example)"),
        CandidateKinds::KERNEL_OOM()
    );
    assert_eq!(
        classify_candidate(&raw, b"[ 12.347] lowmemorykiller: Killing 'com.example' (123)"),
        CandidateKinds::LMK()
    );

    let userspace = parsed("App", "Out of memory: Killed process 123");
    assert!(classify_candidate(&userspace, b"Out of memory: Killed process 123").is_empty());
    assert!(classify_candidate(&raw, b"out of memory in image cache").is_empty());
}

#[test]
fn raw_continuations_are_allowlisted_and_never_open_a_candidate() {
    let raw = parsed("", "");
    for bytes in [
        b"    at com.example.Main.run(Main.kt:42)".as_slice(),
        b"Caused by: java.lang.IllegalStateException".as_slice(),
        b"Reason: Input dispatching timed out".as_slice(),
        b"Cmdline: com.example".as_slice(),
        b"    #00 pc 000000000001234 libfoo.so".as_slice(),
        b"#17 pc 000000000004321 libbar.so".as_slice(),
        b"pid: 123, tid: 124, name: worker".as_slice(),
        b">>> com.example <<<".as_slice(),
        b"java.lang.IllegalStateException: boom".as_slice(),
        b"kotlin.KotlinNullPointerException".as_slice(),
    ] {
        assert_eq!(classify_candidate(&raw, bytes), CandidateKinds::CONTINUATION());
    }

    assert_eq!(
        classify_candidate(&parsed("AndroidRuntime", "at com.example.Main.run(Main.kt:42)"), b"ignored"),
        CandidateKinds::CONTINUATION()
    );
    assert!(classify_candidate(&raw, b"ordinary application output").is_empty());
    assert!(classify_candidate(&parsed("App", "at com.example.Main.run(Main.kt:42)"), b"ignored").is_empty());
}

#[test]
fn raw_tombstone_separator_is_a_native_start_not_only_a_continuation() {
    let raw = parsed("", "");
    assert_eq!(
        classify_candidate(&raw, b"*** *** *** *** *** *** *** *** *** *** *** *** *** *** *** ***"),
        CandidateKinds::NATIVE_CRASH()
    );
}

#[test]
fn candidate_kinds_set_operations() {
    let mut kinds = CandidateKinds::EMPTY();
    assert!(kinds.is_empty());
    kinds.insert(CandidateKinds::ANR());
    assert!(kinds.contains(CandidateKinds::ANR()));
    assert!(!kinds.contains(CandidateKinds::LMK()));
    assert!(!kinds.is_empty());
}
