use logcore::problems::normalization::{
    normalize_anr_reason, normalize_java_frame, normalize_java_throwable, normalize_kernel_oom_mechanism,
    normalize_lmk_reason, normalize_native_frame, AnrReasonCategory, NormalizedToken, MAX_NORMALIZATION_INPUT_BYTES,
    MAX_NORMALIZED_TOKEN_BYTES,
};
use std::mem::{needs_drop, size_of};

#[test]
fn normalized_token_is_stack_owned_and_bounded_to_256_bytes() {
    assert_eq!(size_of::<NormalizedToken>(), 256);
    assert!(!needs_drop::<NormalizedToken>());
    let exact = NormalizedToken::from_bytes(&[b'a'; MAX_NORMALIZED_TOKEN_BYTES]).unwrap();
    assert_eq!(exact.len(), MAX_NORMALIZED_TOKEN_BYTES);
    assert!(NormalizedToken::from_bytes(&[b'a'; MAX_NORMALIZED_TOKEN_BYTES + 1]).is_none());

    let mut oversized_throwable = b"com.example.".to_vec();
    oversized_throwable.extend([b'A'; MAX_NORMALIZED_TOKEN_BYTES]);
    oversized_throwable.extend(b"Exception");
    assert!(normalize_java_throwable(&oversized_throwable).is_none());
}

#[test]
fn java_throwable_keeps_only_a_strict_throwable_class() {
    assert_eq!(
        normalize_java_throwable(b"  Caused by: java.lang.IllegalStateException: item 42  ").unwrap().as_str(),
        "java.lang.IllegalStateException"
    );
    assert_eq!(
        normalize_java_throwable(b"Suppressed: kotlin.KotlinNullPointerException").unwrap(),
        NormalizedToken::from_bytes(b"kotlin.KotlinNullPointerException").unwrap()
    );
    assert!(normalize_java_throwable(b"FATAL EXCEPTION: main").is_none());
    assert!(normalize_java_throwable(b"java.lang.String: ordinary mention").is_none());
}

#[test]
fn java_frame_removes_source_lines_and_synthetic_dynamic_ordinals() {
    let first = normalize_java_frame(b"    at com.example.Worker$1.run(Worker.kt:42)").unwrap();
    let second = normalize_java_frame(b"at com.example.Worker$987.run(Worker.kt:9001)").unwrap();
    assert_eq!(first.as_str(), "com.example.Worker$*#run");
    assert_eq!(first, second);
    assert_eq!(
        normalize_java_frame(b"at com.example.ScreenKt.access$1200(Screen.kt:12) [object@7ffdead]")
            .unwrap()
            .as_str(),
        "com.example.ScreenKt#access$*"
    );
    assert!(normalize_java_frame(b"com.example.Worker.run(Worker.kt:42)").is_none());
    assert!(normalize_java_frame(b"at broken-frame").is_none());
}

#[test]
fn java_normalizers_reject_invalid_utf8_and_excessive_input_without_panicking() {
    assert!(normalize_java_throwable(b"\xffjava.lang.Error").is_none());
    assert!(normalize_java_frame(b"at bad.\xff.method(File.java:1)").is_none());
    let oversized = vec![b'a'; MAX_NORMALIZATION_INPUT_BYTES + 1];
    assert!(normalize_java_throwable(&oversized).is_none());
    assert!(normalize_java_frame(&oversized).is_none());
}

#[test]
fn anr_input_and_broadcast_reasons_have_separate_category_and_canonical_fields() {
    let first =
        normalize_anr_reason(b"Input dispatching timed out (Window 7f01 has not responded for 5003ms)").unwrap();
    let second =
        normalize_anr_reason(b"Input dispatching timed out (Waiting because the touched window is paused)").unwrap();
    assert_eq!(first.category, AnrReasonCategory::InputDispatchTimeout);
    assert_eq!(first, second);
    assert_eq!(first.canonical.as_str(), "input-dispatch-timeout");

    let broadcast =
        normalize_anr_reason(b"Broadcast of Intent { act=android.intent.action.BOOT_COMPLETED flg=0x10 cmp=x/.R }")
            .unwrap();
    assert_eq!(broadcast.category, AnrReasonCategory::BroadcastTimeout);
    assert_eq!(broadcast.canonical.as_str(), "broadcast:android.intent.action.BOOT_COMPLETED");
}

#[test]
fn anr_service_categories_keep_bounded_stable_identity_only() {
    let service = normalize_anr_reason(b"executing service com.example.app/.SyncService, waited 20000ms").unwrap();
    assert_eq!(service.category, AnrReasonCategory::ServiceTimeout);
    assert_eq!(service.canonical.as_str(), "service:com.example.app/.SyncService");
    assert_eq!(
        normalize_anr_reason(b"Context.startForegroundService() did not then call Service.startForeground()")
            .unwrap()
            .canonical
            .as_str(),
        "foreground-service-start-timeout"
    );
    assert_eq!(
        normalize_anr_reason(b"ContentProvider not responding: com.example.provider").unwrap().category,
        AnrReasonCategory::ContentProviderTimeout
    );
}

#[test]
fn anr_unknown_near_matches_invalid_utf8_and_overlong_input_are_rejected() {
    assert!(normalize_anr_reason(b"InputDispatcher channel is unrecoverably broken").is_none());
    assert!(normalize_anr_reason(b"input dispatching timed out (case changed)").is_none());
    assert!(normalize_anr_reason(b"Input dispatching timed outright").is_none());
    assert!(normalize_anr_reason(b"Broadcast of Intent { xact=android.intent.action.BOOT }").is_none());
    assert!(normalize_anr_reason(b"executing service waited-without-component").is_none());
    assert!(normalize_anr_reason(b"OEM watchdog says app is frozen").is_none());
    assert!(normalize_anr_reason(b"Input dispatching timed out (\xff)").is_none());
    let oversized = vec![b'a'; MAX_NORMALIZATION_INPUT_BYTES + 1];
    assert!(normalize_anr_reason(&oversized).is_none());
}

#[test]
fn symbolized_native_frames_keep_only_module_and_symbol() {
    let apex = normalize_native_frame(
        b"#00 pc 000000000004e1f4  /apex/com.android.runtime/lib64/bionic/libc.so (abort+164) (BuildId: AABBCCDD)",
    )
    .unwrap();
    let system =
        normalize_native_frame(b"#07 pc 0000000000099999  /system/lib64/libc.so (abort+4096) (BuildId: 11223344)")
            .unwrap();
    assert_eq!(apex.as_str(), "libc.so#abort");
    assert_eq!(apex, system);
    assert_eq!(
        normalize_native_frame(b"#03 pc 0000000000000042 /data/app/libfoo.so (foo::Bar::run()+24)").unwrap().as_str(),
        "libfoo.so#foo::Bar::run()"
    );
}

#[test]
fn unsymbolized_native_frames_require_build_id_module_and_relative_pc() {
    let normalized =
        normalize_native_frame(b"#01 pc 0000000000001A20 /data/app/com.example/lib/arm64/libfoo.so (BuildId: A1B2C3D4)")
            .unwrap();
    assert_eq!(normalized.as_str(), "a1b2c3d4+libfoo.so+1a20");
    assert_eq!(
        normalized,
        normalize_native_frame(b"#99 pc 00001a20 /another/location/libfoo.so (BuildId: a1b2c3d4)").unwrap()
    );
    assert_ne!(
        normalized,
        normalize_native_frame(b"#01 pc 0000000000001A21 /data/libfoo.so (BuildId: A1B2C3D4)").unwrap()
    );
    assert!(normalize_native_frame(b"#01 pc 00001a20 /data/libfoo.so").is_none());
    assert!(normalize_native_frame(b"#01 pc 00001a20 /data/libfoo.so (BuildId: A1B2nothex)").is_none());
}

#[test]
fn absolute_addresses_registers_invalid_utf8_and_overlong_native_lines_are_rejected() {
    assert!(normalize_native_frame(b"#00 0000007fa12bc000").is_none());
    assert!(normalize_native_frame(b"x0 0000000000000000 x1 0000007fa12bc000").is_none());
    assert!(normalize_native_frame(b"#00 pc 00001a20 /data/lib\xff.so (abort+1)").is_none());
    let oversized = vec![b'a'; MAX_NORMALIZATION_INPUT_BYTES + 1];
    assert!(normalize_native_frame(&oversized).is_none());
}

#[test]
fn lmk_reason_tokens_drop_victim_ids_memory_counters_and_policy_numbers() {
    let first = normalize_lmk_reason(
        b"Killing 'com.example.app' (1234), uid 10123, oom_score_adj 900 to free 54321kB rss; reason: low watermark",
    )
    .unwrap();
    let second = normalize_lmk_reason(
        b"Killing 'another.app' (9999), uid 10555, oom_score_adj 800 to free 1kB rss; reason: low watermark",
    )
    .unwrap();
    assert_eq!(first.as_str(), "lmkd:low-watermark");
    assert_eq!(first, second);
    assert_eq!(
        normalize_lmk_reason(b"Killing 'x' (7), uid 8, oom_score_adj 0; reason: process is thrashing 99%")
            .unwrap()
            .as_str(),
        "lmkd:thrashing"
    );
    assert_eq!(
        normalize_lmk_reason(b"lowmemorykiller: Killing 'legacy.app' (321), adj 906").unwrap().as_str(),
        "legacy-lowmemorykiller"
    );
}

#[test]
fn lmk_selection_pressure_and_unknown_oem_text_do_not_become_reason_tokens() {
    assert!(normalize_lmk_reason(b"Selecting process 123 with oom_score_adj 900").is_none());
    assert!(normalize_lmk_reason(b"pressure 75, skip killing because swap is available").is_none());
    assert!(normalize_lmk_reason(b"Killing app because OEM magic threshold 42").is_none());
    assert!(normalize_lmk_reason(b"reason: low watermarking").is_none());
    assert!(normalize_lmk_reason(b"reason: low water\xffmark").is_none());
}

#[test]
fn kernel_oom_mechanism_is_only_global_or_memcg_and_ignores_dynamic_constraints() {
    assert_eq!(
        normalize_kernel_oom_mechanism(b"oom-kill:constraint=CONSTRAINT_MEMCG,nodemask=(null),cpuset=/uid_1000")
            .unwrap()
            .as_str(),
        "memcg"
    );
    assert_eq!(
        normalize_kernel_oom_mechanism(b"Memory cgroup out of memory: Killed process 1234 (com.example)")
            .unwrap()
            .as_str(),
        "memcg"
    );
    let global =
        normalize_kernel_oom_mechanism(b"oom-kill:constraint=CONSTRAINT_NONE,nodemask=(null),cpuset=/").unwrap();
    assert_eq!(global.as_str(), "global");
    assert_eq!(
        global,
        normalize_kernel_oom_mechanism(b"Out of memory: Killed process 9876 (another.app) total-vm:99999kB").unwrap()
    );
}

#[test]
fn kernel_near_matches_invalid_utf8_and_overlong_inputs_are_rejected() {
    assert!(normalize_kernel_oom_mechanism(b"Killed process 1234 (app)").is_none());
    assert!(normalize_kernel_oom_mechanism(b"Out of memory pressure is rising").is_none());
    assert!(normalize_kernel_oom_mechanism(b"memcg monitor healthy").is_none());
    assert!(normalize_kernel_oom_mechanism(b"oom-kill:constraint=CONSTRAINT_MEMCG_FAKE,nodemask=(null)").is_none());
    assert!(normalize_kernel_oom_mechanism(b"Out of memory: Killed process \xff").is_none());
    let oversized = vec![b'a'; MAX_NORMALIZATION_INPUT_BYTES + 1];
    assert!(normalize_lmk_reason(&oversized).is_none());
    assert!(normalize_kernel_oom_mechanism(&oversized).is_none());
}

#[test]
fn normalized_token_round_trips_its_bytes() {
    let token = NormalizedToken::from_bytes(b"abc").unwrap();
    assert_eq!(token.as_bytes(), b"abc");
    assert_eq!(token.len(), 3);
    assert!(!token.is_empty());
    assert!(NormalizedToken::from_bytes(b"").is_none());
    assert!(NormalizedToken::from_bytes(b"a\0b").is_none());
    assert!(NormalizedToken::from_bytes(b"\xff").is_none());
}
