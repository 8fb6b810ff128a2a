use logcore::problems::eventlog::{
    parse_event_log, AmAnr, AmCrash, AmKill, AmProcDied, AmProcStart, EventLogParseError, EventLogRecord,
    EventLogSchemaId, MalformedEventLog, SchemaMatch, MAX_EVENTLOG_FIELDS, MAX_EVENTLOG_FIELD_BYTES,
    MAX_EVENTLOG_PAYLOAD_BYTES,
};

fn parse<'a>(tag: &str, payload: &'a str) -> EventLogRecord<'a> {
    parse_event_log(tag, payload).expect("fixture should parse")
}

#[test]
fn parses_legacy_no_user_variants_and_preserves_commas() {
    assert_eq!(
        parse("am_anr", "[321,com.example.app,7,Input dispatching timed out, waiting for focus]"),
        EventLogRecord::Anr(AmAnr {
            schema: EventLogSchemaId::AmAnrLegacyNoUser,
            user_id: None,
            pid: 321,
            package_name: "com.example.app",
            flags: 7,
            reason: "Input dispatching timed out, waiting for focus",
        })
    );
    assert_eq!(
        parse("am_proc_died", "[321,com.example.app]"),
        EventLogRecord::ProcDied(AmProcDied {
            schema: EventLogSchemaId::AmProcDiedLegacyNoUser,
            user_id: None,
            pid: 321,
            process_name: "com.example.app",
            oom_adj: None,
            proc_state: None,
        })
    );
    assert_eq!(
        parse("am_proc_start", "[321,10001,com.example.app,activity,com.example.app/.MainActivity]"),
        EventLogRecord::ProcStart(AmProcStart {
            schema: EventLogSchemaId::AmProcStartLegacyNoUser,
            user_id: None,
            pid: 321,
            uid: 10001,
            process_name: "com.example.app",
            start_type: "activity",
            component: "com.example.app/.MainActivity",
        })
    );
    assert_eq!(
        parse("am_crash", "[321,com.example.app,0,java.lang.IllegalStateException,bad state, with comma,Example.kt,42]"),
        EventLogRecord::Crash(AmCrash {
            schema: EventLogSchemaId::AmCrashLegacyNoUser,
            user_id: None,
            pid: 321,
            process_name: "com.example.app",
            flags: 0,
            exception: "java.lang.IllegalStateException",
            message: "bad state, with comma",
            file: "Example.kt",
            line: 42,
            recoverable: None,
        })
    );
    assert_eq!(
        parse("am_kill", "[321,com.example.app,900,empty for 120s, cached]"),
        EventLogRecord::Kill(AmKill {
            schema: EventLogSchemaId::AmKillLegacyNoUser,
            user_id: None,
            pid: 321,
            process_name: "com.example.app",
            oom_adj: 900,
            reason: "empty for 120s, cached",
            rss: None,
        })
    );
}

#[test]
fn parses_user_prefixed_variants() {
    assert_eq!(
        parse("am_anr", "[10,321,com.example.app,7,Input dispatching timed out, waiting]").schema(),
        EventLogSchemaId::AmAnrUserPrefixed
    );
    assert_eq!(parse("am_proc_died", "[10,321,com.example.app]").schema(), EventLogSchemaId::AmProcDiedUserPrefixed);
    assert_eq!(
        parse("am_proc_start", "[10,321,10001,com.example.app,activity,com.example.app/.MainActivity]").schema(),
        EventLogSchemaId::AmProcStartUserPrefixed
    );
    assert_eq!(
        parse("am_crash", "[10,321,com.example.app,0,java.lang.IllegalStateException,bad state, with comma,Example.java,77]")
            .schema(),
        EventLogSchemaId::AmCrashUserPrefixed
    );
    assert_eq!(
        parse("am_kill", "[10,321,com.example.app,900,empty for 120s, cached]").schema(),
        EventLogSchemaId::AmKillUserPrefixed
    );
}

#[test]
fn parses_unambiguous_modern_tail_variants() {
    assert_eq!(
        parse("am_proc_died", "[321,com.example.app,900,15]"),
        EventLogRecord::ProcDied(AmProcDied {
            schema: EventLogSchemaId::AmProcDiedModernTailNoUser,
            user_id: None,
            pid: 321,
            process_name: "com.example.app",
            oom_adj: Some(900),
            proc_state: Some(15),
        })
    );
    assert_eq!(
        parse("am_proc_died", "[10,321,com.example.app,900,15]"),
        EventLogRecord::ProcDied(AmProcDied {
            schema: EventLogSchemaId::AmProcDiedModernTail,
            user_id: Some(10),
            pid: 321,
            process_name: "com.example.app",
            oom_adj: Some(900),
            proc_state: Some(15),
        })
    );
    assert_eq!(
        parse("am_crash", "[321,com.example.app,0,java.lang.IllegalStateException,bad state, with comma,Example.kt,42,0]"),
        EventLogRecord::Crash(AmCrash {
            schema: EventLogSchemaId::AmCrashModernTailNoUser,
            user_id: None,
            pid: 321,
            process_name: "com.example.app",
            flags: 0,
            exception: "java.lang.IllegalStateException",
            message: "bad state, with comma",
            file: "Example.kt",
            line: 42,
            recoverable: Some(false),
        })
    );
    assert_eq!(
        parse(
            "am_crash",
            "[10,321,com.example.app,0,java.lang.IllegalStateException,bad state, with comma,Example.kt,42,1]"
        ),
        EventLogRecord::Crash(AmCrash {
            schema: EventLogSchemaId::AmCrashModernTail,
            user_id: Some(10),
            pid: 321,
            process_name: "com.example.app",
            flags: 0,
            exception: "java.lang.IllegalStateException",
            message: "bad state, with comma",
            file: "Example.kt",
            line: 42,
            recoverable: Some(true),
        })
    );
}

#[test]
fn rejects_raw_modern_kill_when_old_free_form_reason_also_matches() {
    let no_user_error = parse_event_log("am_kill", "[321,com.example.app,900,cached empty,2048]")
        .expect_err("raw text cannot prove whether 2048 is reason text or RSS");
    let EventLogParseError::Ambiguous(no_user_matches) = no_user_error else {
        panic!("expected ambiguous schemas, got {no_user_error:?}");
    };
    assert_eq!(no_user_matches.count, 2);
    assert_eq!(
        no_user_matches.matches[0],
        Some(SchemaMatch { schema: EventLogSchemaId::AmKillLegacyNoUser, nominal_arity: 4, observed_arity: 5 })
    );
    assert_eq!(
        no_user_matches.matches[1],
        Some(SchemaMatch { schema: EventLogSchemaId::AmKillModernTailNoUser, nominal_arity: 5, observed_arity: 5 })
    );

    let error = parse_event_log("am_kill", "[10,321,com.example.app,900,cached empty,2048]")
        .expect_err("raw text cannot prove whether 2048 is reason text or RSS");
    let EventLogParseError::Ambiguous(matches) = error else {
        panic!("expected ambiguous schemas, got {error:?}");
    };
    assert_eq!(matches.count, 2);
    assert_eq!(
        matches.matches[0],
        Some(SchemaMatch { schema: EventLogSchemaId::AmKillUserPrefixed, nominal_arity: 5, observed_arity: 6 })
    );
    assert_eq!(
        matches.matches[1],
        Some(SchemaMatch { schema: EventLogSchemaId::AmKillModernTail, nominal_arity: 6, observed_arity: 6 })
    );
}

#[test]
fn reports_malformed_envelopes_numbers_and_limits() {
    assert_eq!(
        parse_event_log("am_anr", "[1,com.example.app,0,reason"),
        Err(EventLogParseError::Malformed(MalformedEventLog::InvalidEnvelope))
    );
    assert_eq!(
        parse_event_log("am_proc_died", "[999999999999999999999999,com.example.app]"),
        Err(EventLogParseError::Malformed(MalformedEventLog::NumericOverflow))
    );
    assert_eq!(
        parse_event_log("am_proc_died", "[3000000000,com.example.app]"),
        Err(EventLogParseError::Malformed(MalformedEventLog::NumericOverflow))
    );
    assert_eq!(
        parse_event_log("am_crash", "[10,321,com.example.app,0,java.lang.Error,message,Example.kt,42,2]"),
        Err(EventLogParseError::Malformed(MalformedEventLog::InvalidNumber))
    );

    let too_many = format!("[{}]", vec!["x"; MAX_EVENTLOG_FIELDS + 1].join(","));
    assert_eq!(
        parse_event_log("am_anr", &too_many),
        Err(EventLogParseError::Malformed(MalformedEventLog::TooManyFields))
    );

    let long_field = "x".repeat(MAX_EVENTLOG_FIELD_BYTES + 1);
    let oversized_field = format!("[1,{long_field}]");
    assert_eq!(
        parse_event_log("am_proc_died", &oversized_field),
        Err(EventLogParseError::Malformed(MalformedEventLog::FieldTooLong))
    );

    let oversized_payload = format!("[{}]", "x".repeat(MAX_EVENTLOG_PAYLOAD_BYTES));
    assert_eq!(
        parse_event_log("am_anr", &oversized_payload),
        Err(EventLogParseError::Malformed(MalformedEventLog::PayloadTooLong))
    );
}

#[test]
fn unknown_tag_and_near_misses_are_not_guessed() {
    assert_eq!(parse_event_log("am_not_real", "[1,com.example.app]"), Err(EventLogParseError::UnsupportedTag));
    assert_eq!(
        parse_event_log("am_proc_died", "[1,123]"),
        Err(EventLogParseError::Malformed(MalformedEventLog::InvalidText))
    );
    assert_eq!(
        parse_event_log("am_crash", "[1,com.example.app,0,Exception,msg,42,7]"),
        Err(EventLogParseError::Malformed(MalformedEventLog::InvalidText))
    );
}

#[test]
fn malformed_inputs_never_panic() {
    let samples = [
        "",
        "[]",
        "[",
        "]",
        "[,,,,]",
        "[\0]",
        "[1,2,3,4,5,6,7,8,9,10]",
        "[+,+,+]",
        "[1,\nprocess]",
        "prefix [1,process]",
        "[1,process] suffix",
    ];
    for tag in ["am_anr", "am_proc_died", "am_proc_start", "am_crash", "am_kill"] {
        for payload in samples {
            let _ = parse_event_log(tag, payload);
        }
    }
}

