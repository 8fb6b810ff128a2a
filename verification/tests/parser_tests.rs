use logcore::model::LogEntry;
use logcore::parser::{
    ascii_log_envelope, level_byte_of_line, parse_line, parse_line_ref, parse_threadtime, parse_time,
    tag_bytes_of_line,
};

#[test]
fn log_entry_default_is_empty() {
    let e = LogEntry::default();
    assert_eq!(e.message, "");
    assert_eq!(e.level, "");
}

#[test]
fn parses_threadtime_line() {
    let line = "04-20 12:06:02.125   146   179 D BatteryService: update start";
    let e = parse_threadtime(line).expect("should parse");
    assert_eq!(e.date, "04-20");
    assert_eq!(e.time, "12:06:02.125");
    assert_eq!(e.pid, "146");
    assert_eq!(e.tid, "179");
    assert_eq!(e.level, "D");
    assert_eq!(e.tag, "BatteryService");
    assert_eq!(e.message, "update start");
}

#[test]
fn parses_threadtime_without_colon() {
    let line = "04-20 12:06:02.125   146   179 E NoColonTag message without delimiter";
    let e = parse_threadtime(line).expect("should parse threadtime fields");
    assert_eq!(e.date, "04-20");
    assert_eq!(e.time, "12:06:02.125");
    assert_eq!(e.pid, "146");
    assert_eq!(e.tid, "179");
    assert_eq!(e.level, "E");
    assert_eq!(e.tag, "NoColonTag");
    assert_eq!(e.message, "message without delimiter");
}

#[test]
fn rejects_non_threadtime() {
    let line = "04-17 09:01:18.910 D/LightsService(  139): BKL : 106";
    assert!(parse_threadtime(line).is_none());
}

#[test]
fn parses_time_line() {
    let line = "04-17 09:01:18.910 D/LightsService(  139): BKL : 106";
    let e = parse_time(line).expect("should parse");
    assert_eq!(e.date, "04-17");
    assert_eq!(e.time, "09:01:18.910");
    assert_eq!(e.level, "D");
    assert_eq!(e.tag, "LightsService");
    assert_eq!(e.pid, "139");
    assert_eq!(e.tid, "");
    assert_eq!(e.message, "BKL : 106");
}

#[test]
fn parse_line_dispatches_and_falls_back() {
    let tt = parse_line("04-20 12:06:02.125   146   179 D BatteryService: update start");
    assert_eq!(tt.tag, "BatteryService");
    let tm = parse_line("04-17 09:01:18.910 D/LightsService(  139): BKL : 106");
    assert_eq!(tm.tag, "LightsService");
    let raw = parse_line("--------- beginning of main");
    assert_eq!(raw.message, "--------- beginning of main");
    assert_eq!(raw.tag, "");
}

#[test]
fn threadtime_padded_tag_is_trimmed() {
    let e = parse_line("01-01 08:00:14.364  3176  3176 I vold    : Vold 3.0 firing up");
    assert_eq!(e.tag, "vold");
    assert_eq!(e.message, "Vold 3.0 firing up");
}

#[test]
fn multibyte_line_does_not_panic() {
    let e = parse_line("01-01 00:00:00.000 中文消息 hello");
    assert_eq!(e.message, "01-01 00:00:00.000 中文消息 hello");
    let _ = parse_line("01-01 00:00:00.000 中/x(1): y");
}

#[test]
fn parse_line_ref_matches_owned_parse_line() {
    let corpus = [
        "04-20 12:06:02.125   146   179 D BatteryService: update start",
        "04-20 12:06:02.125   146   179 E NoColonTag message without delimiter",
        "04-17 09:01:18.910 D/LightsService(  139): BKL : 106",
        "--------- beginning of main",
        "01-01 00:00:00.000 中文消息 hello",
        "01-01 00:00:00.000 中/x(1): y",
        "",
    ];
    for line in corpus {
        let owned = parse_line(line);
        let parsed = parse_line_ref(line);
        assert_eq!(parsed.date, owned.date, "line: {line:?}");
        assert_eq!(parsed.time, owned.time, "line: {line:?}");
        assert_eq!(parsed.level, owned.level, "line: {line:?}");
        assert_eq!(parsed.pid, owned.pid, "line: {line:?}");
        assert_eq!(parsed.tid, owned.tid, "line: {line:?}");
        assert_eq!(parsed.tag, owned.tag, "line: {line:?}");
        assert_eq!(parsed.message, owned.message, "line: {line:?}");
    }
}

#[test]
fn level_byte_matches_parse_line_level_on_corpus() {
    let corpus = [
        "04-20 12:06:02.125   146   179 D BatteryService: update start",
        "04-20 12:06:02.425   300   330 E Payment: SocketTimeoutException",
        "04-20 12:06:02.425   300   330 F Zygote: fatal",
        "04-20 12:06:02.125   146   179 E NoColonTag message without delimiter",
        "04-17 09:01:18.910 D/LightsService(  139): BKL : 106",
        "04-17 09:01:18.910 E/Crash(1): boom",
        "04-17 09:01:18.910 E/NoParen: message",
        "--------- beginning of main",
        "04-20 12:06:02.125   abc   179 D T: bad pid",
        "04-20 12:06:02.125   146   179 X T: bad level",
        "04-20 12:06:02.125 146 179 E",
        "01-01 00:00:00.000 中文消息 hello",
        "01-01 00:00:00.000 中/x(1): y",
        "",
        "   ",
        "04-20 12:06:02.425   300   330 E Payment: with newline\n",
        "04-17 09:01:18.910 F/Crash(1): crlf\r\n",
    ];
    for line in corpus {
        let expected = parse_line(line).level;
        let got = level_byte_of_line(line.as_bytes())
            .map(|b| (b as char).to_string())
            .unwrap_or_default();
        assert_eq!(got, expected, "line: {line:?}");
    }
}

#[test]
fn borrowed_ascii_tag_matches_the_full_parser_without_decoding() {
    for line in [
        b"04-20 12:06:02.125   146   179 D BatteryService: update start".as_slice(),
        b"04-20 12:06:02.125   146   179 E NoColonTag message".as_slice(),
        b"04-17 09:01:18.910 D/LightsService(  139): BKL : 106".as_slice(),
        b"--------- beginning of main".as_slice(),
        b"01-01 00:00:00.000 \xff invalid".as_slice(),
    ] {
        let decoded = String::from_utf8_lossy(line);
        let tag = parse_line_ref(&decoded).tag;
        let expected = if tag.is_ascii() && !tag.is_empty() { Some(tag.as_bytes()) } else { None };
        assert_eq!(tag_bytes_of_line(line), expected, "line: {line:?}");
    }
}

#[test]
fn ascii_envelope_exposes_date_time_and_tag_of_both_formats() {
    let tt = ascii_log_envelope(b"04-20 12:06:02.125   146   179 D BatteryService: update start").unwrap();
    assert_eq!(tt.date, b"04-20");
    assert_eq!(tt.time, b"12:06:02.125");
    assert_eq!(tt.tag, b"BatteryService");
    let tm = ascii_log_envelope(b"04-17 09:01:18.910 D/LightsService(  139): BKL : 106").unwrap();
    assert_eq!(tm.tag, b"LightsService");
    assert!(ascii_log_envelope(b"--------- beginning of main").is_none());
}

#[test]
fn level_byte_of_raw_line_is_none() {
    assert_eq!(level_byte_of_line(b"--------- beginning of main"), None);
    assert_eq!(level_byte_of_line(b"04-17 09:01:18.910 E/Crash(1): boom"), Some(0x45));
}
