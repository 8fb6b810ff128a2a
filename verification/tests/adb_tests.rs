use logcore::adb::{
    build_logcat_command, last_log_timestamp, normalize_command_presets, parse_adb_devices, select_online_device,
    AdbDevice, LogcatBuffer, LogcatSpec, DEFAULT_LOGCAT_COMMANDS,
};
use std::path::PathBuf;

fn device(serial: &str, state: &str) -> AdbDevice {
    AdbDevice {
        serial: serial.to_string(),
        state: state.to_string(),
        model: None,
        product: None,
        transport_id: None,
    }
}

#[test]
fn parses_adb_devices_with_models_and_offline_states() {
    let devices = parse_adb_devices(
        r#"
List of devices attached
192.0.2.12:5555 device product:oriole model:Pixel_6 device:oriole transport_id:3
USB123 offline transport_id:4
emulator-5554 unauthorized
"#,
    );

    assert_eq!(devices.len(), 3);
    assert_eq!(devices[0].serial, "192.0.2.12:5555");
    assert_eq!(devices[0].state, "device");
    assert_eq!(devices[0].model.as_deref(), Some("Pixel_6"));
    assert!(devices[0].online());
    assert_eq!(devices[1].state, "offline");
    assert_eq!(devices[2].state, "unauthorized");
}

#[test]
fn selects_requested_online_device_or_first_online_device() {
    let devices = vec![device("offline", "offline"), device("usb", "device")];

    assert_eq!(select_online_device(&devices, None).unwrap().serial, "usb");
    assert_eq!(select_online_device(&devices, Some("usb")).unwrap().serial, "usb");
    assert!(select_online_device(&devices, Some("offline")).is_err());
}

#[test]
fn builds_threadtime_logcat_command_with_unique_buffers() {
    let command = build_logcat_command(
        PathBuf::from("adb"),
        "usb",
        &[LogcatBuffer::Main, LogcatBuffer::System, LogcatBuffer::Main],
        None,
    );

    assert_eq!(
        command.args,
        vec!["-s", "usb", "logcat", "-v", "threadtime", "-b", "main", "-b", "system"]
    );
}

#[test]
fn extracts_last_parseable_timestamp_from_tail() {
    let tail = "garbage line\n04-20 12:06:02.125   146   179 D T: one\n04-20 12:06:03.900   146   179 I T: two\ntrailing junk";
    assert_eq!(last_log_timestamp(tail).as_deref(), Some("04-20 12:06:03.900"));
    assert_eq!(last_log_timestamp("no logs here\n"), None);
    assert_eq!(last_log_timestamp(""), None);
}

#[test]
fn logcat_command_appends_since_timestamp() {
    let command = build_logcat_command(
        PathBuf::from("adb"),
        "usb",
        &[LogcatBuffer::Main],
        Some("04-20 12:06:03.900"),
    );
    assert_eq!(
        command.args,
        vec!["-s", "usb", "logcat", "-v", "threadtime", "-b", "main", "-T", "04-20 12:06:03.900"]
    );
}

#[test]
fn parses_supported_threadtime_logcat_specs() {
    let spec = LogcatSpec::parse("logcat -v threadtime -b radio").unwrap();
    assert_eq!(spec.buffer, LogcatBuffer::Radio);
    assert_eq!(spec.normalized(), "logcat -v threadtime -b radio");

    let default_buffer = LogcatSpec::parse("logcat -v threadtime").unwrap();
    assert_eq!(default_buffer.buffer, LogcatBuffer::Main);
    assert_eq!(default_buffer.normalized(), "logcat -v threadtime -b main");
}

#[test]
fn rejects_unsupported_or_shell_like_logcat_specs() {
    for input in [
        "logcat -v time",
        "logcat -v threadtime -b kernel",
        "adb logcat -v threadtime",
        "logcat -v threadtime && rm -rf /",
        "logcat -v threadtime | grep foo",
        "shell logcat -v threadtime",
    ] {
        assert!(LogcatSpec::parse(input).is_err(), "{input}");
    }
}

#[test]
fn normalizes_command_presets_with_defaults_and_limit() {
    let custom = vec![
        "logcat -v threadtime -b radio".to_string(),
        "logcat -v threadtime -b radio".to_string(),
        "logcat -v threadtime -b kernel".to_string(),
    ];
    let presets = normalize_command_presets(custom);
    assert!(presets.contains(&"logcat -v threadtime -b main".to_string()));
    assert!(presets.contains(&"logcat -v threadtime -b radio".to_string()));
    assert_eq!(
        presets
            .iter()
            .filter(|item| item.as_str() == "logcat -v threadtime -b radio")
            .count(),
        1
    );
    assert!(presets.len() <= 25);
}

#[test]
fn device_line_without_state_is_unknown_and_last_tag_wins() {
    let devices = parse_adb_devices("List of devices attached\r\nlonely\r\nabc device model:one model:two\r\n\r\n");
    assert_eq!(devices.len(), 2);
    assert_eq!(devices[0].serial, "lonely");
    assert_eq!(devices[0].state, "unknown");
    assert!(!devices[0].online());
    assert_eq!(devices[1].model.as_deref(), Some("two"));
    assert_eq!(devices[1].product, None);
    assert_eq!(devices[1].transport_id, None);
}

#[test]
fn selection_errors_name_the_problem() {
    let devices = vec![device("a", "offline")];
    assert_eq!(select_online_device(&devices, None).unwrap_err(), "no online adb device found");
    assert_eq!(select_online_device(&devices, Some("a")).unwrap_err(), "adb device is not online: a");
    // A blank request falls back to the first online device.
    let devices = vec![device("a", "offline"), device("b", "device")];
    assert_eq!(select_online_device(&devices, Some("  ")).unwrap().serial, "b");
}

#[test]
fn logcat_spec_errors_give_their_message() {
    assert_eq!(LogcatSpec::parse("logcat -v time").unwrap_err(), "only -v threadtime is supported");
    assert_eq!(LogcatSpec::parse("logcat -b radio").unwrap_err(), "only -v threadtime is supported");
    assert_eq!(LogcatSpec::parse("logcat -v").unwrap_err(), "-v requires a value");
    assert_eq!(LogcatSpec::parse("logcat -v threadtime -b").unwrap_err(), "-b requires a buffer");
    assert_eq!(
        LogcatSpec::parse("logcat -v threadtime -b main -b radio").unwrap_err(),
        "only one -b buffer is supported"
    );
    assert_eq!(
        LogcatSpec::parse("logcat -v threadtime -b kernel").unwrap_err(),
        "unsupported logcat buffer: kernel"
    );
    assert_eq!(LogcatSpec::parse("logcat -d").unwrap_err(), "unsupported logcat argument: -d");
    assert_eq!(LogcatSpec::parse("").unwrap_err(), "command must start with logcat");
    assert_eq!(LogcatSpec::parse("logcat; ls").unwrap_err(), "compound shell commands are not supported");
    assert_eq!(LogcatBuffer::from_arg("crash"), Ok(LogcatBuffer::Crash));
    assert_eq!(LogcatBuffer::Events.as_arg(), "events");
}

#[test]
fn presets_start_with_the_defaults_and_stop_at_twenty_five() {
    let presets = normalize_command_presets(Vec::new());
    assert_eq!(presets, DEFAULT_LOGCAT_COMMANDS.iter().map(|s| s.to_string()).collect::<Vec<_>>());
    let many: Vec<String> = (0..40).map(|_| "logcat -v threadtime -b radio".to_string()).collect();
    assert_eq!(normalize_command_presets(many).len(), 5);
}

#[test]
fn timestamp_skips_badly_shaped_stamps() {
    let tail = "04-20 12:06:03.900   146   179 I T: good\r\n4-20 12:06:03.900   146   179 I T: bad\r\n";
    assert_eq!(last_log_timestamp(tail).as_deref(), Some("04-20 12:06:03.900"));
}

#[test]
fn normalized_commands_parse_back_to_themselves() {
    for buffer in [LogcatBuffer::Main, LogcatBuffer::System, LogcatBuffer::Radio, LogcatBuffer::Events, LogcatBuffer::Crash] {
        let spec = LogcatSpec { buffer };
        assert_eq!(LogcatSpec::parse(&spec.normalized()), Ok(spec));
    }
}
