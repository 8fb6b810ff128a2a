use logcore::config::{AppConfig, TableColumnConfig, TableConfig, ThemeMode, WindowConfig};
use std::path::PathBuf;

#[test]
fn defaults_are_file_friendly_and_light_theme() {
    let config = AppConfig::default();
    assert_eq!(config.theme, ThemeMode::Light);
    assert_eq!(config.encoding, "UTF-8");
    assert_eq!(config.font_size, 13);
    assert_eq!(config.row_height, 20);
    assert_eq!(config.adb_path, None);
    assert_eq!(config.storage_dir, None);
    assert_eq!(config.command_buffers, vec!["main"]);
    assert_eq!(config.window, WindowConfig::default());
}

#[test]
fn default_config_includes_complete_table_columns() {
    let config = AppConfig::default();
    let ids: Vec<&str> = config.table.columns.iter().map(|column| column.id.as_str()).collect();
    assert_eq!(ids, vec!["bookmark", "lineNo", "date", "time", "level", "pid", "tid", "tag", "message",]);
    assert!(config.table.columns.iter().all(|column| column.visible));
    assert!(config.table.columns.iter().all(|column| column.width > 0));
}

#[test]
fn normalizes_recent_files_command_buffers_and_window_size() {
    let mut files = Vec::new();
    for i in 0..12 {
        files.push(PathBuf::from(format!("/tmp/{i}.log")));
    }
    files.push(PathBuf::from("/tmp/1.log"));

    let config = AppConfig {
        recent_files: files,
        command_buffers: vec!["kernel".to_string(), "crash".to_string()],
        window: WindowConfig { width: 10, height: 9999 },
        ..Default::default()
    }
    .normalized();

    assert_eq!(config.recent_files.len(), 10);
    assert_eq!(config.recent_files[1], PathBuf::from("/tmp/1.log"));
    assert_eq!(config.command_buffers, vec!["crash"]);
    assert_eq!(config.window.width, 960);
    assert_eq!(config.window.height, 2160);
}

fn column(id: &str, width: u16, visible: bool) -> TableColumnConfig {
    TableColumnConfig { id: id.to_string(), width, visible }
}

#[test]
fn table_columns_are_normalized() {
    let table = TableConfig {
        columns: vec![column("tag", 999, false), column("unknown", 77, true), column("message", 1, false)],
    }
    .normalized();
    let tag = table.columns.iter().find(|c| c.id == "tag").unwrap();
    let message = table.columns.iter().find(|c| c.id == "message").unwrap();
    assert_eq!(tag.width, 260);
    assert!(!tag.visible);
    assert_eq!(message.width, 220);
    assert!(message.visible);
    assert!(!table.columns.iter().any(|c| c.id == "unknown"));
    assert_eq!(table.columns.len(), 9);
    let date = table.columns.iter().find(|c| c.id == "date").unwrap();
    assert_eq!(date.width, 50);
    assert!(date.visible);
}

#[test]
fn hiding_every_table_column_restores_default_visibility() {
    let columns = [
        ("bookmark", 24),
        ("lineNo", 58),
        ("date", 50),
        ("time", 98),
        ("level", 40),
        ("pid", 54),
        ("tid", 54),
        ("tag", 154),
        ("message", 360),
    ];
    let table = TableConfig { columns: columns.iter().map(|(id, width)| column(id, *width, false)).collect() }.normalized();
    assert!(table.columns.iter().all(|c| c.visible));
    assert_eq!(table, TableConfig::default());
}

#[test]
fn invalid_numeric_settings_are_normalized() {
    let config = AppConfig {
        theme: ThemeMode::Dark,
        encoding: String::new(),
        font_size: 0,
        row_height: 200,
        ..Default::default()
    }
    .normalized();
    assert_eq!(config.theme, ThemeMode::Dark);
    assert_eq!(config.encoding, "UTF-8");
    assert_eq!(config.font_size, 10);
    assert_eq!(config.row_height, 32);
}

#[test]
fn local_encoding_and_empty_paths_survive_normalizing() {
    let config = AppConfig {
        encoding: " LOCAL ".to_string(),
        recent_files: vec![PathBuf::new(), PathBuf::from("a.log"), PathBuf::from("a.log"), PathBuf::from("b.log")],
        command_buffers: Vec::new(),
        ..Default::default()
    }
    .normalized();
    assert_eq!(config.encoding, "Local");
    assert_eq!(config.recent_files, vec![PathBuf::from("a.log"), PathBuf::from("b.log")]);
    assert_eq!(config.command_buffers, vec!["main"]);
    let again = AppConfig { command_buffers: vec!["radio".into(), "bogus".into(), "main".into()], ..Default::default() }
        .normalized();
    assert_eq!(again.command_buffers, vec!["radio", "main"]);
}

#[test]
fn normalizing_twice_changes_nothing_more() {
    let once = AppConfig {
        encoding: "local".to_string(),
        font_size: 99,
        row_height: 1,
        table: TableConfig { columns: vec![column("pid", 5, false), column("tag", 999, true)] },
        command_buffers: vec!["events".into(), "x".into()],
        window: WindowConfig { width: 5000, height: 600 },
        ..Default::default()
    }
    .normalized();
    let twice_table = once.table.clone().normalized();
    assert_eq!(twice_table, once.table);
    let twice = AppConfig {
        encoding: once.encoding.clone(),
        font_size: once.font_size,
        row_height: once.row_height,
        table: once.table.clone(),
        command_buffers: once.command_buffers.clone(),
        window: once.window,
        ..Default::default()
    }
    .normalized();
    assert_eq!(twice.encoding, once.encoding);
    assert_eq!(twice.font_size, once.font_size);
    assert_eq!(twice.row_height, once.row_height);
    assert_eq!(twice.command_buffers, once.command_buffers);
    assert_eq!(twice.window, once.window);
}
