use logcore::filter::{filter_entries, split_values, FilterField, FilterMatcher, FilterSpec, LevelMask};
use logcore::model::LogEntry;

fn entry(level: &str, pid: &str, tid: &str, tag: &str, message: &str) -> LogEntry {
    LogEntry {
        level: level.to_string(),
        pid: pid.to_string(),
        tid: tid.to_string(),
        tag: tag.to_string(),
        message: message.to_string(),
        ..Default::default()
    }
}

fn sample() -> Vec<LogEntry> {
    vec![
        entry("D", "100", "10", "ActivityManager", "Start proc app"),
        entry("I", "200", "20", "Network", "GET /home ok"),
        entry("W", "200", "21", "Network", "slow request retry"),
        entry("E", "300", "30", "Payment", "SocketTimeoutException"),
        entry("", "", "", "", "--------- beginning of main"),
    ]
}

#[test]
fn all_level_mask_preserves_raw_lines_without_levels() {
    let spec = FilterSpec::default();
    let matches = filter_entries(&sample(), &spec).expect("filter should compile");
    assert_eq!(matches, vec![0, 1, 2, 3, 4]);
}

#[test]
fn level_mask_filters_known_levels_when_not_all_selected() {
    let spec = FilterSpec { levels: LevelMask::from_levels(&["W", "E"]), ..Default::default() };
    let matches = filter_entries(&sample(), &spec).expect("filter should compile");
    assert_eq!(matches, vec![2, 3]);
}

#[test]
fn pid_tid_and_tag_filters_are_conjunctive() {
    let spec = FilterSpec {
        pid: FilterField::plain(true, "200|300"),
        tid: FilterField::plain(true, "21"),
        tag_include: FilterField::plain(true, "Network|Payment"),
        ..Default::default()
    };
    let matches = filter_entries(&sample(), &spec).expect("filter should compile");
    assert_eq!(matches, vec![2]);
}

#[test]
fn include_and_exclude_keyword_filters_work_together() {
    let spec = FilterSpec {
        word_include: FilterField::plain(true, "request|Timeout"),
        word_exclude: FilterField::plain(true, "slow"),
        ..Default::default()
    };
    let matches = filter_entries(&sample(), &spec).expect("filter should compile");
    assert_eq!(matches, vec![3]);
}

#[test]
fn regex_filters_match_each_pipe_value() {
    let spec = FilterSpec {
        tag_include: FilterField::regex(true, r"Activity.*|Pay(ment)?"),
        word_include: FilterField::regex(true, r"Start\s+proc|SocketTimeout"),
        ..Default::default()
    };
    let matches = filter_entries(&sample(), &spec).expect("filter should compile");
    assert_eq!(matches, vec![0, 3]);
}

#[test]
fn invalid_regex_returns_error() {
    let spec = FilterSpec { tag_include: FilterField::regex(true, "["), ..Default::default() };
    assert!(filter_entries(&sample(), &spec).is_err());
}

#[test]
fn values_are_split_trimmed_and_empty_ones_dropped() {
    assert_eq!(split_values(" a | b ||c| "), vec!["a", "b", "c"]);
    assert!(split_values("   ").is_empty());
    assert_eq!(split_values("x"), vec!["x"]);
}

#[test]
fn level_masks_and_activity() {
    assert_eq!(LevelMask::from_levels(&["VERBOSE", "F", "bogus"]).bits(), 1 | 32);
    assert_eq!(LevelMask::from_bits(0xff).bits(), 63);
    assert_eq!(LevelMask::all().bits(), 63);
    assert!(!FilterSpec::default().is_active());
    let spec = FilterSpec { tid: FilterField::plain(true, "  "), ..Default::default() };
    assert!(!spec.is_active());
    let spec = FilterSpec { tid: FilterField::plain(true, " 7 "), ..Default::default() };
    assert!(spec.is_active());
    let spec = FilterSpec { levels: LevelMask::from_levels(&["E"]), ..Default::default() };
    assert!(spec.is_active());
    let matcher = FilterMatcher::new(&spec).unwrap();
    assert!(!matcher.is_match(&entry("", "", "", "", "raw")));
    assert!(matcher.is_match(&entry("E", "1", "1", "T", "m")));
}

#[test]
fn an_inactive_filter_keeps_every_entry() {
    let entries = sample();
    let mut spec = FilterSpec::default();
    spec.word_include = FilterField::plain(true, "   ");
    assert!(!spec.is_active());
    let kept = filter_entries(&entries, &spec).unwrap();
    assert_eq!(kept, (0..entries.len() as u64).collect::<Vec<u64>>());
}

#[test]
fn regex_pid_matches_anywhere_and_regex_exclude_rejects() {
    let spec = FilterSpec {
        pid: FilterField::regex(true, "^2"),
        word_exclude: FilterField::regex(true, r"re[tx]ry$"),
        ..Default::default()
    };
    let matches = filter_entries(&sample(), &spec).expect("filter should compile");
    assert_eq!(matches, vec![1]);
    let spec = FilterSpec { tid: FilterField::regex(true, "1"), ..Default::default() };
    let matches = filter_entries(&sample(), &spec).expect("filter should compile");
    assert_eq!(matches, vec![0, 2]);
}
