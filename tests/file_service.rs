use std::path::PathBuf;
use typolite::file_service::{recent_markdown_files, Debouncer, FileMetadata};

fn meta(name: &str, modified: u64, is_markdown: bool) -> FileMetadata {
    FileMetadata { path: PathBuf::from(name), size: 1, modified, is_markdown }
}

#[test]
fn listing_keeps_markdown_most_recent_first() {
    let files = vec![
        meta("a.md", 10, true),
        meta("b.txt", 50, false),
        meta("c.md", 30, true),
        meta("d.markdown", 20, true),
    ];
    let out = recent_markdown_files(files);
    let names: Vec<String> = out.iter().map(|f| f.path.display().to_string()).collect();
    assert_eq!(names, vec!["c.md", "d.markdown", "a.md"]);
}

#[test]
fn listing_of_nothing_is_empty() {
    assert!(recent_markdown_files(Vec::new()).is_empty());
    assert!(recent_markdown_files(vec![meta("x.txt", 1, false)]).is_empty());
}

#[test]
fn debouncer_reports_after_quiet_period() {
    let mut d = Debouncer::new(300);
    d.record("a.md".to_string(), 1000);
    d.record("b.md".to_string(), 1100);
    assert!(d.take_ready(1200).is_empty());
    assert_eq!(d.take_ready(1300), vec!["a.md".to_string()]);
    assert!(d.take_ready(1350).is_empty());
    assert_eq!(d.take_ready(1400), vec!["b.md".to_string()]);
    assert!(d.take_ready(5000).is_empty());
}

#[test]
fn debouncer_restarts_timer_on_new_change() {
    let mut d = Debouncer::new(300);
    d.record("a.md".to_string(), 1000);
    d.record("a.md".to_string(), 1250);
    assert!(d.take_ready(1300).is_empty());
    assert_eq!(d.take_ready(1550), vec!["a.md".to_string()]);
}

#[test]
fn debouncer_with_zero_delay_and_clock_skew() {
    let mut d = Debouncer::new(0);
    d.record("a.md".to_string(), 500);
    assert_eq!(d.take_ready(100), vec!["a.md".to_string()]);
}

#[test]
fn listing_keeps_order_of_equal_times() {
    let files = vec![
        meta("first.md", 5, true),
        meta("newest.md", 9, true),
        meta("second.md", 5, true),
        meta("third.md", 5, true),
    ];
    let out = recent_markdown_files(files);
    let names: Vec<String> = out.iter().map(|f| f.path.display().to_string()).collect();
    assert_eq!(names, vec!["newest.md", "first.md", "second.md", "third.md"]);
}
