use ndnblk::folder::FileEntry;
use ndnblk::options::{log_level, output_dir, LogLevel};
use ndnblk::plan::{count_successes, fit_budget, keep_matching, keep_ready, select, DownloadItem, Stop};

fn entry(name: &str, size_bytes: u64) -> FileEntry {
    FileEntry { file_id: format!("id-{name}"), name: name.to_string(), size_bytes }
}

fn item(name: &str, size_bytes: u64) -> DownloadItem {
    DownloadItem {
        file_id: String::new(),
        filename: name.to_string(),
        nf_down: String::new(),
        dir: String::new(),
        size_bytes,
    }
}

fn names(items: &[DownloadItem]) -> Vec<&str> {
    items.iter().map(|i| i.filename.as_str()).collect()
}

#[test]
fn names_match_in_any_case() {
    let all = vec![entry("Part1.RAR", 1), entry("ÄRGER.rar", 2), entry("x.zip", 3)];
    let kept = keep_matching(all, "RaR");
    assert_eq!(kept.iter().map(|e| e.size_bytes).collect::<Vec<u64>>(), [1, 2]);
    let kept = keep_matching(vec![entry("ÄRGER", 1)], "ärg");
    assert_eq!(kept.len(), 1);
    assert_eq!(keep_matching(vec![entry("a", 1)], "").len(), 1);
}

#[test]
fn selections() {
    let s = select(vec![entry("a", 1), entry("b", 2)], None, "/d").unwrap();
    assert_eq!((s.listed, s.skipped), (2, 0));
    assert_eq!(names(&s.items), ["a", "b"]);
    let first = &s.items[0];
    assert_eq!((first.file_id.as_str(), first.dir.as_str(), first.nf_down.as_str()), ("id-a", "/d", ""));
    let s = select(vec![entry("a", 1), entry("b", 2)], Some("B"), "/d").unwrap();
    assert_eq!((s.listed, s.skipped), (2, 1));
    assert_eq!(names(&s.items), ["b"]);
    assert!(matches!(select(vec![], Some("b"), "/d"), Err(Stop::NoFiles)));
    assert!(matches!(select(vec![entry("a", 1)], Some("b"), "/d"), Err(Stop::NoMatch { listed: 1 })));
}

#[test]
fn budgets_are_spent_in_order() {
    let b = fit_budget(vec![item("a", 60), item("b", 50), item("c", 0), item("d", 40), item("e", 1)], 100);
    assert_eq!(names(&b.kept), ["a", "c", "d"]);
    assert_eq!(b.left, 0);
    let skipped: Vec<(&str, u64)> = b.skipped.iter().map(|(i, left)| (i.filename.as_str(), *left)).collect();
    assert_eq!(skipped, [("b", 40), ("e", 0)]);
    let sum: u64 = b.kept.iter().map(|i| i.size_bytes).sum();
    assert_eq!(sum + b.left, 100);
}

#[test]
fn budgets_that_are_large_enough_keep_everything() {
    let b = fit_budget(vec![item("a", 60), item("b", 40)], 100);
    assert_eq!(names(&b.kept), ["a", "b"]);
    assert!(b.skipped.is_empty());
    let b = fit_budget(vec![item("a", 1), item("b", 0)], 0);
    assert_eq!(names(&b.kept), ["b"]);
}

#[test]
fn only_items_with_a_link_are_ready() {
    let (mut a, mut b, c) = (item("a", 1), item("b", 1), item("c", 1));
    a.resolve("link".to_string());
    a.resolve(String::new());
    b.resolve(String::new());
    assert_eq!(a.nf_down, "link");
    let ready = keep_ready(vec![b, a, c]);
    assert_eq!(names(&ready), ["a"]);
}

#[test]
fn successes_are_counted() {
    assert_eq!(count_successes(&vec![]), 0);
    assert_eq!(count_successes(&vec![true, false, true]), 2);
}

#[test]
fn options_of_the_command_line() {
    assert!(log_level(0) == LogLevel::Info);
    assert!(log_level(1) == LogLevel::Debug);
    assert!(log_level(2) == LogLevel::Trace);
    assert!(log_level(255) == LogLevel::Trace);
    assert_eq!(output_dir(None, "/home/me"), "/home/me/Downloads");
    assert_eq!(output_dir(Some("/mnt/media".to_string()), "/home/me"), "/mnt/media");
}
