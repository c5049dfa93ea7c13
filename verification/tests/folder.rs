use ndnblk::folder::{page_count, parse_folder_url, read_entry, FolderScan, ScanPhase};
use ndnblk::json::parse_json;
use ndnblk::request::Method;

fn ids(url: &str) -> Option<(String, String)> {
    parse_folder_url(url)
}

fn pair(a: &str, b: &str) -> Option<(String, String)> {
    Some((a.to_string(), b.to_string()))
}

#[test]
fn addresses_of_folders() {
    assert_eq!(ids("https://nitroflare.com/folder/10973/L02xNQV9USFBPLkQ="), pair("10973", "L02xNQV9USFBPLkQ="));
    assert_eq!(ids("https://nitroflare.com/folder/10973/L02xNQV9USFBPLkQ=///"), pair("10973", "L02xNQV9USFBPLkQ="));
    assert_eq!(ids("a/b"), pair("a", "b"));
    assert_eq!(ids("/b"), pair("", "b"));
    assert_eq!(ids("a//b"), pair("", "b"));
    assert_eq!(ids("b"), None);
    assert_eq!(ids("b/"), None);
    assert_eq!(ids("///"), None);
    assert_eq!(ids(""), None);
}

#[test]
fn addresses_split_like_strings() {
    for url in ["", "/", "a", "a/", "/a", "a/b", "a/b/c", "a/b/c/", "//", "//a", "é/ü//", "x//y/z"] {
        let parts: Vec<&str> = url.trim_end_matches('/').rsplitn(3, '/').collect();
        let expected = if parts.len() >= 2 { pair(parts[1], parts[0]) } else { None };
        assert_eq!(ids(url), expected, "{url:?}");
    }
}

#[test]
fn entries_need_an_identifier_and_a_name() {
    let read = |s: &str| {
        read_entry(&parse_json(s.as_bytes()).unwrap()).map(|e| (e.file_id, e.name, e.size_bytes))
    };
    assert_eq!(
        read(r#"{"url": "view/ABC/x.rar", "name": "x.rar", "size": "1.5 GB"}"#),
        Some(("ABC".to_string(), "x.rar".to_string(), 1_610_612_736))
    );
    assert_eq!(read(r#"{"url": "view/ABC", "name": "x"}"#), Some(("ABC".to_string(), "x".to_string(), 0)));
    assert_eq!(read(r#"{"url": "view", "name": "x"}"#), None);
    assert_eq!(read(r#"{"url": "view//x", "name": "x"}"#), None);
    assert_eq!(read(r#"{"url": "view/ABC/x", "name": ""}"#), None);
    assert_eq!(read(r#"{"url": "view/ABC/x"}"#), None);
    assert_eq!(read("[]"), None);
}

#[test]
fn counts_of_pages() {
    assert_eq!(page_count(0), 0);
    assert_eq!(page_count(1), 1);
    assert_eq!(page_count(100), 1);
    assert_eq!(page_count(101), 2);
    assert_eq!(page_count(u64::MAX), u64::MAX / 100 + 1);
}

#[test]
fn folders_are_listed_page_by_page() {
    let mut scan = FolderScan::start("https://nitroflare.com/folder/7/F=/").unwrap();
    let r = scan.request();
    assert!(r.method == Method::Post);
    assert_eq!(r.url, "https://nitroflare.com/ajax/folder.php");
    let params: Vec<(&str, &str)> = r.params.iter().map(|(k, v)| (k.as_str(), v.as_str())).collect();
    assert_eq!(params, [("userId", "7"), ("folder", "F="), ("page", "1"), ("perPage", "100")]);

    let info = scan
        .take_body(br#"{"total": 150, "name": "My", "files": [{"url": "v/A/a", "name": "a", "size": "1 KB"}, {"url": "v"}]}"#)
        .unwrap();
    assert_eq!((info.name.as_str(), info.total, info.pages), ("My", 150, 2));
    assert!(scan.phase == ScanPhase::Pause);
    scan.end_pause();
    assert!(scan.phase == ScanPhase::Fetch);
    assert_eq!(scan.request().params[2].1, "2");
    let info = scan.take_body(br#"{"total": 150, "files": [{"url": "v/B/b", "name": "b"}]}"#).unwrap();
    assert_eq!(info.name, "?");
    assert!(scan.phase == ScanPhase::Done);
    let found: Vec<(&str, &str, u64)> =
        scan.found.iter().map(|e| (e.file_id.as_str(), e.name.as_str(), e.size_bytes)).collect();
    assert_eq!(found, [("A", "a", 1024), ("B", "b", 0)]);

    // Nothing more is taken.
    scan.take_body(br#"{"total": 300, "files": [{"url": "v/C/c", "name": "c"}]}"#).unwrap();
    assert_eq!(scan.found.len(), 2);
}

#[test]
fn empty_folders_end_at_once() {
    for body in [&br#"{"total": 0, "files": [{"url": "v/A/a", "name": "a"}]}"#[..], b"{}", br#"{"total": "5"}"#] {
        let mut scan = FolderScan::start("u/f").unwrap();
        assert_eq!(scan.take_body(body).unwrap().total, 0);
        assert!(scan.phase == ScanPhase::Done);
        assert!(scan.found.is_empty());
    }
}

#[test]
fn broken_pages_and_addresses_are_errors() {
    let mut scan = FolderScan::start("u/f").unwrap();
    assert!(scan.take_body(b"<html>").is_err());
    assert!(scan.phase == ScanPhase::Fetch);
    assert_eq!(FolderScan::start("nothing").unwrap_err(), "Cannot parse folder URL: nothing");
}
