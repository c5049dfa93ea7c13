use ndnblk::download::{Download, DownloadEvent, DownloadOutcome};
use ndnblk::plan::DownloadItem;
use ndnblk::tor::{BadProxy, TorManager};

fn item() -> DownloadItem {
    DownloadItem {
        file_id: "ID".to_string(),
        filename: "a file.rar".to_string(),
        nf_down: "https://cdn/x".to_string(),
        dir: "/d".to_string(),
        size_bytes: 1,
    }
}

fn run(events: &[DownloadEvent]) -> Download {
    events.iter().fold(Download::start(), |state, event| state.step(*event))
}

/// The events up to the first run of `aria2c`.
fn first_run() -> Vec<DownloadEvent> {
    vec![DownloadEvent::DirMade, DownloadEvent::Length(None), DownloadEvent::KeyInfo(None)]
}

#[test]
fn arguments_of_aria2c() {
    let plain = item().aria2c_args(&TorManager::start(false));
    assert_eq!(
        plain,
        [
            "--dir", "/d", "--out", "a_file.rar", "--max-connection-per-server=16",
            "--max-concurrent-downloads=16", "--split=20", "--continue=true", "--auto-file-renaming=true",
            "--allow-overwrite=true", "--summary-interval=0", "--quiet", "https://cdn/x",
        ]
    );
    assert_eq!(item().out_name(), "a_file.rar");
}

#[test]
fn tor_carries_all_traffic() {
    let tunnel = TorManager::start(true);
    assert!(tunnel.active);
    assert_eq!(tunnel.proxy_str, "socks5h://localhost:9050");
    let args = item().aria2c_args(&tunnel);
    assert!(args.contains(&"--all-proxy=socks5h://localhost:9050".to_string()));
    assert_eq!(args.last().unwrap(), "https://cdn/x");
    assert_eq!(tunnel.scrape_client().unwrap().proxies, ["socks5h://localhost:9050"]);
    let off = TorManager::start(false);
    assert!(!off.active && off.proxy_str.is_empty());
    assert!(off.scrape_client().unwrap().proxies.is_empty());
}

#[test]
fn clients_of_the_tunnel() {
    let c = TorManager::start(true).scrape_client().unwrap();
    assert_eq!(c.timeout_secs, 30);
    let c = TorManager::start(true).client_as("me".to_string(), 5).unwrap();
    let c = TorManager::start(true).add_proxy(c);
    assert_eq!((c.user_agent.as_str(), c.timeout_secs, c.proxies.len()), ("me", 5, 2));
    assert_eq!(TorManager::start(false).client(7).unwrap().timeout_secs, 7);
}

#[test]
fn user_agents_have_their_shape() {
    for _ in 0..50 {
        let agent = TorManager::start(false).client(1).unwrap().user_agent;
        assert!(agent.starts_with("Mozilla/") || agent.starts_with("Opera/"), "{agent}");
        let (front, end) = agent.split_once(" (KHTML, like Gecko) ").unwrap();
        let (platform, engine) = front.rsplit_once(") AppleWebKit/").unwrap();
        assert!(platform.contains(" (") && platform.contains("; "), "{agent}");
        let (product, again) = end.rsplit_once(" Safari/").unwrap();
        assert_eq!(engine, again);
        let (_, version) = product.rsplit_once('/').unwrap();
        let (major, build) = version.split_once(".0.").unwrap();
        assert!((60..100).contains(&major.parse::<u32>().unwrap()), "{agent}");
        assert!(build.parse::<u32>().unwrap() < 500, "{agent}");
    }
}

#[test]
fn tunnels_need_the_address_of_a_proxy() {
    let tunnel = |active, address: &str| TorManager { active, proxy_str: address.to_string() };
    let builder = || TorManager::start(false).client_as("me".to_string(), 5).unwrap();
    for address in ["", "http://", "not an address"] {
        assert_eq!(tunnel(true, address).client_as("me".to_string(), 5).err(), Some(BadProxy));
        assert_eq!(tunnel(true, address).client(5).err(), Some(BadProxy));
        assert_eq!(tunnel(true, address).scrape_client().err(), Some(BadProxy));
        assert_eq!(tunnel(true, address).try_add_proxy(builder()).err(), Some(BadProxy));
        assert!(tunnel(false, address).client(5).unwrap().proxies.is_empty());
        assert!(tunnel(false, address).add_proxy(builder()).proxies.is_empty());
    }
    for address in ["http://proxy.example:8080", "127.0.0.1:9050"] {
        assert_eq!(tunnel(true, address).try_add_proxy(builder()).unwrap().proxies, [address]);
    }
}

#[test]
fn files_that_are_there_are_skipped() {
    let there = run(&[DownloadEvent::DirMade, DownloadEvent::Length(Some(1025))]);
    assert!(there == Download::Done(DownloadOutcome::AlreadyThere));
    for length in [None, Some(0), Some(1024)] {
        let state = run(&[DownloadEvent::DirMade, DownloadEvent::Length(length)]);
        assert!(state == Download::CheckBandwidth);
    }
}

#[test]
fn little_bandwidth_stops_a_download() {
    let with = |info| run(&[DownloadEvent::DirMade, DownloadEvent::Length(None), DownloadEvent::KeyInfo(info)]);
    assert!(with(Some((9, 100))) == Download::Done(DownloadOutcome::LowBandwidth));
    assert!(with(Some((10, 100))) == Download::Run { attempt: 1 });
    assert!(with(Some((1, 19))) == Download::Run { attempt: 1 });
    assert!(with(Some((0, 0))) == Download::Run { attempt: 1 });
    assert!(with(None) == Download::Run { attempt: 1 });
}

#[test]
fn downloads_succeed_with_a_real_file() {
    let mut events = first_run();
    events.extend([DownloadEvent::Exited(true), DownloadEvent::Length(Some(1024))]);
    assert!(run(&events) == Download::Done(DownloadOutcome::Downloaded));
    assert!(DownloadOutcome::Downloaded.succeeded());
    assert!(DownloadOutcome::AlreadyThere.succeeded());
    assert!(!DownloadOutcome::LowBandwidth.succeeded());
    assert!(!DownloadOutcome::Failed.succeeded());
    assert_eq!(DownloadOutcome::Downloaded.result(), Ok(true));
    assert_eq!(DownloadOutcome::AlreadyThere.result(), Ok(true));
    assert_eq!(DownloadOutcome::LowBandwidth.result(), Ok(false));
    assert_eq!(DownloadOutcome::Failed.result(), Ok(false));
}

#[test]
fn the_last_error_page_is_deleted() {
    let mut events = first_run();
    for attempt in 2..=3 {
        events.extend([DownloadEvent::Exited(true), DownloadEvent::Length(Some(14))]);
        assert!(run(&events) == Download::Retry { attempt });
        events.push(DownloadEvent::Waited);
    }
    events.extend([DownloadEvent::Exited(true), DownloadEvent::Length(Some(14))]);
    assert!(run(&events) == Download::Discard);
    events.push(DownloadEvent::Waited);
    assert!(run(&events) == Download::Discard);
    events.push(DownloadEvent::Deleted);
    assert!(run(&events) == Download::Done(DownloadOutcome::Failed));
}

#[test]
fn nothing_is_run_without_a_directory() {
    let mut events = vec![DownloadEvent::DirFailed];
    assert!(run(&events) == Download::Done(DownloadOutcome::NoDirectory));
    events.extend(first_run());
    assert!(run(&events) == Download::Done(DownloadOutcome::NoDirectory));
    assert!(!DownloadOutcome::NoDirectory.succeeded());
    assert_eq!(DownloadOutcome::NoDirectory.result(), Err(DownloadOutcome::NoDirectory));
}

#[test]
fn a_program_that_does_not_start_is_not_tried_again() {
    let mut events = first_run();
    events.push(DownloadEvent::StartFailed);
    assert!(run(&events) == Download::Done(DownloadOutcome::NotStarted));
    let mut events = first_run();
    events.extend([DownloadEvent::Exited(false), DownloadEvent::Waited, DownloadEvent::StartFailed]);
    assert!(run(&events) == Download::Done(DownloadOutcome::NotStarted));
    assert!(!DownloadOutcome::NotStarted.succeeded());
    assert_eq!(DownloadOutcome::NotStarted.result(), Err(DownloadOutcome::NotStarted));
}

#[test]
fn error_pages_are_deleted_and_retried() {
    let mut events = first_run();
    events.extend([DownloadEvent::Exited(true), DownloadEvent::Length(Some(1023))]);
    assert!(run(&events) == Download::Retry { attempt: 2 });
    events.push(DownloadEvent::Waited);
    assert!(run(&events) == Download::Run { attempt: 2 });
    events.push(DownloadEvent::Exited(false));
    assert!(run(&events) == Download::Retry { attempt: 3 });
    events.extend([DownloadEvent::Waited, DownloadEvent::Exited(true)]);
    assert!(run(&events) == Download::Inspect { attempt: 3 });
    events.push(DownloadEvent::Length(None));
    assert!(run(&events) == Download::Done(DownloadOutcome::Failed));
    events.push(DownloadEvent::Exited(true));
    assert!(run(&events) == Download::Done(DownloadOutcome::Failed));
}
