use ndnblk::api::{read_key_info, read_link, LinkEvent, LinkFetch, LinkOutcome, NFDown, RefusalKind};
use ndnblk::json::{parse_json, Json, JsonNumber, NotJson};
use ndnblk::request::{Method, Request};
use ndnblk::tor::{BadProxy, TorManager};

fn params(r: &Request) -> Vec<(&str, &str)> {
    r.params.iter().map(|(k, v)| (k.as_str(), v.as_str())).collect()
}

#[test]
fn accounts() {
    let nfd = NFDown::init("me", "key", &TorManager::start(true)).unwrap();
    assert_eq!((nfd.ux.as_str(), nfd.px.as_str()), ("me", "key"));
    assert_eq!(nfd.client.timeout_secs, 20);
    assert_eq!(nfd.client.proxies, vec!["socks5h://localhost:9050".to_string()]);
    assert!(nfd.client.user_agent.contains(" (KHTML, like Gecko) "));
    let nfd = NFDown::init_as("agent".to_string(), "me", "key", &TorManager::start(false)).unwrap();
    assert_eq!(nfd.client.user_agent, "agent");
    assert!(nfd.client.proxies.is_empty());
    let broken = TorManager { active: true, proxy_str: String::new() };
    assert_eq!(NFDown::init("me", "key", &broken).err(), Some(BadProxy));
    assert_eq!(NFDown::init_as("agent".to_string(), "me", "key", &broken).err(), Some(BadProxy));
}

#[test]
fn requests_to_the_api() {
    let nfd = NFDown::init("me", "key", &TorManager::start(false)).unwrap();
    let r = nfd.key_info_request();
    assert!(r.method == Method::Get);
    assert_eq!(r.url, "https://nitroflare.com/api/v2/getKeyInfo");
    assert_eq!(params(&r), [("user", "me"), ("premiumKey", "key")]);
    let r = nfd.link_request("ABC");
    assert_eq!(r.url, "https://nitroflare.com/api/v2/getDownloadLink");
    assert_eq!(params(&r), [("user", "me"), ("premiumKey", "key"), ("file", "ABC")]);
}

#[test]
fn traffic_in_any_form() {
    let info = |s: &str| NFDown::get_key_info(s.as_bytes());
    assert_eq!(info(r#"{"result": {"trafficLeft": 5, "trafficMax": 10}}"#), Ok((5, 10)));
    assert_eq!(info(r#"{"result": {"trafficLeft": 5.9, "trafficMax": 1e3}}"#), Ok((5, 1000)));
    assert_eq!(info(r#"{"result": {"trafficLeft": "12", "trafficMax": "+13"}}"#), Ok((12, 13)));
    assert_eq!(info(r#"{"result": {"trafficLeft": "1.5", "trafficMax": ""}}"#), Ok((0, 0)));
    assert_eq!(info(r#"{"result": {"trafficLeft": -4, "trafficMax": 1e30}}"#), Ok((0, u64::MAX)));
    assert_eq!(info(r#"{"result": {"trafficLeft": null}}"#), Ok((0, 0)));
    assert_eq!(info(r#"{"result": 1}"#), Ok((0, 0)));
    assert_eq!(info("[]"), Ok((0, 0)));
    assert_eq!(info("oops"), Err(NotJson));
}

#[test]
fn traffic_of_a_document_built_by_hand() {
    let n = |n| Json::Number(JsonNumber::Unsigned(n));
    let half = Json::Number(JsonNumber::Double(0.5f64.to_bits()));
    let result = Json::Object(vec![("trafficMax".to_string(), n(9)), ("trafficLeft".to_string(), half)]);
    assert_eq!(read_key_info(&Json::Object(vec![("result".to_string(), result)])), (0, 9));
}

#[test]
fn replies_with_and_without_a_link() {
    let read = |s: &str| read_link(&parse_json(s.as_bytes()).unwrap());
    match read(r#"{"result": {"url": "https://x/y"}, "code": 9}"#) {
        LinkOutcome::Url(url) => assert_eq!(url, "https://x/y"),
        other => panic!("{other:?}"),
    }
    for (s, kind, code, message) in [
        (r#"{"code": 9, "message": "limit"}"#, RefusalKind::BandwidthLimit, 9, "limit"),
        (r#"{"code": 12, "result": {"url": ""}}"#, RefusalKind::RateLimited, 12, "unknown"),
        (r#"{"code": -3, "message": 5}"#, RefusalKind::Other, -3, "unknown"),
        (r#"{"code": "9"}"#, RefusalKind::Other, 0, "unknown"),
    ] {
        match read(s) {
            LinkOutcome::Refused(r) => {
                assert!(r.kind == kind);
                assert_eq!((r.code, r.message.as_str()), (code, message));
            }
            other => panic!("{other:?}"),
        }
    }
}

#[test]
fn links_on_the_second_attempt() {
    let state = LinkFetch::start();
    assert!(matches!(state, LinkFetch::Send { attempt: 1 }));
    let state = state.step(LinkEvent::Status(503));
    assert!(matches!(state, LinkFetch::Wait { attempt: 1, millis: 500 }));
    let state = state.step(LinkEvent::Waited);
    assert!(matches!(state, LinkFetch::Send { attempt: 2 }));
    let state = state.step(LinkEvent::Status(200));
    assert!(matches!(state, LinkFetch::Read { attempt: 2 }));
    let state = state.step(LinkEvent::Body(br#"{"result": {"url": "u"}}"#.to_vec()));
    match state {
        LinkFetch::Done(outcome) => assert_eq!(NFDown::get_download_url(outcome), Ok("u".to_string())),
        other => panic!("{other:?}"),
    }
}

#[test]
fn links_are_given_up_after_three_attempts() {
    let mut state = LinkFetch::start();
    for (event, pause) in [(LinkEvent::SendFailed, 500), (LinkEvent::Status(199), 1000), (LinkEvent::Status(300), 1500)] {
        state = state.step(event);
        assert!(matches!(state, LinkFetch::Wait { millis, .. } if millis == pause));
        state = state.step(LinkEvent::Waited);
    }
    match state {
        LinkFetch::Done(outcome) => {
            assert!(matches!(outcome, LinkOutcome::GaveUp));
            assert_eq!(NFDown::get_download_url(outcome), Ok(String::new()));
        }
        other => panic!("{other:?}"),
    }
}

#[test]
fn broken_replies_are_errors() {
    for event in [LinkEvent::Body(b"<html>".to_vec()), LinkEvent::BodyFailed] {
        match LinkFetch::start().step(LinkEvent::Status(204)).step(event) {
            LinkFetch::Done(outcome) => assert_eq!(NFDown::get_download_url(outcome), Err(NotJson)),
            other => panic!("{other:?}"),
        }
    }
}

#[test]
fn refused_links_are_empty() {
    let state = LinkFetch::start().step(LinkEvent::Status(200)).step(LinkEvent::Body(b"{}".to_vec()));
    match state {
        LinkFetch::Done(outcome) => assert_eq!(NFDown::get_download_url(outcome), Ok(String::new())),
        other => panic!("{other:?}"),
    }
}

#[test]
fn events_out_of_turn_change_nothing() {
    let state = LinkFetch::start().step(LinkEvent::Waited).step(LinkEvent::BodyFailed);
    assert!(matches!(state, LinkFetch::Send { attempt: 1 }));
}
