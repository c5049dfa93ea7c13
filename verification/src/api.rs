//! The API of the file host: what is left of the daily traffic, and download links.
use crate::binary64;
use crate::decimal;
use crate::json;
use crate::json::{Json, JsonNumber, JsonView, NotJson};
use crate::request::{Method, Request, RequestView};
use crate::text;
use crate::tor;
use crate::tor::{BadProxy, ClientConfig, TorManager};
use vstd::arithmetic::power2::*;
use vstd::prelude::*;

verus! {

/// An account of the file host, and the client that it is used with.
#[derive(Debug)]
pub struct NFDown {
    pub client: ClientConfig,
    /// The user name.
    pub ux: String,
    /// The premium key.
    pub px: String,
}

/// The request for what is left of the daily traffic.
pub open spec fn key_info_query(ux: Seq<char>, px: Seq<char>) -> RequestView {
    RequestView {
        method: Method::Get,
        url: "https://nitroflare.com/api/v2/getKeyInfo"@,
        params: seq![("user"@, ux), ("premiumKey"@, px)],
    }
}

/// The request for the download link of the file `file_id`.
pub open spec fn link_query(ux: Seq<char>, px: Seq<char>, file_id: Seq<char>) -> RequestView {
    RequestView {
        method: Method::Get,
        url: "https://nitroflare.com/api/v2/getDownloadLink"@,
        params: seq![("user"@, ux), ("premiumKey"@, px), ("file"@, file_id)],
    }
}

/// An amount of traffic: a number, its whole part if it is not whole, or a text that spells
/// a whole number; 0 if it is negative or anything else.
pub open spec fn traffic(v: JsonView) -> u64 {
    match v {
        JsonView::Number(JsonNumber::Unsigned(n)) => n,
        JsonView::Number(JsonNumber::Double(bits)) => binary64::whole_of_pattern(bits),
        JsonView::Text(s) => match decimal::u64_of(s) {
            Some(u) => u,
            None => 0,
        },
        _ => 0,
    }
}

/// The amount of traffic under `key` in the result of `reply`, 0 if there is none.
pub open spec fn traffic_at(reply: JsonView, key: Seq<char>) -> u64 {
    match reply.get("result"@) {
        Some(result) => match result.get(key) {
            Some(v) => traffic(v),
            None => 0,
        },
        None => 0,
    }
}

/// What is left of the daily traffic, and the whole of it.
pub open spec fn key_info_of(reply: JsonView) -> (u64, u64) {
    (traffic_at(reply, "trafficLeft"@), traffic_at(reply, "trafficMax"@))
}

/// Reads an amount of traffic.
fn read_traffic(v: &Json) -> (r: u64)
    ensures
        r == traffic(v@),
{
    match v {
        Json::Number(JsonNumber::Unsigned(n)) => *n,
        Json::Number(JsonNumber::Double(bits)) => binary64::truncated(*bits),
        Json::Text(s) => match decimal::parse_u64(text::chars_of(s.as_str()).as_slice()) {
            Some(u) => u,
            None => 0,
        },
        _ => 0,
    }
}

/// Reads the amount of traffic under `key` in the result of `reply`.
fn read_traffic_at(reply: &Json, key: &str) -> (r: u64)
    ensures
        r == traffic_at(reply@, key@),
{
    match reply.get("result") {
        Some(result) => match result.get(key) {
            Some(v) => read_traffic(v),
            None => 0,
        },
        None => 0,
    }
}

/// Reads what is left of the daily traffic, and the whole of it, from a reply.
pub fn read_key_info(reply: &Json) -> (r: (u64, u64))
    ensures
        r == key_info_of(reply@),
{
    (read_traffic_at(reply, "trafficLeft"), read_traffic_at(reply, "trafficMax"))
}

/// Why the host gives no link.
#[derive(Clone, Copy, Debug, PartialEq, Eq, Structural)]
pub enum RefusalKind {
    /// The daily traffic is used up.
    BandwidthLimit,
    /// Too many requests.
    RateLimited,
    Other,
}

/// A reply without a link.
#[derive(Debug)]
pub struct Refusal<T> {
    pub kind: RefusalKind,
    pub code: i64,
    pub message: T,
}

/// How the request for a download link ends.
#[derive(Debug)]
pub enum LinkOutcome<T> {
    /// The link, which is not empty.
    Url(T),
    /// The host replied without a link.
    Refused(Refusal<T>),
    /// Every attempt failed.
    GaveUp,
    /// The reply could not be read.
    Broken,
}

impl View for LinkOutcome<String> {
    type V = LinkOutcome<Seq<char>>;

    open spec fn view(&self) -> LinkOutcome<Seq<char>> {
        match self {
            LinkOutcome::Url(url) => LinkOutcome::Url(url@),
            LinkOutcome::Refused(r) => LinkOutcome::Refused(
                Refusal { kind: r.kind, code: r.code, message: r.message@ },
            ),
            LinkOutcome::GaveUp => LinkOutcome::GaveUp,
            LinkOutcome::Broken => LinkOutcome::Broken,
        }
    }
}

/// The link in the result of `reply`, empty if there is none.
pub open spec fn link_of(reply: JsonView) -> Seq<char> {
    match reply.get("result"@) {
        Some(result) => result.text_at("url"@, seq![]),
        None => seq![],
    }
}

/// The error code of `reply`, 0 if there is none.
pub open spec fn code_of(reply: JsonView) -> i64 {
    match reply.get("code"@) {
        Some(v) => match v.as_i64() {
            Some(code) => code,
            None => 0,
        },
        None => 0,
    }
}

/// What the error code `code` means.
pub open spec fn kind_of(code: i64) -> RefusalKind {
    if code == 9 {
        RefusalKind::BandwidthLimit
    } else if code == 12 {
        RefusalKind::RateLimited
    } else {
        RefusalKind::Other
    }
}

/// What a reply to the request for a download link says.
pub open spec fn link_outcome_of(reply: JsonView) -> LinkOutcome<Seq<char>> {
    if link_of(reply).len() > 0 {
        LinkOutcome::Url(link_of(reply))
    } else {
        LinkOutcome::Refused(
            Refusal {
                kind: kind_of(code_of(reply)),
                code: code_of(reply),
                message: reply.text_at("message"@, "unknown"@),
            },
        )
    }
}

/// Reads the reply to the request for a download link.
pub fn read_link(reply: &Json) -> (r: LinkOutcome<String>)
    ensures
        r@ == link_outcome_of(reply@),
{
    let empty = String::new();
    let url: &str = match reply.get("result") {
        Some(result) => result.text_at("url", empty.as_str()),
        None => empty.as_str(),
    };
    assert(empty@ =~= seq![]);
    if !url.is_empty() {
        return LinkOutcome::Url(url.to_owned());
    }
    let code: i64 = match reply.get("code") {
        Some(v) => match v.as_i64() {
            Some(code) => code,
            None => 0,
        },
        None => 0,
    };
    let kind = if code == 9 {
        RefusalKind::BandwidthLimit
    } else if code == 12 {
        RefusalKind::RateLimited
    } else {
        RefusalKind::Other
    };
    LinkOutcome::Refused(
        Refusal { kind, code, message: reply.text_at("message", "unknown").to_owned() },
    )
}

/// How often the request for a download link is sent at most.
pub const LINK_ATTEMPTS: u32 = 3;

/// What has to be done next to get a download link.
#[derive(Debug)]
pub enum LinkFetch<T> {
    /// Send the request, for the `attempt`th time.
    Send { attempt: u32 },
    /// Read the body of the reply.
    Read { attempt: u32 },
    /// Wait for so many milliseconds.
    Wait { attempt: u32, millis: u64 },
    Done(LinkOutcome<T>),
}

/// What came of it.
#[derive(Debug)]
pub enum LinkEvent {
    /// The reply came with this status.
    Status(u16),
    /// There was no reply.
    SendFailed,
    Body(Vec<u8>),
    /// The body could not be read.
    BodyFailed,
    /// The time to wait is over.
    Waited,
}

impl View for LinkFetch<String> {
    type V = LinkFetch<Seq<char>>;

    open spec fn view(&self) -> LinkFetch<Seq<char>> {
        match self {
            LinkFetch::Send { attempt } => LinkFetch::Send { attempt: *attempt },
            LinkFetch::Read { attempt } => LinkFetch::Read { attempt: *attempt },
            LinkFetch::Wait { attempt, millis } => LinkFetch::Wait {
                attempt: *attempt,
                millis: *millis,
            },
            LinkFetch::Done(outcome) => LinkFetch::Done(outcome@),
        }
    }
}

/// Whether `status` is one of success.
pub open spec fn is_success(status: u16) -> bool {
    200 <= status < 300
}

/// What follows a failed attempt: a wait, the longer the more attempts have failed.
pub open spec fn link_wait(attempt: u32) -> LinkFetch<Seq<char>> {
    LinkFetch::Wait { attempt, millis: (500 * attempt) as u64 }
}

/// What a reply with the body `body` leads to.
pub open spec fn link_reply(body: Seq<u8>) -> LinkOutcome<Seq<char>> {
    match json::parsed(body) {
        Some(reply) => link_outcome_of(reply),
        None => LinkOutcome::Broken,
    }
}

/// What has to be done after `event`. An event that is not waited for changes nothing.
pub open spec fn link_next(now: LinkFetch<Seq<char>>, event: LinkEvent) -> LinkFetch<Seq<char>> {
    match (now, event) {
        (LinkFetch::Send { attempt }, LinkEvent::Status(status)) => if is_success(status) {
            LinkFetch::Read { attempt }
        } else {
            link_wait(attempt)
        },
        (LinkFetch::Send { attempt }, LinkEvent::SendFailed) => link_wait(attempt),
        (LinkFetch::Read { attempt }, LinkEvent::Body(body)) => LinkFetch::Done(link_reply(body@)),
        (LinkFetch::Read { attempt }, LinkEvent::BodyFailed) => LinkFetch::Done(
            LinkOutcome::Broken,
        ),
        (LinkFetch::Wait { attempt, millis }, LinkEvent::Waited) => if attempt < LINK_ATTEMPTS {
            LinkFetch::Send { attempt: (attempt + 1) as u32 }
        } else {
            LinkFetch::Done(LinkOutcome::GaveUp)
        },
        _ => now,
    }
}

impl LinkFetch<String> {
    /// The first thing to do.
    pub fn start() -> (r: LinkFetch<String>)
        ensures
            r@ == (LinkFetch::<Seq<char>>::Send { attempt: 1 }),
    {
        LinkFetch::Send { attempt: 1 }
    }

    /// What has to be done after `event`.
    pub fn step(self, event: LinkEvent) -> (r: LinkFetch<String>)
        ensures
            r@ == link_next(self@, event),
    {
        match (self, event) {
            (LinkFetch::Send { attempt }, LinkEvent::Status(status)) => {
                if 200 <= status && status < 300 {
                    LinkFetch::Read { attempt }
                } else {
                    LinkFetch::Wait { attempt, millis: 500 * (attempt as u64) }
                }
            },
            (LinkFetch::Send { attempt }, LinkEvent::SendFailed) => {
                LinkFetch::Wait { attempt, millis: 500 * (attempt as u64) }
            },
            (LinkFetch::Read { attempt: _ }, LinkEvent::Body(body)) => {
                match json::parse_json(body.as_slice()) {
                    Ok(reply) => LinkFetch::Done(read_link(&reply)),
                    Err(_) => LinkFetch::Done(LinkOutcome::Broken),
                }
            },
            (LinkFetch::Read { attempt: _ }, LinkEvent::BodyFailed) => {
                LinkFetch::Done(LinkOutcome::Broken)
            },
            (LinkFetch::Wait { attempt, millis: _ }, LinkEvent::Waited) => {
                if attempt < LINK_ATTEMPTS {
                    LinkFetch::Send { attempt: attempt + 1 }
                } else {
                    LinkFetch::Done(LinkOutcome::GaveUp)
                }
            },
            (now, _) => now,
        }
    }
}

impl NFDown {
    /// An account that is used behind `tunnel`, by a client that calls itself `user_agent`.
    pub fn init_as(user_agent: String, ux: &str, px: &str, tunnel: &TorManager) -> (r: Result<
        NFDown,
        BadProxy,
    >)
        ensures
            r is Ok <==> tunnel.wf(),
            tunnel.is_started() ==> r is Ok,
            r matches Ok(nfd) ==> {
                &&& nfd.ux@ == ux@
                &&& nfd.px@ == px@
                &&& nfd.client.user_agent@ == user_agent@
                &&& nfd.client.timeout_secs == 20
                &&& nfd.client.proxy_addresses() == tunnel.route()
            },
    {
        match tunnel.client_as(user_agent, 20) {
            Ok(client) => Ok(NFDown { client, ux: ux.to_owned(), px: px.to_owned() }),
            Err(e) => Err(e),
        }
    }

    /// An account that is used behind `tunnel`, under some user agent.
    pub fn init(ux: &str, px: &str, tunnel: &TorManager) -> (r: Result<NFDown, BadProxy>)
        ensures
            r is Ok <==> tunnel.wf(),
            tunnel.is_started() ==> r is Ok,
            r matches Ok(nfd) ==> {
                &&& nfd.ux@ == ux@
                &&& nfd.px@ == px@
                &&& tor::is_drawn_agent(nfd.client.user_agent@)
                &&& nfd.client.timeout_secs == 20
                &&& nfd.client.proxy_addresses() == tunnel.route()
            },
    {
        match tunnel.client(20) {
            Ok(client) => Ok(NFDown { client, ux: ux.to_owned(), px: px.to_owned() }),
            Err(e) => Err(e),
        }
    }

    /// The request for what is left of the daily traffic.
    pub fn key_info_request(&self) -> (r: Request)
        ensures
            r@ == key_info_query(self.ux@, self.px@),
    {
        let r = Request::new(Method::Get, "https://nitroflare.com/api/v2/getKeyInfo").with(
            "user",
            self.ux.as_str(),
        ).with("premiumKey", self.px.as_str());
        assert(r@.params =~= key_info_query(self.ux@, self.px@).params);
        r
    }

    /// What is left of the daily traffic, and the whole of it, by the reply with the body
    /// `body`.
    pub fn get_key_info(body: &[u8]) -> (r: Result<(u64, u64), NotJson>)
        ensures
            r == (match json::parsed(body@) {
                Some(reply) => Ok::<(u64, u64), NotJson>(key_info_of(reply)),
                None => Err(NotJson),
            }),
    {
        match json::parse_json(body) {
            Ok(reply) => Ok(read_key_info(&reply)),
            Err(_) => Err(NotJson),
        }
    }

    /// The request for the download link of the file `file_id`.
    pub fn link_request(&self, file_id: &str) -> (r: Request)
        ensures
            r@ == link_query(self.ux@, self.px@, file_id@),
    {
        let r = Request::new(Method::Get, "https://nitroflare.com/api/v2/getDownloadLink").with(
            "user",
            self.ux.as_str(),
        ).with("premiumKey", self.px.as_str()).with("file", file_id);
        assert(r@.params =~= link_query(self.ux@, self.px@, file_id@).params);
        r
    }

    /// The download link that the request for it ended with: empty if there is none, an
    /// error if the reply could not be read.
    pub fn get_download_url(outcome: LinkOutcome<String>) -> (r: Result<String, NotJson>)
        ensures
            match outcome@ {
                LinkOutcome::Url(url) => r is Ok && r->Ok_0@ == url,
                LinkOutcome::Refused(_) | LinkOutcome::GaveUp => r is Ok && r->Ok_0@.len() == 0,
                LinkOutcome::Broken => r is Err,
            },
    {
        match outcome {
            LinkOutcome::Url(url) => Ok(url),
            LinkOutcome::Refused(_) => Ok(String::new()),
            LinkOutcome::GaveUp => Ok(String::new()),
            LinkOutcome::Broken => Err(NotJson),
        }
    }
}

/// The state of the request for a download link after `events`.
pub open spec fn link_run(events: Seq<LinkEvent>) -> LinkFetch<Seq<char>>
    decreases events.len(),
{
    if events.len() == 0 {
        LinkFetch::Send { attempt: 1 }
    } else {
        link_next(link_run(events.drop_last()), events.last())
    }
}

/// How often the request was sent in the course of `events`, whatever came of it.
pub open spec fn sends(events: Seq<LinkEvent>) -> nat
    decreases events.len(),
{
    if events.len() == 0 {
        0
    } else {
        let before = sends(events.drop_last());
        match (link_run(events.drop_last()), events.last()) {
            (LinkFetch::Send { attempt }, LinkEvent::Status(status)) => before + 1,
            (LinkFetch::Send { attempt }, LinkEvent::SendFailed) => before + 1,
            _ => before,
        }
    }
}

/// Whatever happens, the request is sent at most [`LINK_ATTEMPTS`] times, the attempts are
/// counted right, and each wait is half a second longer than the one before.
pub proof fn lemma_sends(events: Seq<LinkEvent>)
    ensures
        sends(events) <= LINK_ATTEMPTS,
        match link_run(events) {
            LinkFetch::Send { attempt } => 1 <= attempt <= LINK_ATTEMPTS && sends(events)
                == attempt - 1,
            LinkFetch::Read { attempt } => 1 <= attempt <= LINK_ATTEMPTS && sends(events)
                == attempt,
            LinkFetch::Wait { attempt, millis } => 1 <= attempt <= LINK_ATTEMPTS && sends(events)
                == attempt && millis == 500 * attempt,
            LinkFetch::Done(outcome) => outcome is GaveUp ==> sends(events) == LINK_ATTEMPTS,
        },
    decreases events.len(),
{
    if events.len() > 0 {
        lemma_sends(events.drop_last());
    }
}

/// Whether `now` waits for an event such as `event`.
pub open spec fn link_awaits(now: LinkFetch<Seq<char>>, event: LinkEvent) -> bool {
    match (now, event) {
        (LinkFetch::Send { attempt }, LinkEvent::Status(status)) => true,
        (LinkFetch::Send { attempt }, LinkEvent::SendFailed) => true,
        (LinkFetch::Read { attempt }, LinkEvent::Body(body)) => true,
        (LinkFetch::Read { attempt }, LinkEvent::BodyFailed) => true,
        (LinkFetch::Wait { attempt, millis }, LinkEvent::Waited) => true,
        _ => false,
    }
}

/// How many events the request for a download link can still take.
pub open spec fn link_remaining(now: LinkFetch<Seq<char>>) -> int {
    match now {
        LinkFetch::Send { attempt } => 2 * (LINK_ATTEMPTS - attempt) + 2,
        LinkFetch::Read { attempt } => 1,
        LinkFetch::Wait { attempt, millis } => 2 * (LINK_ATTEMPTS - attempt) + 1,
        LinkFetch::Done(outcome) => 0,
    }
}

/// Every event that is waited for brings the request for a download link nearer to its end,
/// which it has reached once there is nothing left to wait for.
pub proof fn lemma_link_ends(events: Seq<LinkEvent>, event: LinkEvent)
    ensures
        link_remaining(link_run(events)) >= 0,
        link_awaits(link_run(events), event) ==> link_remaining(link_next(link_run(events), event))
            < link_remaining(link_run(events)),
        link_remaining(link_run(events)) == 0 <==> link_run(events) is Done,
{
    lemma_sends(events);
}

/// Whether an attempt to send the request ends with `event`.
pub open spec fn is_failure(event: LinkEvent) -> bool {
    match event {
        LinkEvent::Status(status) => !is_success(status),
        LinkEvent::SendFailed => true,
        _ => false,
    }
}

/// Once three attempts have failed, the request is given up.
pub proof fn lemma_gives_up(first: LinkEvent, second: LinkEvent, third: LinkEvent)
    requires
        is_failure(first),
        is_failure(second),
        is_failure(third),
    ensures
        link_run(
            seq![first, LinkEvent::Waited, second, LinkEvent::Waited, third, LinkEvent::Waited],
        ) == LinkFetch::<Seq<char>>::Done(LinkOutcome::GaveUp),
{
    let w = LinkEvent::Waited;
    let all = seq![first, w, second, w, third, w];
    assert(all.drop_last() =~= seq![first, w, second, w, third]);
    assert(seq![first, w, second, w, third].drop_last() =~= seq![first, w, second, w]);
    assert(seq![first, w, second, w].drop_last() =~= seq![first, w, second]);
    assert(seq![first, w, second].drop_last() =~= seq![first, w]);
    assert(seq![first, w].drop_last() =~= seq![first]);
    assert(seq![first].drop_last() =~= seq![]);
    assert(link_run(seq![]) == LinkFetch::<Seq<char>>::Send { attempt: 1 });
    assert(link_run(seq![first]) == link_wait(1));
    assert(link_run(seq![first, w]) == LinkFetch::<Seq<char>>::Send { attempt: 2 });
    assert(link_run(seq![first, w, second]) == link_wait(2));
    assert(link_run(seq![first, w, second, w]) == LinkFetch::<Seq<char>>::Send { attempt: 3 });
    assert(link_run(seq![first, w, second, w, third]) == link_wait(3));
}

/// Whether the reply with the body `event` holds the link `url`.
pub open spec fn brings(event: LinkEvent, url: Seq<char>) -> bool {
    match event {
        LinkEvent::Body(body) => match json::parsed(body@) {
            Some(reply) => link_of(reply) == url,
            None => false,
        },
        _ => false,
    }
}

/// A link is never empty, and comes from a reply that held it.
pub proof fn lemma_link_from_reply(events: Seq<LinkEvent>)
    ensures
        link_run(events) matches LinkFetch::Done(LinkOutcome::Url(url)) ==> {
            &&& url.len() > 0
            &&& exists|i: int| 0 <= i < events.len() && brings(#[trigger] events[i], url)
        },
    decreases events.len(),
{
    if events.len() > 0 {
        let front = events.drop_last();
        lemma_link_from_reply(front);
        if let LinkFetch::Done(LinkOutcome::Url(url)) = link_run(events) {
            if link_run(front) is Done {
                let i = choose|i: int| 0 <= i < front.len() && brings(#[trigger] front[i], url);
                assert(events[i] == front[i]);
            } else {
                assert(brings(events[events.len() - 1], url));
            }
        }
    }
}

/// The requests are sent to the two addresses of the API, with the account and, for a link, the
/// file that is asked for.
pub proof fn lemma_requests(ux: Seq<char>, px: Seq<char>, file_id: Seq<char>)
    ensures
        key_info_query(ux, px).method == Method::Get,
        key_info_query(ux, px).url == "https://nitroflare.com/api/v2/getKeyInfo"@,
        key_info_query(ux, px).params.len() == 2,
        key_info_query(ux, px).params[0] == ("user"@, ux),
        key_info_query(ux, px).params[1] == ("premiumKey"@, px),
        link_query(ux, px, file_id).method == Method::Get,
        link_query(ux, px, file_id).url == "https://nitroflare.com/api/v2/getDownloadLink"@,
        link_query(ux, px, file_id).params.len() == 3,
        link_query(ux, px, file_id).params[0] == ("user"@, ux),
        link_query(ux, px, file_id).params[1] == ("premiumKey"@, px),
        link_query(ux, px, file_id).params[2] == ("file"@, file_id),
{
}

/// A whole number that is not negative is an amount of traffic as it stands, up to the largest
/// one that fits. One that is negative is none, nor is anything but a number or a text.
pub proof fn lemma_traffic_numbers(n: u64, i: i64, v: JsonView)
    ensures
        traffic(JsonView::Number(JsonNumber::Unsigned(n))) == n,
        traffic(JsonView::Number(JsonNumber::Negative(i))) == 0,
        v is Null || v is Bool || v is Array || v is Object ==> traffic(v) == 0,
{
}

/// A number with a fraction, or one that is too large, is cut off to a whole number: with `m` and
/// `e` the double is `m * 2^e`.
pub proof fn lemma_traffic_doubles(m: u64, e: int)
    requires
        0x10_0000_0000_0000 <= m < 0x20_0000_0000_0000,
        -1074 <= e <= 971,
    ensures
        ({
            let bits = ((e + 1074) * 0x10_0000_0000_0000 + m) as u64;
            let r = traffic(JsonView::Number(JsonNumber::Double(bits)));
            &&& e >= 0 ==> r == if m * pow2(e as nat) <= u64::MAX {
                m * pow2(e as nat)
            } else {
                u64::MAX as int
            }
            &&& e < 0 ==> r * pow2((-e) as nat) <= m < (r + 1) * pow2((-e) as nat)
            &&& traffic(
                JsonView::Number(JsonNumber::Double((bits + 0x8000_0000_0000_0000) as u64)),
            ) == 0
        }),
{
    binary64::lemma_pattern(m, e);
}

/// Zero and the doubles next to it are no traffic, nor is what is negative or no number; infinity
/// is the largest amount.
pub proof fn lemma_traffic_special(bits: u64)
    ensures
        bits < 0x10_0000_0000_0000 || bits > 0x7ff0_0000_0000_0000 ==> traffic(
            JsonView::Number(JsonNumber::Double(bits)),
        ) == 0,
        bits == 0x7ff0_0000_0000_0000 ==> traffic(JsonView::Number(JsonNumber::Double(bits)))
            == 0xffff_ffff_ffff_ffffu64,
{
    binary64::lemma_special_patterns(bits);
}

/// A text that spells a whole number, zeros and a plus sign in front of it allowed, is that
/// amount of traffic.
pub proof fn lemma_traffic_text(n: u64, zeros: nat)
    ensures
        traffic(JsonView::Text(decimal::decimal(n as nat))) == n,
        traffic(JsonView::Text(decimal::zeros(zeros) + decimal::decimal(n as nat))) == n,
        traffic(
            JsonView::Text(seq!['+'] + decimal::zeros(zeros) + decimal::decimal(n as nat)),
        ) == n,
{
    decimal::lemma_u64_spelled(n, zeros);
    decimal::lemma_u64_read_back(n);
}

/// A text that spells no number, or one that does not fit, is no traffic: any amount but zero
/// comes from a text that spells it.
pub proof fn lemma_traffic_from_text(s: Seq<char>)
    requires
        traffic(JsonView::Text(s)) > 0,
    ensures
        exists|zeros: nat|
            #![trigger decimal::zeros(zeros)]
            {
                let t = decimal::zeros(zeros) + decimal::decimal(
                    traffic(JsonView::Text(s)) as nat,
                );
                s == t || s == seq!['+'] + t
            },
{
    decimal::lemma_u64_spells(s);
}

/// The amounts are those under their two keys in the result, and zero where there is none.
pub proof fn lemma_key_info(reply: JsonView)
    ensures
        reply.get("result"@) matches Some(result) ==> {
            &&& result.get("trafficLeft"@) matches Some(v) ==> key_info_of(reply).0 == traffic(v)
            &&& result.get("trafficMax"@) matches Some(v) ==> key_info_of(reply).1 == traffic(v)
            &&& result.get("trafficLeft"@) is None ==> key_info_of(reply).0 == 0
            &&& result.get("trafficMax"@) is None ==> key_info_of(reply).1 == 0
        },
        reply.get("result"@) is None ==> key_info_of(reply) == (0u64, 0u64),
{
}

/// The reply that tells `left` of `max` bytes is read as these.
pub proof fn lemma_key_info_read(left: u64, max: u64)
    ensures
        key_info_of(
            JsonView::Object(
                seq![
                    (
                        "result"@,
                        JsonView::Object(
                            seq![
                                (
                                    "trafficLeft"@,
                                    JsonView::Number(JsonNumber::Unsigned(left)),
                                ),
                                ("trafficMax"@, JsonView::Number(JsonNumber::Unsigned(max))),
                            ],
                        ),
                    ),
                ],
            ),
        ) == (left, max),
{
    reveal_strlit("trafficLeft");
    reveal_strlit("trafficMax");
    let inner = seq![
        ("trafficLeft"@, JsonView::Number(JsonNumber::Unsigned(left))),
        ("trafficMax"@, JsonView::Number(JsonNumber::Unsigned(max))),
    ];
    let outer = seq![("result"@, JsonView::Object(inner))];
    assert("trafficLeft"@.len() != "trafficMax"@.len());
    json::lemma_lookup(outer, "result"@, 0);
    json::lemma_lookup(inner, "trafficLeft"@, 0);
    json::lemma_lookup(inner, "trafficMax"@, 1);
}

/// The link is the whole text under `url` in the result, unless that is empty.
pub proof fn lemma_link_whole(reply: JsonView, result: JsonView, url: Seq<char>)
    requires
        reply.get("result"@) == Some(result),
        result.get("url"@) == Some(JsonView::Text(url)),
        url.len() > 0,
    ensures
        link_outcome_of(reply) == LinkOutcome::Url(url),
{
}

/// A reply without such a text is a refusal, with the code and the message that stand in it.
pub proof fn lemma_refused(reply: JsonView)
    requires
        reply.get("result"@) matches Some(result) ==> (result.get("url"@) matches Some(
            JsonView::Text(url),
        ) ==> url.len() == 0),
    ensures
        link_outcome_of(reply) matches LinkOutcome::Refused(refusal) && {
            &&& reply.get("code"@) matches Some(JsonView::Number(JsonNumber::Unsigned(n))) ==> {
                &&& n < 0x8000_0000_0000_0000 ==> refusal.code == n
                &&& n >= 0x8000_0000_0000_0000 ==> refusal.code == 0
            }
            &&& reply.get("code"@) matches Some(JsonView::Number(JsonNumber::Negative(i)))
                ==> refusal.code == i
            &&& !(reply.get("code"@) matches Some(JsonView::Number(JsonNumber::Unsigned(_))))
                && !(reply.get("code"@) matches Some(JsonView::Number(JsonNumber::Negative(_))))
                ==> refusal.code == 0
            &&& refusal.code == 9 <==> refusal.kind == RefusalKind::BandwidthLimit
            &&& refusal.code == 12 <==> refusal.kind == RefusalKind::RateLimited
            &&& reply.get("message"@) matches Some(JsonView::Text(message)) ==> refusal.message
                == message
            &&& !(reply.get("message"@) matches Some(JsonView::Text(_))) ==> refusal.message
                == "unknown"@
        },
{
}

/// A reply of success is read, any other and a failure are followed by a wait of half a second
/// per attempt, and after the wait of the third attempt the request is given up.
pub proof fn lemma_link_attempt(attempt: u32, status: u16, millis: u64)
    ensures
        200 <= status <= 299 ==> link_next(
            LinkFetch::Send { attempt },
            LinkEvent::Status(status),
        ) == (LinkFetch::<Seq<char>>::Read { attempt }),
        status < 200 || status > 299 ==> link_next(
            LinkFetch::Send { attempt },
            LinkEvent::Status(status),
        ) == (LinkFetch::<Seq<char>>::Wait { attempt, millis: (attempt * 500) as u64 }),
        link_next(LinkFetch::Send { attempt }, LinkEvent::SendFailed) == (LinkFetch::<
            Seq<char>,
        >::Wait { attempt, millis: (attempt * 500) as u64 }),
        attempt < 3 ==> link_next(LinkFetch::Wait { attempt, millis }, LinkEvent::Waited) == (
        LinkFetch::<Seq<char>>::Send { attempt: (attempt + 1) as u32 }),
        attempt >= 3 ==> link_next(LinkFetch::Wait { attempt, millis }, LinkEvent::Waited)
            == LinkFetch::<Seq<char>>::Done(LinkOutcome::GaveUp),
{
}

/// A reply that is JSON ends the request with what it says, on whichever attempt it came; one
/// that is not, or that cannot be read, breaks it off.
pub proof fn lemma_link_read(attempt: u32, body: Vec<u8>)
    ensures
        json::parsed(body@) matches Some(reply) ==> link_next(
            LinkFetch::Read { attempt },
            LinkEvent::Body(body),
        ) == LinkFetch::Done(link_outcome_of(reply)),
        json::parsed(body@) is None ==> link_next(
            LinkFetch::Read { attempt },
            LinkEvent::Body(body),
        ) == LinkFetch::<Seq<char>>::Done(LinkOutcome::Broken),
        link_next(LinkFetch::Read { attempt }, LinkEvent::BodyFailed) == LinkFetch::<
            Seq<char>,
        >::Done(LinkOutcome::Broken),
{
}

/// The first reply of success that holds a link gives that link, be it the first, the second or
/// the third reply.
pub proof fn lemma_link_given(
    events: Seq<LinkEvent>,
    status: u16,
    body: Vec<u8>,
    reply: JsonView,
    result: JsonView,
    url: Seq<char>,
)
    requires
        link_run(events) is Send,
        200 <= status <= 299,
        json::parsed(body@) == Some(reply),
        reply.get("result"@) == Some(result),
        result.get("url"@) == Some(JsonView::Text(url)),
        url.len() > 0,
    ensures
        link_run(events.push(LinkEvent::Status(status)).push(LinkEvent::Body(body)))
            == LinkFetch::Done(LinkOutcome::Url(url)),
{
    let sent = events.push(LinkEvent::Status(status));
    assert(sent.drop_last() =~= events);
    assert(link_run(sent) is Read);
    assert(sent.push(LinkEvent::Body(body)).drop_last() =~= sent);
}

/// What is not waited for changes nothing, and once the request has ended nothing does.
pub proof fn lemma_link_unmoved(
    attempt: u32,
    millis: u64,
    outcome: LinkOutcome<Seq<char>>,
    event: LinkEvent,
)
    ensures
        !(event is Status) && !(event is SendFailed) ==> link_next(
            LinkFetch::Send { attempt },
            event,
        ) == (LinkFetch::<Seq<char>>::Send { attempt }),
        !(event is Body) && !(event is BodyFailed) ==> link_next(
            LinkFetch::Read { attempt },
            event,
        ) == (LinkFetch::<Seq<char>>::Read { attempt }),
        !(event is Waited) ==> link_next(LinkFetch::Wait { attempt, millis }, event) == (
        LinkFetch::<Seq<char>>::Wait { attempt, millis }),
        link_next(LinkFetch::Done(outcome), event) == LinkFetch::Done(outcome),
{
}

/// The end of the request holds what it is made of.
pub proof fn lemma_outcome_holds(outcome: LinkOutcome<String>)
    ensures
        match outcome {
            LinkOutcome::Url(url) => outcome@ == LinkOutcome::Url(url@),
            LinkOutcome::Refused(r) => {
                &&& outcome@ matches LinkOutcome::Refused(v)
                &&& v.kind == r.kind
                &&& v.code == r.code
                &&& v.message == r.message@
            },
            LinkOutcome::GaveUp => outcome@ is GaveUp,
            LinkOutcome::Broken => outcome@ is Broken,
        },
{
}

/// The state of the request holds what it is made of.
pub proof fn lemma_state_holds(state: LinkFetch<String>)
    ensures
        match state {
            LinkFetch::Send { attempt: a } => {
                &&& state@ matches LinkFetch::Send { attempt }
                &&& attempt == a
            },
            LinkFetch::Read { attempt: a } => {
                &&& state@ matches LinkFetch::Read { attempt }
                &&& attempt == a
            },
            LinkFetch::Wait { attempt: a, millis: m } => {
                &&& state@ matches LinkFetch::Wait { attempt, millis }
                &&& attempt == a
                &&& millis == m
            },
            LinkFetch::Done(outcome) => state@ == LinkFetch::Done(outcome@),
        },
{
}

} // verus!
