//! The download of one file by `aria2c`, with checks before it and retries.
use crate::plan::{DownloadItem, ItemView};
use crate::text;
use crate::tor::TorManager;
use vstd::prelude::*;
use vstd::string::*;

verus! {

/// What a list of strings holds.
pub open spec fn texts(list: Seq<String>) -> Seq<Seq<char>> {
    list.map_values(|s: String| s@)
}

/// The name under which the file `filename` is stored: without spaces.
pub open spec fn stored_name(filename: Seq<char>) -> Seq<char> {
    text::replace(filename, ' ', '_')
}

/// The options that send `aria2c` through the proxies `route`.
pub open spec fn proxy_options(route: Seq<Seq<char>>) -> Seq<Seq<char>> {
    route.map_values(|address: Seq<char>| "--all-proxy="@ + address)
}

/// The arguments of `aria2c` for the download of `item` through the proxies `route`.
pub open spec fn arguments(item: ItemView, route: Seq<Seq<char>>) -> Seq<Seq<char>> {
    seq![
        "--dir"@,
        item.dir,
        "--out"@,
        stored_name(item.filename),
        "--max-connection-per-server=16"@,
        "--max-concurrent-downloads=16"@,
        "--split=20"@,
        "--continue=true"@,
        "--auto-file-renaming=true"@,
        "--allow-overwrite=true"@,
        "--summary-interval=0"@,
        "--quiet"@,
    ] + proxy_options(route) + seq![item.nf_down]
}

/// Appends a copy of `s` to `list`.
fn push_text(list: &mut Vec<String>, s: &str)
    ensures
        texts(final(list)@) == texts(old(list)@).push(s@),
{
    list.push(s.to_owned());
    assert(texts(list@) =~= texts(old(list)@).push(s@));
}

impl DownloadItem {
    /// The name under which the file is stored in its directory.
    pub fn out_name(&self) -> (r: String)
        ensures
            r@ == stored_name(self@.filename),
    {
        text::replaced(self.filename.as_str(), ' ', '_')
    }

    /// The arguments of `aria2c` for the download of this item behind `tunnel`.
    pub fn aria2c_args(&self, tunnel: &TorManager) -> (r: Vec<String>)
        ensures
            texts(r@) == arguments(self@, tunnel.route()),
    {
        let mut r: Vec<String> = Vec::new();
        push_text(&mut r, "--dir");
        push_text(&mut r, self.dir.as_str());
        push_text(&mut r, "--out");
        push_text(&mut r, self.out_name().as_str());
        push_text(&mut r, "--max-connection-per-server=16");
        push_text(&mut r, "--max-concurrent-downloads=16");
        push_text(&mut r, "--split=20");
        push_text(&mut r, "--continue=true");
        push_text(&mut r, "--auto-file-renaming=true");
        push_text(&mut r, "--allow-overwrite=true");
        push_text(&mut r, "--summary-interval=0");
        push_text(&mut r, "--quiet");
        if tunnel.active {
            let mut option = "--all-proxy=".to_owned();
            option.append(tunnel.proxy_str.as_str());
            push_text(&mut r, option.as_str());
        }
        push_text(&mut r, self.nf_down.as_str());
        assert(texts(r@) =~= arguments(self@, tunnel.route()));
        r
    }
}

/// A file of more bytes than this is taken as downloaded, one of fewer as an error page.
pub const STUB_BYTES: u64 = 1024;

/// Largest number of downloads that run at the same time.
pub const MAX_CONCURRENCY: usize = 4;

/// How often `aria2c` is run for a file at most.
pub const RUNS: u32 = 3;

/// Seconds before `aria2c` is run again.
pub const RETRY_SECS: u64 = 3;

/// How a download ends.
#[derive(Clone, Copy, Debug, PartialEq, Eq, Structural)]
pub enum DownloadOutcome {
    /// The file was there before.
    AlreadyThere,
    Downloaded,
    /// Too little of the daily traffic is left.
    LowBandwidth,
    /// Every attempt failed.
    Failed,
    /// The directory could not be made; nothing else was done.
    NoDirectory,
    /// `aria2c` could not be started; it was not tried again.
    NotStarted,
}

impl DownloadOutcome {
    /// Whether the file is there in the end.
    pub open spec fn is_success(self) -> bool {
        self == DownloadOutcome::AlreadyThere || self == DownloadOutcome::Downloaded
    }

    /// Whether the file is there in the end.
    pub fn succeeded(self) -> (r: bool)
        ensures
            r == self.is_success(),
    {
        match self {
            DownloadOutcome::AlreadyThere => true,
            DownloadOutcome::Downloaded => true,
            _ => false,
        }
    }

    /// Whether this machine kept the download from being carried out.
    pub open spec fn is_error(self) -> bool {
        self == DownloadOutcome::NoDirectory || self == DownloadOutcome::NotStarted
    }

    /// Whether the file is there in the end, or the outcome itself if this machine kept the
    /// download from being carried out.
    pub fn result(self) -> (r: Result<bool, DownloadOutcome>)
        ensures
            r == if self.is_error() {
                Err::<bool, DownloadOutcome>(self)
            } else {
                Ok(self.is_success())
            },
    {
        match self {
            DownloadOutcome::NoDirectory => Err(self),
            DownloadOutcome::NotStarted => Err(self),
            _ => Ok(self.succeeded()),
        }
    }
}

/// What has to be done next for a download.
#[derive(Clone, Copy, Debug, PartialEq, Eq, Structural)]
pub enum Download {
    /// Create the directory.
    MakeDir,
    /// Look up the length of the file that may be there already.
    CheckExisting,
    /// Ask what is left of the daily traffic.
    CheckBandwidth,
    /// Run `aria2c`, for the `attempt`th time.
    Run { attempt: u32 },
    /// Look up the length of what it has written.
    Inspect { attempt: u32 },
    /// Delete what is there and wait for [`RETRY_SECS`], before the `attempt`th time.
    Retry { attempt: u32 },
    /// Delete the error page that the last run has written.
    Discard,
    Done(DownloadOutcome),
}

/// What came of it.
#[derive(Clone, Copy, Debug, PartialEq, Eq)]
pub enum DownloadEvent {
    DirMade,
    /// The directory could not be made.
    DirFailed,
    /// The length of the file, if there is one.
    Length(Option<u64>),
    /// What is left of the daily traffic and the whole of it, if the host told.
    KeyInfo(Option<(u64, u64)>),
    /// `aria2c` has ended, with success or without.
    Exited(bool),
    /// `aria2c` could not be started.
    StartFailed,
    /// The file is deleted and the wait is over.
    Waited,
    /// The file is deleted.
    Deleted,
}

/// Whether less than a tenth of the daily traffic is left.
pub open spec fn is_low(left: u64, max: u64) -> bool {
    max > 0 && left < max / 10
}

/// What follows when the `attempt`th run has failed.
pub open spec fn after_failure(attempt: u32) -> Download {
    if attempt < RUNS {
        Download::Retry { attempt: (attempt + 1) as u32 }
    } else {
        Download::Done(DownloadOutcome::Failed)
    }
}

/// What follows when the `attempt`th run has left an error page in place of the file.
pub open spec fn after_stub(attempt: u32) -> Download {
    if attempt < RUNS {
        Download::Retry { attempt: (attempt + 1) as u32 }
    } else {
        Download::Discard
    }
}

/// What has to be done after `event`. An event that is not waited for changes nothing.
pub open spec fn download_next(now: Download, event: DownloadEvent) -> Download {
    match (now, event) {
        (Download::MakeDir, DownloadEvent::DirMade) => Download::CheckExisting,
        (Download::MakeDir, DownloadEvent::DirFailed) => Download::Done(
            DownloadOutcome::NoDirectory,
        ),
        (Download::CheckExisting, DownloadEvent::Length(length)) => match length {
            Some(n) if n > STUB_BYTES => Download::Done(DownloadOutcome::AlreadyThere),
            _ => Download::CheckBandwidth,
        },
        (Download::CheckBandwidth, DownloadEvent::KeyInfo(info)) => match info {
            Some((left, max)) if is_low(left, max) => Download::Done(
                DownloadOutcome::LowBandwidth,
            ),
            _ => Download::Run { attempt: 1 },
        },
        (Download::Run { attempt }, DownloadEvent::Exited(success)) => if success {
            Download::Inspect { attempt }
        } else {
            after_failure(attempt)
        },
        (Download::Run { attempt }, DownloadEvent::StartFailed) => Download::Done(
            DownloadOutcome::NotStarted,
        ),
        (Download::Inspect { attempt }, DownloadEvent::Length(length)) => match length {
            Some(n) if n >= STUB_BYTES => Download::Done(DownloadOutcome::Downloaded),
            Some(n) => after_stub(attempt),
            None => after_failure(attempt),
        },
        (Download::Retry { attempt }, DownloadEvent::Waited) => Download::Run { attempt },
        (Download::Discard, DownloadEvent::Deleted) => Download::Done(DownloadOutcome::Failed),
        _ => now,
    }
}

impl Download {
    /// The first thing to do.
    pub fn start() -> (r: Download)
        ensures
            r == Download::MakeDir,
    {
        Download::MakeDir
    }

    /// What follows when the `attempt`th run has failed.
    fn fail(attempt: u32) -> (r: Download)
        ensures
            r == after_failure(attempt),
    {
        if attempt < RUNS {
            Download::Retry { attempt: attempt + 1 }
        } else {
            Download::Done(DownloadOutcome::Failed)
        }
    }

    /// What follows when the `attempt`th run has left an error page in place of the file.
    fn discard(attempt: u32) -> (r: Download)
        ensures
            r == after_stub(attempt),
    {
        if attempt < RUNS {
            Download::Retry { attempt: attempt + 1 }
        } else {
            Download::Discard
        }
    }

    /// What has to be done after `event`.
    pub fn step(self, event: DownloadEvent) -> (r: Download)
        ensures
            r == download_next(self, event),
    {
        match (self, event) {
            (Download::MakeDir, DownloadEvent::DirMade) => Download::CheckExisting,
            (Download::MakeDir, DownloadEvent::DirFailed) => Download::Done(
                DownloadOutcome::NoDirectory,
            ),
            (Download::CheckExisting, DownloadEvent::Length(length)) => match length {
                Some(n) if n > STUB_BYTES => Download::Done(DownloadOutcome::AlreadyThere),
                _ => Download::CheckBandwidth,
            },
            (Download::CheckBandwidth, DownloadEvent::KeyInfo(info)) => match info {
                Some((left, max)) if max > 0 && left < max / 10 => Download::Done(
                    DownloadOutcome::LowBandwidth,
                ),
                _ => Download::Run { attempt: 1 },
            },
            (Download::Run { attempt }, DownloadEvent::Exited(success)) => {
                if success {
                    Download::Inspect { attempt }
                } else {
                    Download::fail(attempt)
                }
            },
            (Download::Run { attempt }, DownloadEvent::StartFailed) => Download::Done(
                DownloadOutcome::NotStarted,
            ),
            (Download::Inspect { attempt }, DownloadEvent::Length(length)) => match length {
                Some(n) if n >= STUB_BYTES => Download::Done(DownloadOutcome::Downloaded),
                Some(_) => Download::discard(attempt),
                None => Download::fail(attempt),
            },
            (Download::Retry { attempt }, DownloadEvent::Waited) => Download::Run { attempt },
            (Download::Discard, DownloadEvent::Deleted) => Download::Done(DownloadOutcome::Failed),
            (now, _) => now,
        }
    }
}

/// The state of a download after `events`.
pub open spec fn download_run(events: Seq<DownloadEvent>) -> Download
    decreases events.len(),
{
    if events.len() == 0 {
        Download::MakeDir
    } else {
        download_next(download_run(events.drop_last()), events.last())
    }
}

/// How often `aria2c` has ended in the course of `events`.
pub open spec fn runs(events: Seq<DownloadEvent>) -> nat
    decreases events.len(),
{
    if events.len() == 0 {
        0
    } else {
        let before = runs(events.drop_last());
        match (download_run(events.drop_last()), events.last()) {
            (Download::Run { attempt }, DownloadEvent::Exited(success)) => before + 1,
            _ => before,
        }
    }
}

/// Whatever happens, `aria2c` is run at most [`RUNS`] times for a file, and the attempts are
/// counted right.
pub proof fn lemma_runs(events: Seq<DownloadEvent>)
    ensures
        runs(events) <= RUNS,
        match download_run(events) {
            Download::Run { attempt } | Download::Retry { attempt } => 1 <= attempt <= RUNS
                && runs(events) == attempt - 1,
            Download::Inspect { attempt } => 1 <= attempt <= RUNS && runs(events) == attempt,
            Download::Discard => runs(events) == RUNS,
            Download::Done(outcome) => match outcome {
                DownloadOutcome::AlreadyThere
                | DownloadOutcome::LowBandwidth
                | DownloadOutcome::NoDirectory => runs(events) == 0,
                DownloadOutcome::Downloaded => runs(events) >= 1,
                DownloadOutcome::Failed => runs(events) == RUNS,
                DownloadOutcome::NotStarted => runs(events) < RUNS,
            },
            _ => runs(events) == 0,
        },
    decreases events.len(),
{
    if events.len() > 0 {
        lemma_runs(events.drop_last());
    }
}

/// Whether `now` waits for an event such as `event`.
pub open spec fn awaits(now: Download, event: DownloadEvent) -> bool {
    match (now, event) {
        (Download::MakeDir, DownloadEvent::DirMade) => true,
        (Download::MakeDir, DownloadEvent::DirFailed) => true,
        (Download::CheckExisting, DownloadEvent::Length(length)) => true,
        (Download::CheckBandwidth, DownloadEvent::KeyInfo(info)) => true,
        (Download::Run { attempt }, DownloadEvent::Exited(success)) => true,
        (Download::Run { attempt }, DownloadEvent::StartFailed) => true,
        (Download::Inspect { attempt }, DownloadEvent::Length(length)) => true,
        (Download::Retry { attempt }, DownloadEvent::Waited) => true,
        (Download::Discard, DownloadEvent::Deleted) => true,
        _ => false,
    }
}

/// How many events a download can still take.
pub open spec fn remaining(now: Download) -> int {
    match now {
        Download::MakeDir => 3 * RUNS + 3,
        Download::CheckExisting => 3 * RUNS + 2,
        Download::CheckBandwidth => 3 * RUNS + 1,
        Download::Run { attempt } => 3 * (RUNS - attempt) + 3,
        Download::Inspect { attempt } => 3 * (RUNS - attempt) + 2,
        Download::Retry { attempt } => 3 * (RUNS - attempt) + 4,
        Download::Discard => 1,
        Download::Done(outcome) => 0,
    }
}

/// Every event that is waited for brings a download nearer to its end, which it has reached
/// once there is nothing left to wait for.
pub proof fn lemma_download_ends(events: Seq<DownloadEvent>, event: DownloadEvent)
    ensures
        remaining(download_run(events)) >= 0,
        awaits(download_run(events), event) ==> remaining(download_next(download_run(events), event))
            < remaining(download_run(events)),
        remaining(download_run(events)) == 0 <==> download_run(events) is Done,
{
    lemma_runs(events);
    lemma_runs(events.push(event));
    assert(events.push(event).drop_last() =~= events);
}

/// A file that is there with more than [`STUB_BYTES`] bytes is not downloaded again, so a
/// second run over the same folder only takes up what is missing.
pub proof fn lemma_rerun_skips(n: u64)
    requires
        n > STUB_BYTES,
    ensures
        download_run(seq![DownloadEvent::DirMade, DownloadEvent::Length(Some(n))])
            == Download::Done(DownloadOutcome::AlreadyThere),
{
    let events = seq![DownloadEvent::DirMade, DownloadEvent::Length(Some(n))];
    assert(events.drop_last() =~= seq![DownloadEvent::DirMade]);
    assert(events.drop_last().drop_last() =~= seq![]);
    reveal_with_fuel(download_run, 3);
}

/// The length that was looked up last in `events`.
pub open spec fn last_length(events: Seq<DownloadEvent>) -> Option<u64>
    decreases events.len(),
{
    if events.len() == 0 {
        None
    } else {
        match (download_run(events.drop_last()), events.last()) {
            (Download::CheckExisting, DownloadEvent::Length(length)) => length,
            (Download::Inspect { attempt }, DownloadEvent::Length(length)) => length,
            _ => last_length(events.drop_last()),
        }
    }
}

/// A download succeeds only with a file that was found to hold at least [`STUB_BYTES`] bytes.
pub proof fn lemma_success(events: Seq<DownloadEvent>)
    ensures
        download_run(events) matches Download::Done(outcome) ==> outcome.is_success() ==> {
            &&& last_length(events) is Some
            &&& last_length(events)->0 >= STUB_BYTES
        },
    decreases events.len(),
{
    if events.len() > 0 {
        lemma_success(events.drop_last());
    }
}

/// An error page in place of the file is deleted, and the download is tried again as long as
/// there are attempts left.
pub proof fn lemma_stub_retried(attempt: u32, n: u64)
    requires
        n < STUB_BYTES,
    ensures
        ({
            let next = download_next(Download::Inspect { attempt }, DownloadEvent::Length(Some(n)));
            if attempt < RUNS {
                &&& next == (Download::Retry { attempt: (attempt + 1) as u32 })
                &&& download_next(next, DownloadEvent::Waited) == (Download::Run {
                    attempt: (attempt + 1) as u32,
                })
            } else {
                &&& next == Download::Discard
                &&& download_next(next, DownloadEvent::Deleted) == Download::Done(
                    DownloadOutcome::Failed,
                )
            }
        }),
{
}

/// Whether a run has left an error page that is not deleted after `events`.
pub open spec fn stub_left(events: Seq<DownloadEvent>) -> bool
    decreases events.len(),
{
    if events.len() == 0 {
        false
    } else {
        let before = stub_left(events.drop_last());
        match (download_run(events.drop_last()), events.last()) {
            (Download::Inspect { attempt }, DownloadEvent::Length(length)) => match length {
                Some(n) => n < STUB_BYTES,
                None => before,
            },
            (Download::Retry { attempt }, DownloadEvent::Waited) => false,
            (Download::Discard, DownloadEvent::Deleted) => false,
            _ => before,
        }
    }
}

/// An error page that a run has left is deleted before anything else is done, that of the last
/// run as well: a download that has ended leaves none behind.
pub proof fn lemma_stub_deleted(events: Seq<DownloadEvent>)
    ensures
        stub_left(events) ==> download_run(events) is Retry || download_run(events) is Discard,
        download_run(events) is Done ==> !stub_left(events),
    decreases events.len(),
{
    if events.len() > 0 {
        lemma_stub_deleted(events.drop_last());
    }
}

/// Where a download ends without success although its last run has left an error page, the
/// event that ends it is the deletion of that page.
pub proof fn lemma_last_stub_deleted(events: Seq<DownloadEvent>, end: DownloadEvent)
    requires
        stub_left(events),
        download_run(events.push(end)) is Done,
    ensures
        download_run(events) == Download::Discard,
        end == DownloadEvent::Deleted,
        download_run(events.push(end)) == Download::Done(DownloadOutcome::Failed),
{
    lemma_stub_deleted(events);
    assert(events.push(end).drop_last() =~= events);
}

/// A download whose directory cannot be made ends at once: nothing is looked up or run.
pub proof fn lemma_no_directory(events: Seq<DownloadEvent>)
    requires
        events.len() > 0,
        events[0] == DownloadEvent::DirFailed,
    ensures
        download_run(events) == Download::Done(DownloadOutcome::NoDirectory),
        runs(events) == 0,
    decreases events.len(),
{
    if events.len() > 1 {
        lemma_no_directory(events.drop_last());
    } else {
        assert(events.drop_last() =~= seq![]);
    }
    lemma_runs(events);
}

/// Where `aria2c` cannot be started the download ends: it is not tried again.
pub proof fn lemma_not_started(events: Seq<DownloadEvent>)
    requires
        download_run(events) is Run,
    ensures
        download_run(events.push(DownloadEvent::StartFailed)) == Download::Done(
            DownloadOutcome::NotStarted,
        ),
        runs(events.push(DownloadEvent::StartFailed)) == runs(events),
{
    assert(events.push(DownloadEvent::StartFailed).drop_last() =~= events);
}

/// What `aria2c` has written is deleted before it is run again: a run that is not the first
/// comes behind a wait.
pub proof fn lemma_retry_deletes(now: Download, event: DownloadEvent, attempt: u32)
    requires
        attempt > 1,
        download_next(now, event) == (Download::Run { attempt }),
        now != (Download::Run { attempt }),
    ensures
        now == (Download::Retry { attempt }),
        event == DownloadEvent::Waited,
{
}

/// Behind the Tor tunnel all traffic goes through the local Tor proxy, that of every client
/// and that of `aria2c`; without the tunnel none does.
pub proof fn lemma_all_traffic_routed(tunnel: TorManager, item: ItemView)
    requires
        tunnel.is_started(),
    ensures
        tunnel.active ==> tunnel.route() == seq!["socks5h://localhost:9050"@],
        tunnel.active ==> arguments(item, tunnel.route()).contains(
            "--all-proxy="@ + "socks5h://localhost:9050"@,
        ),
        !tunnel.active ==> tunnel.route().len() == 0,
        !tunnel.active ==> arguments(item, tunnel.route()) == arguments(item, seq![]),
{
    if tunnel.active {
        let args = arguments(item, tunnel.route());
        let option = "--all-proxy="@ + "socks5h://localhost:9050"@;
        assert(proxy_options(tunnel.route())[0] == option);
        assert(args[12] == option);
    }
}

/// A run that ends with success and leaves a file of 1024 bytes or more ends the download with
/// success, on whichever attempt and however large the file is.
pub proof fn lemma_good_run(attempt: u32, n: u64)
    requires
        n >= 1024,
    ensures
        download_next(Download::Run { attempt }, DownloadEvent::Exited(true)) == (
        Download::Inspect { attempt }),
        download_next(Download::Inspect { attempt }, DownloadEvent::Length(Some(n)))
            == Download::Done(DownloadOutcome::Downloaded),
{
}

/// Whatever came before, the first good run is the last.
pub proof fn lemma_good_run_ends(events: Seq<DownloadEvent>, n: u64)
    requires
        download_run(events) is Run,
        n >= 1024,
    ensures
        download_run(
            events.push(DownloadEvent::Exited(true)).push(DownloadEvent::Length(Some(n))),
        ) == Download::Done(DownloadOutcome::Downloaded),
{
    let run = events.push(DownloadEvent::Exited(true));
    assert(run.drop_last() =~= events);
    assert(download_run(run) is Inspect);
    assert(run.push(DownloadEvent::Length(Some(n))).drop_last() =~= run);
}

/// A run that fails, or that leaves no file or less than 1024 bytes, is followed by another
/// attempt as long as there were fewer than three; after the third the download has failed, once
/// an error page that it left is deleted.
pub proof fn lemma_bad_run(attempt: u32, n: u64)
    requires
        n < 1024,
    ensures
        attempt < 3 ==> {
            let again = Download::Retry { attempt: (attempt + 1) as u32 };
            &&& download_next(Download::Run { attempt }, DownloadEvent::Exited(false)) == again
            &&& download_next(Download::Inspect { attempt }, DownloadEvent::Length(None)) == again
            &&& download_next(Download::Inspect { attempt }, DownloadEvent::Length(Some(n)))
                == again
        },
        attempt >= 3 ==> {
            let failed = Download::Done(DownloadOutcome::Failed);
            &&& download_next(Download::Run { attempt }, DownloadEvent::Exited(false)) == failed
            &&& download_next(Download::Inspect { attempt }, DownloadEvent::Length(None)) == failed
            &&& download_next(Download::Inspect { attempt }, DownloadEvent::Length(Some(n)))
                == Download::Discard
        },
        download_next(Download::Discard, DownloadEvent::Deleted) == Download::Done(
            DownloadOutcome::Failed,
        ),
        download_next(Download::Retry { attempt }, DownloadEvent::Waited) == (Download::Run {
            attempt,
        }),
{
}

/// Before the first run the directory is made, and the file looked up: one of more than 1024
/// bytes is not downloaded again, one of fewer is, and so is one that is not there.
pub proof fn lemma_before_run(n: u64)
    ensures
        download_next(Download::MakeDir, DownloadEvent::DirMade) == Download::CheckExisting,
        download_next(Download::MakeDir, DownloadEvent::DirFailed) == Download::Done(
            DownloadOutcome::NoDirectory,
        ),
        n > 1024 ==> download_next(Download::CheckExisting, DownloadEvent::Length(Some(n)))
            == Download::Done(DownloadOutcome::AlreadyThere),
        n <= 1024 ==> download_next(Download::CheckExisting, DownloadEvent::Length(Some(n)))
            == Download::CheckBandwidth,
        download_next(Download::CheckExisting, DownloadEvent::Length(None))
            == Download::CheckBandwidth,
{
}

/// A download is left out exactly if less than a tenth of the daily traffic is left, the tenth
/// cut off to whole bytes; otherwise, and where the host does not tell, `aria2c` is run for the
/// first time.
pub proof fn lemma_bandwidth(left: u64, max: u64)
    ensures
        10 * (left + 1) <= max ==> download_next(
            Download::CheckBandwidth,
            DownloadEvent::KeyInfo(Some((left, max))),
        ) == Download::Done(DownloadOutcome::LowBandwidth),
        10 * (left + 1) > max ==> download_next(
            Download::CheckBandwidth,
            DownloadEvent::KeyInfo(Some((left, max))),
        ) == (Download::Run { attempt: 1 }),
        download_next(Download::CheckBandwidth, DownloadEvent::KeyInfo(None)) == (Download::Run {
            attempt: 1,
        }),
{
}

/// A run that cannot be started ends the download.
pub proof fn lemma_start_failed(attempt: u32)
    ensures
        download_next(Download::Run { attempt }, DownloadEvent::StartFailed) == Download::Done(
            DownloadOutcome::NotStarted,
        ),
{
}

/// What is not waited for changes nothing, and once a download has ended nothing does.
pub proof fn lemma_unmoved(now: Download, event: DownloadEvent)
    ensures
        now is Done ==> download_next(now, event) == now,
        now is MakeDir && !(event is DirMade) && !(event is DirFailed) ==> download_next(now, event)
            == now,
        now is CheckExisting && !(event is Length) ==> download_next(now, event) == now,
        now is CheckBandwidth && !(event is KeyInfo) ==> download_next(now, event) == now,
        now is Run && !(event is Exited) && !(event is StartFailed) ==> download_next(now, event)
            == now,
        now is Inspect && !(event is Length) ==> download_next(now, event) == now,
        now is Retry && !(event is Waited) ==> download_next(now, event) == now,
        now is Discard && !(event is Deleted) ==> download_next(now, event) == now,
{
}

/// A download has succeeded if the file was there or was downloaded, and in no other way.
pub proof fn lemma_outcomes(outcome: DownloadOutcome)
    ensures
        outcome.is_success() <==> outcome is AlreadyThere || outcome is Downloaded,
        outcome.is_error() <==> outcome is NoDirectory || outcome is NotStarted,
{
}

/// The name of a stored file is that of the file, with an underscore for each space.
pub proof fn lemma_stored_name(filename: Seq<char>)
    ensures
        stored_name(filename).len() == filename.len(),
        forall|i: int|
            0 <= i < filename.len() ==> (#[trigger] stored_name(filename)[i]) == if filename[i]
                == ' ' {
                '_'
            } else {
                filename[i]
            },
{
}

/// `aria2c` is told the directory, the name and the address of the file, to go on with what is
/// there and to write over it, how many connections to use, and nothing else but the proxy.
pub proof fn lemma_arguments(item: ItemView, address: Seq<char>)
    ensures
        ({
            let args = arguments(item, seq![]);
            &&& args.len() == 13
            &&& args[0] == "--dir"@
            &&& args[1] == item.dir
            &&& args[2] == "--out"@
            &&& args[3] == stored_name(item.filename)
            &&& args[4] == "--max-connection-per-server=16"@
            &&& args[5] == "--max-concurrent-downloads=16"@
            &&& args[6] == "--split=20"@
            &&& args[7] == "--continue=true"@
            &&& args[8] == "--auto-file-renaming=true"@
            &&& args[9] == "--allow-overwrite=true"@
            &&& args[10] == "--summary-interval=0"@
            &&& args[11] == "--quiet"@
            &&& args[12] == item.nf_down
        }),
        ({
            let args = arguments(item, seq![address]);
            &&& args.len() == 14
            &&& forall|i: int|
                0 <= i < 12 ==> #[trigger] args[i] == arguments(item, seq![])[i]
            &&& args[12] == "--all-proxy="@ + address
            &&& args[13] == item.nf_down
        }),
{
    assert(proxy_options(seq![]).len() == 0);
    let options = proxy_options(seq![address]);
    assert(options.len() == 1 && options[0] == "--all-proxy="@ + address);
}

/// The arguments hold the strings that they are made of.
pub proof fn lemma_texts(list: Seq<String>)
    ensures
        texts(list).len() == list.len(),
        forall|i: int| 0 <= i < list.len() ==> #[trigger] texts(list)[i] == list[i]@,
{
}

/// Four downloads run at the same time at most, each up to three times, three seconds apart, and
/// less than 1024 bytes are an error page.
pub proof fn lemma_limits()
    ensures
        MAX_CONCURRENCY == 4,
        RUNS == 3,
        RETRY_SECS == 3,
        STUB_BYTES == 1024,
{
}

} // verus!
