//! Shared folders: their addresses, and the files in them, page by page.
use crate::decimal;
use crate::json;
use crate::json::{Json, JsonNumber, JsonView, NotJson};
use crate::request::{Method, Request, RequestView};
use crate::size;
use crate::text;
use vstd::prelude::*;
use vstd::slice::*;
use vstd::string::*;

verus! {

/// The part of `s` behind its last slash, the whole of it if there is none.
pub open spec fn last_part(s: Seq<char>) -> Seq<char> {
    s.skip(text::rfind(s, '/') + 1)
}

/// The user and the folder that the address `url` names: its last two parts, slashes at its
/// end left away.
pub open spec fn folder_ids(url: Seq<char>) -> Option<(Seq<char>, Seq<char>)> {
    let t = text::strip_end(url, '/');
    let k = text::rfind(t, '/');
    if k >= 0 {
        Some((last_part(t.take(k)), last_part(t)))
    } else {
        None
    }
}

/// The user and the folder of the address `https://nitroflare.com/folder/{user}/{folder}`.
pub fn parse_folder_url(folder_url: &str) -> (r: Option<(String, String)>)
    ensures
        r is Some <==> folder_ids(folder_url@) is Some,
        r matches Some(ids) ==> folder_ids(folder_url@) == Some((ids.0@, ids.1@)),
{
    let chars = text::chars_of(folder_url);
    let t = text::stripped(chars.as_slice(), '/');
    match text::last_position(t, '/') {
        None => None,
        Some(k) => {
            let n = t.len();
            let folder = slice_subrange(t, k + 1, n);
            let front = slice_subrange(t, 0, k);
            let user = match text::last_position(front, '/') {
                None => front,
                Some(j) => slice_subrange(front, j + 1, front.len()),
            };
            proof {
                assert(front@ =~= t@.take(k as int));
                assert(folder@ =~= last_part(t@));
                assert(user@ =~= last_part(front@));
            }
            Some((text::text_of(user), text::text_of(folder)))
        },
    }
}

/// The parts of an address that is put together as the host does it are found again, with
/// any number of slashes behind them.
pub proof fn lemma_folder_ids(base: Seq<char>, user: Seq<char>, folder: Seq<char>, slashes: nat)
    requires
        !user.contains('/'),
        !folder.contains('/'),
        folder.len() > 0,
    ensures
        folder_ids(
            base + seq!['/'] + user + seq!['/'] + folder + Seq::new(slashes, |i: int| '/'),
        ) == Some((user, folder)),
{
    let front = base + seq!['/'] + user;
    let t = front + seq!['/'] + folder;
    assert(t.last() == folder.last());
    assert(folder.contains(folder.last()));
    text::lemma_strip_end(t, '/', slashes);
    let k = front.len() as int;
    assert forall|i: int| k < i < t.len() implies t[i] != '/' by {
        assert(t[i] == folder[i - k - 1]);
        assert(folder.contains(folder[i - k - 1]));
    }
    text::lemma_rfind_is(t, '/', k);
    assert(t.take(k) =~= front);
    let j = base.len() as int;
    assert forall|i: int| j < i < front.len() implies front[i] != '/' by {
        assert(front[i] == user[i - j - 1]);
        assert(user.contains(user[i - j - 1]));
    }
    text::lemma_rfind_is(front, '/', j);
    assert(last_part(front) =~= user);
    assert(last_part(t) =~= folder);
}

/// A file of a folder.
#[derive(Debug)]
pub struct FileEntry {
    pub file_id: String,
    pub name: String,
    pub size_bytes: u64,
}

/// What a file entry holds.
pub ghost struct FileEntryView {
    pub file_id: Seq<char>,
    pub name: Seq<char>,
    pub size_bytes: u64,
}

impl View for FileEntry {
    type V = FileEntryView;

    open spec fn view(&self) -> FileEntryView {
        FileEntryView { file_id: self.file_id@, name: self.name@, size_bytes: self.size_bytes }
    }
}

/// What a list of file entries holds.
pub open spec fn entries_view(entries: Seq<FileEntry>) -> Seq<FileEntryView> {
    entries.map_values(|e: FileEntry| e@)
}

/// The part of `url` between its first slash and its second, or its end.
pub open spec fn second_part(url: Seq<char>) -> Option<Seq<char>> {
    let p = text::find(url, '/') as int;
    if p < url.len() {
        let rest = url.skip(p + 1);
        Some(rest.take(text::find(rest, '/') as int))
    } else {
        None
    }
}

/// The entry that `file` describes: its address has to name a file, and it needs a name.
pub open spec fn entry_of(file: JsonView) -> Option<FileEntryView> {
    let name = file.text_at("name"@, ""@);
    match second_part(file.text_at("url"@, ""@)) {
        Some(file_id) => if file_id.len() > 0 && name.len() > 0 {
            Some(
                FileEntryView {
                    file_id,
                    name,
                    size_bytes: size::size_bytes(file.text_at("size"@, ""@)),
                },
            )
        } else {
            None
        },
        None => None,
    }
}

/// The entries that `files` describe, in order.
pub open spec fn entries_of(files: Seq<JsonView>) -> Seq<FileEntryView>
    decreases files.len(),
{
    if files.len() == 0 {
        seq![]
    } else {
        match entry_of(files.last()) {
            Some(entry) => entries_of(files.drop_last()).push(entry),
            None => entries_of(files.drop_last()),
        }
    }
}

/// The entries on the page `reply`.
pub open spec fn page_entries(reply: JsonView) -> Seq<FileEntryView> {
    match reply.get("files"@) {
        Some(JsonView::Array(files)) => entries_of(files),
        _ => seq![],
    }
}

/// How many files the folder has, by the page `reply`.
pub open spec fn page_total(reply: JsonView) -> u64 {
    match reply.get("total"@) {
        Some(v) => match v.as_u64() {
            Some(total) => total,
            None => 0,
        },
        None => 0,
    }
}

/// How many entries a page holds.
pub const PER_PAGE: u64 = 100;

/// How many pages `total` entries fill.
pub open spec fn pages(total: u64) -> int {
    (total + PER_PAGE - 1) / PER_PAGE as int
}

/// Reads the entry that `file` describes.
pub fn read_entry(file: &Json) -> (r: Option<FileEntry>)
    ensures
        r is Some <==> entry_of(file@) is Some,
        r matches Some(entry) ==> entry_of(file@) == Some(entry@),
{
    let url = file.text_at("url", "");
    let name = file.text_at("name", "");
    let bytes = file.text_at("size", "");
    let chars = text::chars_of(url);
    let s = chars.as_slice();
    let p = text::position(s, '/');
    if p == s.len() {
        return None;
    }
    let rest = slice_subrange(s, p + 1, s.len());
    assert(rest@ =~= url@.skip(p + 1));
    let q = text::position(rest, '/');
    let file_id = slice_subrange(rest, 0, q);
    assert(file_id@ =~= rest@.take(q as int));
    if q == 0 || name.is_empty() {
        return None;
    }
    Some(
        FileEntry {
            file_id: text::text_of(file_id),
            name: name.to_owned(),
            size_bytes: size::parse_size_bytes(bytes),
        },
    )
}

/// How many files the folder has, by the page `reply`.
pub fn read_total(reply: &Json) -> (r: u64)
    ensures
        r == page_total(reply@),
{
    match reply.get("total") {
        Some(v) => match v.as_u64() {
            Some(total) => total,
            None => 0,
        },
        None => 0,
    }
}

/// How many pages `total` entries fill.
pub fn page_count(total: u64) -> (r: u64)
    ensures
        r == pages(total),
        r <= u64::MAX / 100 + 1,
{
    if total % PER_PAGE == 0 {
        total / PER_PAGE
    } else {
        total / PER_PAGE + 1
    }
}

/// Appends the entries on the page `reply` to `found`.
fn read_entries(reply: &Json, found: &mut Vec<FileEntry>)
    ensures
        entries_view(final(found)@) == entries_view(old(found)@) + page_entries(reply@),
{
    let ghost before = entries_view(found@);
    match reply.get("files") {
        Some(Json::Array(files)) => {
            let ghost all = reply@.get("files"@)->0->Array_0;
            let mut i: usize = 0;
            assert(before + entries_of(all.take(0)) =~= before);
            while i < files.len()
                invariant
                    i <= files@.len(),
                    all.len() == files@.len(),
                    forall|j: int| 0 <= j < all.len() ==> #[trigger] all[j] == files@[j]@,
                    entries_view(found@) == before + entries_of(all.take(i as int)),
                decreases files@.len() - i,
            {
                let ghost prev = found@;
                let entry = read_entry(&files[i]);
                assert(all.take(i + 1).drop_last() =~= all.take(i as int));
                assert(all.take(i + 1).last() == files@[i as int]@);
                if let Some(entry) = entry {
                    found.push(entry);
                    assert(entries_view(found@) =~= entries_view(prev).push(entry@));
                }
                assert(entries_view(found@) =~= before + entries_of(all.take(i + 1)));
                i += 1;
            }
            assert(all.take(i as int) =~= all);
        },
        _ => {
            assert(before + page_entries(reply@) =~= before);
        },
    }
}

/// What the listing of a folder does next.
#[derive(Clone, Copy, Debug, PartialEq, Eq, Structural)]
pub enum ScanPhase {
    /// Ask for the next page.
    Fetch,
    /// Wait for [`PAUSE_MILLIS`].
    Pause,
    Done,
}

/// Milliseconds between two pages.
pub const PAUSE_MILLIS: u64 = 300;

/// The listing of a folder.
#[derive(Debug)]
pub struct FolderScan {
    pub user_id: String,
    pub folder: String,
    /// The page that is asked for next.
    pub page: u64,
    /// The files on the pages so far.
    pub found: Vec<FileEntry>,
    pub phase: ScanPhase,
}

/// What the listing of a folder holds.
pub ghost struct ScanView {
    pub user_id: Seq<char>,
    pub folder: Seq<char>,
    pub page: u64,
    pub found: Seq<FileEntryView>,
    pub phase: ScanPhase,
}

impl View for FolderScan {
    type V = ScanView;

    open spec fn view(&self) -> ScanView {
        ScanView {
            user_id: self.user_id@,
            folder: self.folder@,
            page: self.page,
            found: entries_view(self.found@),
            phase: self.phase,
        }
    }
}

/// The beginning of the listing of a folder.
pub open spec fn scan_start(user_id: Seq<char>, folder: Seq<char>) -> ScanView {
    ScanView { user_id, folder, page: 1, found: seq![], phase: ScanPhase::Fetch }
}

/// The listing after the page `reply`. A folder without files ends it, and so does the last
/// page. A page that was not asked for changes nothing.
pub open spec fn scan_page(now: ScanView, reply: JsonView) -> ScanView {
    if now.phase != ScanPhase::Fetch {
        now
    } else if page_total(reply) == 0 {
        ScanView { phase: ScanPhase::Done, ..now }
    } else if now.page >= pages(page_total(reply)) {
        ScanView { found: now.found + page_entries(reply), phase: ScanPhase::Done, ..now }
    } else {
        ScanView {
            page: (now.page + 1) as u64,
            found: now.found + page_entries(reply),
            phase: ScanPhase::Pause,
            ..now
        }
    }
}

/// The listing once the pause is over.
pub open spec fn scan_paused(now: ScanView) -> ScanView {
    if now.phase == ScanPhase::Pause {
        ScanView { phase: ScanPhase::Fetch, ..now }
    } else {
        now
    }
}

/// The request for the next page.
pub open spec fn page_query(now: ScanView) -> RequestView {
    RequestView {
        method: Method::Post,
        url: "https://nitroflare.com/ajax/folder.php"@,
        params: seq![
            ("userId"@, now.user_id),
            ("folder"@, now.folder),
            ("page"@, decimal::decimal(now.page as nat)),
            ("perPage"@, decimal::decimal(PER_PAGE as nat)),
        ],
    }
}

/// What a page says of the folder as a whole.
#[derive(Debug)]
pub struct PageInfo {
    pub name: String,
    pub total: u64,
    pub pages: u64,
}

impl PageInfo {
    /// Whether this is what the page `reply` says.
    pub open spec fn tells(self, reply: JsonView) -> bool {
        &&& self.name@ == reply.text_at("name"@, "?"@)
        &&& self.total == page_total(reply)
        &&& self.pages == pages(page_total(reply))
    }
}

impl FolderScan {
    /// The beginning of the listing of the folder at `folder_url`; what is wrong with it, if
    /// it does not name a folder.
    pub fn start(folder_url: &str) -> (r: Result<FolderScan, String>)
        ensures
            match folder_ids(folder_url@) {
                Some((user_id, folder)) => r is Ok && r->Ok_0@ == scan_start(user_id, folder),
                None => r is Err && r->Err_0@ == "Cannot parse folder URL: "@ + folder_url@,
            },
    {
        match parse_folder_url(folder_url) {
            Some((user_id, folder)) => {
                let r = FolderScan {
                    user_id,
                    folder,
                    page: 1,
                    found: Vec::new(),
                    phase: ScanPhase::Fetch,
                };
                assert(r@.found =~= seq![]);
                Ok(r)
            },
            None => {
                let mut message = "Cannot parse folder URL: ".to_owned();
                message.append(folder_url);
                Err(message)
            },
        }
    }

    /// The request for the next page.
    pub fn request(&self) -> (r: Request)
        ensures
            r@ == page_query(self@),
    {
        let mut page = String::new();
        decimal::push_decimal(&mut page, self.page as u128);
        let mut per_page = String::new();
        decimal::push_decimal(&mut per_page, PER_PAGE as u128);
        assert(page@ =~= decimal::decimal(self.page as nat));
        assert(per_page@ =~= decimal::decimal(PER_PAGE as nat));
        let r = Request::new(Method::Post, "https://nitroflare.com/ajax/folder.php").with(
            "userId",
            self.user_id.as_str(),
        ).with("folder", self.folder.as_str()).with("page", page.as_str()).with(
            "perPage",
            per_page.as_str(),
        );
        assert(r@.params =~= page_query(self@).params);
        r
    }

    /// Takes the page `reply`.
    pub fn take_page(&mut self, reply: &Json) -> (info: PageInfo)
        ensures
            final(self)@ == scan_page(old(self)@, reply@),
            info.tells(reply@),
    {
        let total = read_total(reply);
        let count = page_count(total);
        match self.phase {
            ScanPhase::Fetch => {
                if total == 0 {
                    self.phase = ScanPhase::Done;
                } else {
                    read_entries(reply, &mut self.found);
                    if self.page >= count {
                        self.phase = ScanPhase::Done;
                    } else {
                        self.page = self.page + 1;
                        self.phase = ScanPhase::Pause;
                    }
                }
            },
            _ => {},
        }
        PageInfo { name: reply.text_at("name", "?").to_owned(), total, pages: count }
    }

    /// Takes the page with the body `body`; one that is not JSON changes nothing.
    pub fn take_body(&mut self, body: &[u8]) -> (r: Result<PageInfo, NotJson>)
        ensures
            match json::parsed(body@) {
                Some(reply) => {
                    &&& r is Ok
                    &&& r->Ok_0.tells(reply)
                    &&& final(self)@ == scan_page(old(self)@, reply)
                },
                None => r is Err && final(self)@ == old(self)@,
            },
    {
        match json::parse_json(body) {
            Ok(reply) => Ok(self.take_page(&reply)),
            Err(e) => Err(e),
        }
    }

    /// Goes on once the pause is over.
    pub fn end_pause(&mut self)
        ensures
            final(self)@ == scan_paused(old(self)@),
    {
        match self.phase {
            ScanPhase::Pause => {
                self.phase = ScanPhase::Fetch;
            },
            _ => {},
        }
    }
}

/// The pages have room for all files, and none of them would do without its last page.
pub proof fn lemma_pages(total: u64)
    ensures
        total > 0 ==> (pages(total) - 1) * 100 < total <= pages(total) * 100,
        total == 0 ==> pages(total) == 0,
{
}

/// The listing after the pages `replies`, with the pauses behind them.
pub open spec fn scan_run(now: ScanView, replies: Seq<JsonView>) -> ScanView
    decreases replies.len(),
{
    if replies.len() == 0 {
        now
    } else {
        scan_paused(scan_page(scan_run(now, replies.drop_last()), replies.last()))
    }
}

/// The entries on all the pages `replies`.
pub open spec fn all_entries(replies: Seq<JsonView>) -> Seq<FileEntryView>
    decreases replies.len(),
{
    if replies.len() == 0 {
        seq![]
    } else {
        all_entries(replies.drop_last()) + page_entries(replies.last())
    }
}

/// As long as the host tells the same number of files, the pages are asked for one by one,
/// each once, up to the last, and all entries on them are found.
pub proof fn lemma_all_pages(
    user_id: Seq<char>,
    folder: Seq<char>,
    total: u64,
    replies: Seq<JsonView>,
)
    requires
        total > 0,
        replies.len() <= pages(total),
        forall|i: int| 0 <= i < replies.len() ==> page_total(#[trigger] replies[i]) == total,
    ensures
        ({
            let end = scan_run(scan_start(user_id, folder), replies);
            &&& end.user_id == user_id
            &&& end.folder == folder
            &&& end.found == all_entries(replies)
            &&& if replies.len() < pages(total) {
                end.phase == ScanPhase::Fetch && end.page == replies.len() + 1
            } else {
                end.phase == ScanPhase::Done && end.page == replies.len()
            }
        }),
    decreases replies.len(),
{
    if replies.len() > 0 {
        let front = replies.drop_last();
        assert forall|i: int| 0 <= i < front.len() implies page_total(#[trigger] front[i])
            == total by {
            assert(front[i] == replies[i]);
        }
        lemma_all_pages(user_id, folder, total, front);
        assert(page_total(replies[replies.len() - 1]) == total);
    }
}

/// Every entry that is found has a name, and an identifier without a slash.
pub proof fn lemma_entries(files: Seq<JsonView>, i: int)
    requires
        0 <= i < entries_of(files).len(),
    ensures
        entries_of(files)[i].name.len() > 0,
        entries_of(files)[i].file_id.len() > 0,
        !entries_of(files)[i].file_id.contains('/'),
    decreases files.len(),
{
    let front = entries_of(files.drop_last());
    if i < front.len() {
        lemma_entries(files.drop_last(), i);
    } else {
        let url = files.last().text_at("url"@, ""@);
        let p = text::find(url, '/') as int;
        text::lemma_find(url, '/');
        text::lemma_find(url.skip(p + 1), '/');
    }
}

/// The last two parts of an address are found also where nothing stands before them; what does
/// stand there ends with a slash.
pub proof fn lemma_folder_ids_first(
    base: Seq<char>,
    user: Seq<char>,
    folder: Seq<char>,
    slashes: nat,
)
    requires
        base.len() == 0 || base.last() == '/',
        !user.contains('/'),
        !folder.contains('/'),
        folder.len() > 0,
    ensures
        folder_ids(base + user + seq!['/'] + folder + Seq::new(slashes, |i: int| '/')) == Some(
            (user, folder),
        ),
{
    let end = Seq::new(slashes, |i: int| '/');
    if base.len() > 0 {
        let front = base.drop_last();
        assert(base =~= front + seq!['/']);
        lemma_folder_ids(front, user, folder, slashes);
    } else {
        let t = user + seq!['/'] + folder;
        assert(base + user + seq!['/'] + folder + end =~= t + end);
        assert(folder.contains(folder.last()));
        text::lemma_strip_end(t, '/', slashes);
        let k = user.len() as int;
        assert forall|i: int| k < i < t.len() implies t[i] != '/' by {
            assert(t[i] == folder[i - k - 1]);
            assert(folder.contains(folder[i - k - 1]));
        }
        text::lemma_rfind_is(t, '/', k);
        assert(t.take(k) =~= user);
        assert forall|i: int| -1 < i < user.len() implies user[i] != '/' by {
            assert(user.contains(user[i]));
        }
        text::lemma_rfind_is(user, '/', -1);
        assert(last_part(user) =~= user);
        assert(last_part(t) =~= folder);
    }
}

/// An address with slashes at its end only names no folder.
pub proof fn lemma_no_folder_ids(word: Seq<char>, slashes: nat)
    requires
        !word.contains('/'),
    ensures
        folder_ids(word + Seq::new(slashes, |i: int| '/')) is None,
{
    assert(word.len() == 0 || word.last() != '/') by {
        if word.len() > 0 {
            assert(word.contains(word.last()));
        }
    }
    text::lemma_strip_end(word, '/', slashes);
    assert forall|i: int| -1 < i < word.len() implies word[i] != '/' by {
        assert(word.contains(word[i]));
    }
    text::lemma_rfind_is(word, '/', -1);
}

/// The second part of an address is what stands between its first two slashes, or behind the
/// only one.
pub proof fn lemma_second_part(first: Seq<char>, second: Seq<char>, rest: Seq<char>)
    requires
        !first.contains('/'),
        !second.contains('/'),
        rest.len() == 0 || rest[0] == '/',
    ensures
        second_part(first + seq!['/'] + second + rest) == Some(second),
        second_part(first) is None,
{
    let url = first + seq!['/'] + second + rest;
    assert forall|i: int| 0 <= i < first.len() implies first[i] != '/' by {
        assert(first.contains(first[i]));
    }
    assert forall|i: int| 0 <= i < second.len() implies second[i] != '/' by {
        assert(second.contains(second[i]));
    }
    text::lemma_find_is(url, '/', first.len() as int);
    text::lemma_find_is(first, '/', first.len() as int);
    let behind = url.skip(first.len() as int + 1);
    assert(behind =~= second + rest);
    text::lemma_find_is(behind, '/', second.len() as int);
    assert(behind.take(second.len() as int) =~= second);
}

/// A file is listed with the second part of its address as its identifier, with its whole name
/// and with the size that is told.
pub proof fn lemma_entry(
    file: JsonView,
    first: Seq<char>,
    file_id: Seq<char>,
    rest: Seq<char>,
    name: Seq<char>,
    bytes: Seq<char>,
)
    requires
        !first.contains('/'),
        !file_id.contains('/'),
        rest.len() == 0 || rest[0] == '/',
        file_id.len() > 0,
        name.len() > 0,
        file.get("url"@) == Some(JsonView::Text(first + seq!['/'] + file_id + rest)),
        file.get("name"@) == Some(JsonView::Text(name)),
    ensures
        entry_of(file) matches Some(entry) && {
            &&& entry.file_id == file_id
            &&& entry.name == name
            &&& file.get("size"@) == Some(JsonView::Text(bytes)) ==> entry.size_bytes
                == size::size_bytes(bytes)
            &&& !(file.get("size"@) matches Some(JsonView::Text(_))) ==> entry.size_bytes == 0
        },
{
    lemma_second_part(first, file_id, rest);
    reveal_strlit("");
    size::lemma_no_size(""@);
}

/// A file without an address, an identifier in it or a name is not listed.
pub proof fn lemma_no_entry(file: JsonView, first: Seq<char>, rest: Seq<char>)
    requires
        !first.contains('/'),
        rest.len() == 0 || rest[0] == '/',
    ensures
        !(file.get("url"@) matches Some(JsonView::Text(_))) ==> entry_of(file) is None,
        file.get("url"@) == Some(JsonView::Text(first)) ==> entry_of(file) is None,
        file.get("url"@) == Some(JsonView::Text(first + seq!['/'] + rest)) ==> entry_of(
            file,
        ) is None,
        !(file.get("name"@) matches Some(JsonView::Text(_))) ==> entry_of(file) is None,
        file.get("name"@) == Some(JsonView::Text(seq![])) ==> entry_of(file) is None,
{
    reveal_strlit("");
    assert(""@ =~= seq![]);
    lemma_second_part(first, seq![], rest);
    lemma_second_part(seq![], seq![], seq![]);
    assert(first + seq!['/'] + seq![] + rest =~= first + seq!['/'] + rest);
}

/// Whether `entries` are those of `files`, in order and without a gap: `places` tells where each
/// of them stands.
pub open spec fn lists(
    files: Seq<JsonView>,
    entries: Seq<FileEntryView>,
    places: Seq<int>,
) -> bool {
    &&& places.len() == entries.len()
    &&& forall|k: int|
        0 <= k < places.len() ==> 0 <= #[trigger] places[k] < files.len() && entry_of(
            files[places[k]],
        ) == Some(entries[k])
    &&& forall|j: int, k: int| 0 <= j < k < places.len() ==> places[j] < places[k]
    &&& forall|i: int|
        0 <= i < files.len() && entry_of(#[trigger] files[i]) is Some ==> places.contains(i)
}

/// Every file on a page that has an identifier and a name is found, once, in the order of the
/// page, and nothing else is.
pub proof fn lemma_page_lists(reply: JsonView, files: Seq<JsonView>) -> (places: Seq<int>)
    requires
        reply.get("files"@) == Some(JsonView::Array(files)),
    ensures
        lists(files, page_entries(reply), places),
{
    lemma_lists(files)
}

proof fn lemma_lists(files: Seq<JsonView>) -> (places: Seq<int>)
    ensures
        lists(files, entries_of(files), places),
    decreases files.len(),
{
    if files.len() == 0 {
        seq![]
    } else {
        let front = files.drop_last();
        let last = files.len() - 1;
        let before = lemma_lists(front);
        assert forall|k: int| 0 <= k < before.len() implies 0 <= #[trigger] before[k] < last
            && files[before[k]] == front[before[k]] by {}
        if entry_of(files.last()) is Some {
            let places = before.push(last);
            assert forall|i: int|
                0 <= i < files.len() && entry_of(#[trigger] files[i]) is Some implies places.contains(
                i,
            ) by {
                if i < last {
                    assert(front[i] == files[i]);
                    let k = choose|k: int| 0 <= k < before.len() && before[k] == i;
                    assert(places[k] == i);
                } else {
                    assert(places[before.len() as int] == i);
                }
            }
            places
        } else {
            assert forall|i: int|
                0 <= i < files.len() && entry_of(#[trigger] files[i]) is Some implies before.contains(
                i,
            ) by {
                assert(front[i] == files[i]);
            }
            before
        }
    }
}

/// What a page lists is put together from what its halves would list.
pub proof fn lemma_page_joined(
    reply: JsonView,
    one: JsonView,
    two: JsonView,
    x: Seq<JsonView>,
    y: Seq<JsonView>,
)
    requires
        reply.get("files"@) == Some(JsonView::Array(x + y)),
        one.get("files"@) == Some(JsonView::Array(x)),
        two.get("files"@) == Some(JsonView::Array(y)),
    ensures
        page_entries(reply) == page_entries(one) + page_entries(two),
{
    lemma_entries_joined(x, y);
}

proof fn lemma_entries_joined(x: Seq<JsonView>, y: Seq<JsonView>)
    ensures
        entries_of(x + y) == entries_of(x) + entries_of(y),
    decreases y.len(),
{
    if y.len() == 0 {
        assert(x + y =~= x);
        assert(entries_of(x) + entries_of(y) =~= entries_of(x));
    } else {
        assert((x + y).drop_last() =~= x + y.drop_last());
        lemma_entries_joined(x, y.drop_last());
        assert(entries_of(x + y) =~= entries_of(x) + entries_of(y));
    }
}

/// A page with a single file lists that file, if it has an identifier and a name; a page
/// without files lists none.
pub proof fn lemma_page_single(reply: JsonView, file: JsonView)
    ensures
        reply.get("files"@) == Some(JsonView::Array(seq![file])) ==> page_entries(reply)
            == match entry_of(file) {
            Some(entry) => seq![entry],
            None => seq![],
        },
        !(reply.get("files"@) matches Some(JsonView::Array(_))) ==> page_entries(reply).len() == 0,
{
    assert(seq![file].drop_last() =~= seq![]);
    reveal_with_fuel(entries_of, 2);
    if entry_of(file) is Some {
        assert(Seq::<FileEntryView>::empty().push(entry_of(file)->0) =~= seq![entry_of(file)->0]);
    }
}

/// How many files there are is the whole number under `total`, and none if there is no such
/// number.
pub proof fn lemma_total(reply: JsonView, n: u64)
    ensures
        reply.get("total"@) == Some(JsonView::Number(JsonNumber::Unsigned(n))) ==> page_total(reply)
            == n,
        !(reply.get("total"@) matches Some(JsonView::Number(JsonNumber::Unsigned(_))))
            ==> page_total(reply) == 0,
{
}

/// A page that was asked for adds all that it lists, and the page behind it is asked for as long
/// as the pages so far have no room for all files.
pub proof fn lemma_scan_goes_on(now: ScanView, reply: JsonView, n: u64)
    requires
        now.phase == ScanPhase::Fetch,
        reply.get("total"@) == Some(JsonView::Number(JsonNumber::Unsigned(n))),
        n > 0,
    ensures
        ({
            let next = scan_page(now, reply);
            &&& next.user_id == now.user_id
            &&& next.folder == now.folder
            &&& next.found == now.found + page_entries(reply)
            &&& now.page * 100 >= n ==> next.page == now.page && next.phase == ScanPhase::Done
            &&& now.page * 100 < n ==> next.page == now.page + 1 && next.phase == ScanPhase::Pause
        }),
{
    lemma_pages(n);
}

/// A folder without files ends the listing, with what was found before.
pub proof fn lemma_scan_stops(now: ScanView, reply: JsonView)
    requires
        now.phase == ScanPhase::Fetch,
        page_total(reply) == 0,
    ensures
        ({
            let next = scan_page(now, reply);
            &&& next.user_id == now.user_id
            &&& next.folder == now.folder
            &&& next.page == now.page
            &&& next.found == now.found
            &&& next.phase == ScanPhase::Done
        }),
{
}

/// A pause ends with the request for the next page; nothing else changes, and what is not
/// waited for changes nothing at all.
pub proof fn lemma_scan_waits(now: ScanView, reply: JsonView)
    ensures
        now.phase != ScanPhase::Fetch ==> scan_page(now, reply) == now,
        now.phase != ScanPhase::Pause ==> scan_paused(now) == now,
        now.phase == ScanPhase::Pause ==> {
            let next = scan_paused(now);
            &&& next.user_id == now.user_id
            &&& next.folder == now.folder
            &&& next.page == now.page
            &&& next.found == now.found
            &&& next.phase == ScanPhase::Fetch
        },
{
}

/// A listing begins with the first page and with nothing found.
pub proof fn lemma_scan_begins(user_id: Seq<char>, folder: Seq<char>)
    ensures
        scan_start(user_id, folder).user_id == user_id,
        scan_start(user_id, folder).folder == folder,
        scan_start(user_id, folder).page == 1,
        scan_start(user_id, folder).found.len() == 0,
        scan_start(user_id, folder).phase == ScanPhase::Fetch,
{
}

/// A page is asked for by its number, a hundred files at a time.
pub proof fn lemma_page_query(now: ScanView)
    ensures
        page_query(now).method == Method::Post,
        page_query(now).url == "https://nitroflare.com/ajax/folder.php"@,
        page_query(now).params.len() == 4,
        page_query(now).params[0] == ("userId"@, now.user_id),
        page_query(now).params[1] == ("folder"@, now.folder),
        page_query(now).params[2] == ("page"@, decimal::decimal(now.page as nat)),
        page_query(now).params[3] == ("perPage"@, "100"@),
{
    reveal_strlit("100");
    reveal_with_fuel(decimal::decimal, 4);
    assert(decimal::decimal(100) =~= "100"@);
}

/// What a page tells of the folder is its name, and how many files and pages there are.
pub proof fn lemma_page_info(info: PageInfo, reply: JsonView)
    requires
        info.tells(reply),
    ensures
        reply.get("name"@) matches Some(JsonView::Text(name)) ==> info.name@ == name,
        !(reply.get("name"@) matches Some(JsonView::Text(_))) ==> info.name@ == "?"@,
        reply.get("total"@) matches Some(JsonView::Number(JsonNumber::Unsigned(n))) ==> info.total
            == n,
        !(reply.get("total"@) matches Some(JsonView::Number(JsonNumber::Unsigned(_))))
            ==> info.total == 0,
        info.pages * 100 >= info.total,
        info.pages > 0 ==> (info.pages - 1) * 100 < info.total,
{
}

/// An entry and a listing hold what they are made of.
pub proof fn lemma_scan_holds(scan: FolderScan, entry: FileEntry)
    ensures
        entry@.file_id == entry.file_id@,
        entry@.name == entry.name@,
        entry@.size_bytes == entry.size_bytes,
        scan@.user_id == scan.user_id@,
        scan@.folder == scan.folder@,
        scan@.page == scan.page,
        scan@.phase == scan.phase,
        scan@.found.len() == scan.found@.len(),
        forall|i: int|
            0 <= i < scan.found@.len() ==> #[trigger] scan@.found[i] == scan.found@[i]@,
{
}

/// How many milliseconds lie between two pages, and between two requests for a link.
pub proof fn lemma_pause()
    ensures
        PAUSE_MILLIS == 300,
        PER_PAGE == 100,
{
}

} // verus!
