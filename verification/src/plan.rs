//! Which files of a folder are downloaded.
use crate::folder;
use crate::folder::{FileEntry, FileEntryView};
use crate::text;
use vstd::prelude::*;

verus! {

/// A file to download.
#[derive(Debug)]
pub struct DownloadItem {
    pub file_id: String,
    pub filename: String,
    /// The download link, empty until there is one.
    pub nf_down: String,
    /// The directory to download to.
    pub dir: String,
    pub size_bytes: u64,
}

/// What a download item holds.
pub ghost struct ItemView {
    pub file_id: Seq<char>,
    pub filename: Seq<char>,
    pub nf_down: Seq<char>,
    pub dir: Seq<char>,
    pub size_bytes: u64,
}

impl View for DownloadItem {
    type V = ItemView;

    open spec fn view(&self) -> ItemView {
        ItemView {
            file_id: self.file_id@,
            filename: self.filename@,
            nf_down: self.nf_down@,
            dir: self.dir@,
            size_bytes: self.size_bytes,
        }
    }
}

/// What a list of download items holds.
pub open spec fn items_view(items: Seq<DownloadItem>) -> Seq<ItemView> {
    items.map_values(|i: DownloadItem| i@)
}

/// The lower case of `s`, as `str::to_lowercase` gives it.
pub uninterp spec fn lowercase(s: Seq<char>) -> Seq<char>;

/// `str::to_lowercase`: a function of the characters alone, which [`lowercase`] names.
#[verifier::external_body]
fn to_lowercase(s: &str) -> (r: String)
    ensures
        r@ == lowercase(s@),
{
    s.to_lowercase()
}

/// Whether `part` stands in `name`, upper and lower case taken as one.
pub open spec fn name_matches(name: Seq<char>, part: Seq<char>) -> bool {
    text::contains(lowercase(name), lowercase(part))
}

/// The entries whose name has `part` in it.
pub open spec fn matching(entries: Seq<FileEntryView>, part: Seq<char>) -> Seq<FileEntryView> {
    entries.filter(|e: FileEntryView| name_matches(e.name, part))
}

/// Keeps the entries whose name has `part` in it, in order.
pub fn keep_matching(entries: Vec<FileEntry>, part: &str) -> (r: Vec<FileEntry>)
    ensures
        folder::entries_view(r@) == matching(folder::entries_view(entries@), part@),
{
    let lower = text::chars_of(to_lowercase(part).as_str());
    let ghost all = folder::entries_view(entries@);
    let ghost p = |e: FileEntryView| name_matches(e.name, part@);
    let mut r: Vec<FileEntry> = Vec::new();
    proof {
        assert(all.take(0) =~= seq![]);
        reveal(Seq::filter);
        assert(folder::entries_view(r@) =~= all.take(0).filter(p));
    }
    for e in it: entries
        invariant
            it.seq() == entries@,
            all == folder::entries_view(entries@),
            p == (|e: FileEntryView| name_matches(e.name, part@)),
            lower@ == lowercase(part@),
            folder::entries_view(r@) == all.take(it.index()).filter(p),
    {
        let ghost prev = r@;
        let name = text::chars_of(to_lowercase(e.name.as_str()).as_str());
        let hit = text::has_part(name.as_slice(), lower.as_slice());
        proof {
            reveal(Seq::filter);
            assert(all.take(it.index() + 1).drop_last() =~= all.take(it.index()));
            assert(all.take(it.index() + 1).last() == e@);
        }
        if hit {
            r.push(e);
            assert(folder::entries_view(r@) =~= folder::entries_view(prev).push(e@));
        }
    }
    assert(all.take(all.len() as int) =~= all);
    r
}

/// The item that downloads `entry` to `dir`, still without a link.
pub open spec fn item_of(entry: FileEntryView, dir: Seq<char>) -> ItemView {
    ItemView {
        file_id: entry.file_id,
        filename: entry.name,
        nf_down: seq![],
        dir,
        size_bytes: entry.size_bytes,
    }
}

/// The items that download `entries` to `dir`.
pub fn items_of(entries: Vec<FileEntry>, dir: &str) -> (r: Vec<DownloadItem>)
    ensures
        items_view(r@) == folder::entries_view(entries@).map_values(
            |e: FileEntryView| item_of(e, dir@),
        ),
{
    let mut r: Vec<DownloadItem> = Vec::new();
    for e in it: entries
        invariant
            it.seq() == entries@,
            r@.len() == it.index(),
            forall|i: int| 0 <= i < r@.len() ==> (#[trigger] r@[i])@ == item_of(entries@[i]@, dir@),
    {
        let item = DownloadItem {
            file_id: e.file_id,
            filename: e.name,
            nf_down: String::new(),
            dir: dir.to_owned(),
            size_bytes: e.size_bytes,
        };
        assert(item.nf_down@ =~= seq![]);
        r.push(item);
    }
    assert(items_view(r@) =~= folder::entries_view(entries@).map_values(
        |e: FileEntryView| item_of(e, dir@),
    ));
    r
}

/// Why there is nothing to download.
#[derive(Clone, Copy, Debug, PartialEq, Eq, Structural)]
pub enum Stop {
    /// The folder has no files.
    NoFiles,
    /// None of the `listed` files has a name that is asked for.
    NoMatch { listed: usize },
}

/// The files of a folder that are asked for.
#[derive(Debug)]
pub struct Selection {
    pub items: Vec<DownloadItem>,
    /// How many files the folder has.
    pub listed: usize,
    /// How many of them have another name than is asked for.
    pub skipped: usize,
}

/// The entries in `found` that are asked for: all of them, or the ones whose name has a part
/// in it.
pub open spec fn wanted(found: Seq<FileEntryView>, part: Option<Seq<char>>) -> Seq<FileEntryView> {
    match part {
        Some(part) => matching(found, part),
        None => found,
    }
}

/// Selects the files in `found` that are asked for, to be downloaded to `dir`.
pub fn select(found: Vec<FileEntry>, part: Option<&str>, dir: &str) -> (r: Result<Selection, Stop>)
    ensures
        ({
            let all = folder::entries_view(found@);
            let chosen = wanted(
                all,
                match part {
                    Some(p) => Some(p@),
                    None => None,
                },
            );
            if all.len() == 0 {
                r == Err::<Selection, Stop>(Stop::NoFiles)
            } else if chosen.len() == 0 {
                &&& r matches Err(Stop::NoMatch { listed })
                &&& listed == all.len()
            } else {
                &&& r is Ok
                &&& items_view(r->Ok_0.items@) == chosen.map_values(
                    |e: FileEntryView| item_of(e, dir@),
                )
                &&& r->Ok_0.listed == all.len()
                &&& r->Ok_0.skipped == all.len() - chosen.len()
            }
        }),
{
    let ghost all = folder::entries_view(found@);
    let listed = found.len();
    if listed == 0 {
        return Err(Stop::NoFiles);
    }
    match part {
        Some(p) => {
            let kept = keep_matching(found, p);
            proof {
                assert(folder::entries_view(kept@).len() == kept@.len());
                all.lemma_filter_len(|e: FileEntryView| name_matches(e.name, p@));
            }
            let skipped = listed - kept.len();
            if kept.len() == 0 {
                return Err(Stop::NoMatch { listed });
            }
            Ok(Selection { items: items_of(kept, dir), listed, skipped })
        },
        None => Ok(Selection { items: items_of(found, dir), listed, skipped: 0 }),
    }
}

/// The traffic that is left after the items in `items` that fit: one fits if its size is no
/// more than what the ones before it have left.
pub open spec fn left_after(items: Seq<ItemView>, left: u64) -> u64
    decreases items.len(),
{
    if items.len() == 0 {
        left
    } else {
        let before = left_after(items.drop_last(), left);
        if items.last().size_bytes <= before {
            (before - items.last().size_bytes) as u64
        } else {
            before
        }
    }
}

/// The items in `items` that fit into the traffic `left`, taken in order.
pub open spec fn fitting(items: Seq<ItemView>, left: u64) -> Seq<ItemView>
    decreases items.len(),
{
    if items.len() == 0 {
        seq![]
    } else if items.last().size_bytes <= left_after(items.drop_last(), left) {
        fitting(items.drop_last(), left).push(items.last())
    } else {
        fitting(items.drop_last(), left)
    }
}

/// The items in `items` that do not fit, each with the traffic that was left for it.
pub open spec fn too_large(items: Seq<ItemView>, left: u64) -> Seq<(ItemView, u64)>
    decreases items.len(),
{
    if items.len() == 0 {
        seq![]
    } else {
        let before = left_after(items.drop_last(), left);
        if items.last().size_bytes <= before {
            too_large(items.drop_last(), left)
        } else {
            too_large(items.drop_last(), left).push((items.last(), before))
        }
    }
}

/// What a choice of items by their size comes to.
#[derive(Debug)]
pub struct Budget {
    /// The items that fit.
    pub kept: Vec<DownloadItem>,
    /// The others, each with the traffic that was left for it.
    pub skipped: Vec<(DownloadItem, u64)>,
    /// The traffic that the items that fit leave.
    pub left: u64,
}

impl Budget {
    /// The others, each with the traffic that was left for it.
    pub open spec fn skipped_view(self) -> Seq<(ItemView, u64)> {
        self.skipped@.map_values(|s: (DownloadItem, u64)| (s.0@, s.1))
    }
}

/// Chooses the items that fit into the traffic `traffic_left`, in order.
pub fn fit_budget(items: Vec<DownloadItem>, traffic_left: u64) -> (r: Budget)
    ensures
        items_view(r.kept@) == fitting(items_view(items@), traffic_left),
        r.skipped_view() == too_large(items_view(items@), traffic_left),
        r.left == left_after(items_view(items@), traffic_left),
{
    let ghost all = items_view(items@);
    let mut r = Budget { kept: Vec::new(), skipped: Vec::new(), left: traffic_left };
    assert(items_view(r.kept@) =~= seq![]);
    assert(r.skipped_view() =~= seq![]);
    assert(all.take(0) =~= seq![]);
    for item in it: items
        invariant
            it.seq() == items@,
            all == items_view(items@),
            items_view(r.kept@) == fitting(all.take(it.index()), traffic_left),
            r.skipped_view() == too_large(all.take(it.index()), traffic_left),
            r.left == left_after(all.take(it.index()), traffic_left),
    {
        let ghost prev = r;
        proof {
            assert(all.take(it.index() + 1).drop_last() =~= all.take(it.index()));
            assert(all.take(it.index() + 1).last() == item@);
        }
        if item.size_bytes > 0 && item.size_bytes > r.left {
            let left = r.left;
            r.skipped.push((item, left));
            assert(r.skipped_view() =~= prev.skipped_view().push((item@, left)));
        } else {
            r.left = r.left.saturating_sub(item.size_bytes);
            r.kept.push(item);
            assert(items_view(r.kept@) =~= items_view(prev.kept@).push(item@));
        }
    }
    assert(all.take(all.len() as int) =~= all);
    r
}

/// The sum of the sizes of `items`.
pub open spec fn total_size(items: Seq<ItemView>) -> int
    decreases items.len(),
{
    if items.len() == 0 {
        0
    } else {
        total_size(items.drop_last()) + items.last().size_bytes
    }
}

/// The items that are kept and what they leave make up the traffic there was, so together
/// they never need more than that.
pub proof fn lemma_budget(items: Seq<ItemView>, left: u64)
    ensures
        total_size(fitting(items, left)) + left_after(items, left) == left,
        total_size(fitting(items, left)) <= left,
    decreases items.len(),
{
    if items.len() > 0 {
        lemma_budget(items.drop_last(), left);
        let kept = fitting(items.drop_last(), left);
        assert(kept.push(items.last()).drop_last() =~= kept);
    }
}

/// Every item is either kept or skipped, and one that is skipped needs more than was left.
pub proof fn lemma_budget_splits(items: Seq<ItemView>, left: u64)
    ensures
        fitting(items, left).len() + too_large(items, left).len() == items.len(),
        forall|i: int|
            0 <= i < too_large(items, left).len() ==> (#[trigger] too_large(
                items,
                left,
            )[i]).0.size_bytes > too_large(items, left)[i].1,
    decreases items.len(),
{
    if items.len() > 0 {
        lemma_budget_splits(items.drop_last(), left);
    }
}

/// Where the traffic is enough for all of them, every item is kept.
pub proof fn lemma_budget_enough(items: Seq<ItemView>, left: u64)
    requires
        total_size(items) <= left,
    ensures
        fitting(items, left) == items,
        left_after(items, left) == left - total_size(items),
    decreases items.len(),
{
    if items.len() > 0 {
        lemma_budget_enough(items.drop_last(), left);
        assert(items.drop_last().push(items.last()) =~= items);
    } else {
        assert(items =~= seq![]);
    }
}

impl DownloadItem {
    /// Takes over the download link `url`, unless it is empty.
    pub fn resolve(&mut self, url: String)
        ensures
            final(self)@ == (if url@.len() > 0 {
                ItemView { nf_down: url@, ..old(self)@ }
            } else {
                old(self)@
            }),
    {
        if !url.as_str().is_empty() {
            self.nf_down = url;
        }
    }
}

/// The items that have a download link.
pub open spec fn with_link(items: Seq<ItemView>) -> Seq<ItemView> {
    items.filter(|i: ItemView| i.nf_down.len() > 0)
}

/// Keeps the items that have a download link, in order.
pub fn keep_ready(items: Vec<DownloadItem>) -> (r: Vec<DownloadItem>)
    ensures
        items_view(r@) == with_link(items_view(items@)),
{
    let ghost all = items_view(items@);
    let ghost p = |i: ItemView| i.nf_down.len() > 0;
    let mut r: Vec<DownloadItem> = Vec::new();
    proof {
        reveal(Seq::filter);
        assert(all.take(0) =~= seq![]);
        assert(items_view(r@) =~= all.take(0).filter(p));
    }
    for item in it: items
        invariant
            it.seq() == items@,
            all == items_view(items@),
            p == (|i: ItemView| i.nf_down.len() > 0),
            items_view(r@) == all.take(it.index()).filter(p),
    {
        let ghost prev = r@;
        proof {
            reveal(Seq::filter);
            assert(all.take(it.index() + 1).drop_last() =~= all.take(it.index()));
            assert(all.take(it.index() + 1).last() == item@);
        }
        if !item.nf_down.as_str().is_empty() {
            r.push(item);
            assert(items_view(r@) =~= items_view(prev).push(item@));
        }
    }
    assert(all.take(all.len() as int) =~= all);
    r
}

/// How many of `results` are true.
pub open spec fn successes(results: Seq<bool>) -> nat {
    results.filter(|b: bool| b).len()
}

/// How many of `results` are true.
pub fn count_successes(results: &Vec<bool>) -> (n: usize)
    ensures
        n == successes(results@),
{
    let mut n: usize = 0;
    let mut i: usize = 0;
    let ghost p = |b: bool| b;
    proof {
        reveal(Seq::filter);
        assert(results@.take(0) =~= seq![]);
    }
    while i < results.len()
        invariant
            i <= results@.len(),
            p == (|b: bool| b),
            n == results@.take(i as int).filter(p).len(),
            n <= i,
        decreases results@.len() - i,
    {
        proof {
            reveal(Seq::filter);
            assert(results@.take(i + 1).drop_last() =~= results@.take(i as int));
            assert(results@.take(i + 1).last() == results@[i as int]);
        }
        if results[i] {
            n += 1;
        }
        i += 1;
    }
    assert(results@.take(i as int) =~= results@);
    n
}

/// A name is asked for exactly if its lower case is made of something, the lower case of what is
/// asked for, and something else.
pub proof fn lemma_name_matches(name: Seq<char>, part: Seq<char>)
    ensures
        name_matches(name, part) <==> exists|i: int|
            0 <= i <= lowercase(name).len() - lowercase(part).len() && lowercase(name) == (
            #[trigger] lowercase(name).take(i)) + lowercase(part) + lowercase(name).skip(
                i + lowercase(part).len(),
            ),
{
    let (n, p) = (lowercase(name), lowercase(part));
    if name_matches(name, part) {
        text::lemma_contained(n, p);
    }
    if exists|i: int|
        0 <= i <= n.len() - p.len() && n == (#[trigger] n.take(i)) + p + n.skip(i + p.len()) {
        let i = choose|i: int|
            0 <= i <= n.len() - p.len() && n == (#[trigger] n.take(i)) + p + n.skip(i + p.len());
        text::lemma_contains(n.take(i), p, n.skip(i + p.len()));
    }
}

/// Whether `part` is what is left of `all` in order, with the items at `places` and no others.
pub open spec fn picks<T>(all: Seq<T>, part: Seq<T>, places: Seq<int>) -> bool {
    &&& places.len() == part.len()
    &&& forall|k: int|
        0 <= k < places.len() ==> 0 <= #[trigger] places[k] < all.len() && all[places[k]] == part[k]
    &&& forall|j: int, k: int| 0 <= j < k < places.len() ==> places[j] < places[k]
}

/// Where the items that a filter leaves stand.
proof fn lemma_filter_places<T>(all: Seq<T>, p: spec_fn(T) -> bool) -> (places: Seq<int>)
    ensures
        picks(all, all.filter(p), places),
        forall|i: int| 0 <= i < all.len() ==> (places.contains(i) <==> p(#[trigger] all[i])),
    decreases all.len(),
{
    reveal(Seq::filter);
    if all.len() == 0 {
        seq![]
    } else {
        let front = all.drop_last();
        let last = all.len() - 1;
        let before = lemma_filter_places(front, p);
        let places = if p(all.last()) {
            before.push(last)
        } else {
            before
        };
        assert forall|i: int| 0 <= i < all.len() implies (places.contains(i) <==> p(
            #[trigger] all[i],
        )) by {
            if i < last {
                assert(front[i] == all[i]);
                if before.contains(i) {
                    let k = choose|k: int| 0 <= k < before.len() && before[k] == i;
                    assert(places[k] == i);
                }
                if places.contains(i) {
                    let k = choose|k: int| 0 <= k < places.len() && places[k] == i;
                    assert(k < before.len());
                    assert(before[k] == i);
                }
            } else {
                if p(all.last()) {
                    assert(places[before.len() as int] == i);
                }
            }
        }
        places
    }
}

/// A filter leaves every entry whose name is asked for, in order, and no other.
pub proof fn lemma_matching(entries: Seq<FileEntryView>, part: Seq<char>) -> (places: Seq<int>)
    ensures
        picks(entries, matching(entries, part), places),
        forall|i: int|
            0 <= i < entries.len() ==> (places.contains(i) <==> name_matches(
                (#[trigger] entries[i]).name,
                part,
            )),
{
    lemma_filter_places(entries, |e: FileEntryView| name_matches(e.name, part))
}

/// Without a filter every entry is asked for; with one, every entry whose name it finds.
pub proof fn lemma_wanted(found: Seq<FileEntryView>, part: Seq<char>) -> (places: Seq<int>)
    ensures
        wanted(found, None) == found,
        picks(found, wanted(found, Some(part)), places),
        forall|i: int|
            0 <= i < found.len() ==> (places.contains(i) <==> name_matches(
                (#[trigger] found[i]).name,
                part,
            )),
{
    lemma_matching(found, part)
}

/// An item takes its identifier, name and size from its entry, and has no link yet.
pub proof fn lemma_item_of(entry: FileEntryView, dir: Seq<char>)
    ensures
        item_of(entry, dir).file_id == entry.file_id,
        item_of(entry, dir).filename == entry.name,
        item_of(entry, dir).size_bytes == entry.size_bytes,
        item_of(entry, dir).dir == dir,
        item_of(entry, dir).nf_down.len() == 0,
{
}

/// The sum of sizes grows by the size of each item.
pub proof fn lemma_total_size(items: Seq<ItemView>, item: ItemView)
    ensures
        total_size(seq![]) == 0,
        total_size(items.push(item)) == total_size(items) + item.size_bytes,
{
    assert(items.push(item).drop_last() =~= items);
}

/// Whether an item is kept depends on what the ones kept before it have left, and on nothing
/// else: one that needs no more than that is kept, also behind others that were skipped.
pub proof fn lemma_budget_next(items: Seq<ItemView>, item: ItemView, left: u64)
    ensures
        ({
            let rest = left - total_size(fitting(items, left));
            let more = items.push(item);
            if item.size_bytes <= rest {
                &&& fitting(more, left) == fitting(items, left).push(item)
                &&& too_large(more, left) == too_large(items, left)
                &&& left_after(more, left) == rest - item.size_bytes
            } else {
                &&& fitting(more, left) == fitting(items, left)
                &&& too_large(more, left) == too_large(items, left).push((item, rest as u64))
                &&& left_after(more, left) == rest
            }
        }),
        fitting(seq![], left).len() == 0,
        too_large(seq![], left).len() == 0,
        left_after(seq![], left) == left,
{
    assert(items.push(item).drop_last() =~= items);
    lemma_budget(items, left);
}

/// The items that are kept stand in the list in the same order; an item stands among them
/// exactly if it needs no more than those kept before it have left.
pub proof fn lemma_budget_places(items: Seq<ItemView>, left: u64) -> (places: Seq<int>)
    ensures
        picks(items, fitting(items, left), places),
        forall|i: int|
            #![trigger items[i]]
            0 <= i < items.len() ==> (places.contains(i) <==> items[i].size_bytes + total_size(
                fitting(items.take(i), left),
            ) <= left),
    decreases items.len(),
{
    if items.len() == 0 {
        seq![]
    } else {
        let front = items.drop_last();
        let last = items.len() - 1;
        let before = lemma_budget_places(front, left);
        assert(items =~= front.push(items.last()));
        lemma_budget_next(front, items.last(), left);
        let fits = items.last().size_bytes + total_size(fitting(front, left)) <= left;
        let places = if fits {
            before.push(last)
        } else {
            before
        };
        assert forall|i: int| #![trigger items[i]] 0 <= i < items.len() implies (places.contains(i)
            <==> items[i].size_bytes + total_size(fitting(items.take(i), left)) <= left) by {
            if i < last {
                assert(front[i] == items[i]);
                assert(front.take(i) =~= items.take(i));
                if before.contains(i) {
                    let k = choose|k: int| 0 <= k < before.len() && before[k] == i;
                    assert(places[k] == i);
                }
                if places.contains(i) {
                    let k = choose|k: int| 0 <= k < places.len() && places[k] == i;
                    assert(k < before.len());
                    assert(before[k] == i);
                }
            } else {
                assert(items.take(i) =~= front);
                if fits {
                    assert(places[before.len() as int] == i);
                }
            }
        }
        places
    }
}

/// The items that are skipped stand in the list in the same order, and are those that are not
/// kept; with each goes what the ones kept before it have left.
pub proof fn lemma_skipped_places(items: Seq<ItemView>, left: u64) -> (places: Seq<int>)
    ensures
        places.len() == too_large(items, left).len(),
        forall|k: int|
            #![trigger places[k]]
            0 <= k < places.len() ==> 0 <= places[k] < items.len() && too_large(items, left)[k].0
                == items[places[k]] && too_large(items, left)[k].1 == left - total_size(
                fitting(items.take(places[k]), left),
            ),
        forall|j: int, k: int| 0 <= j < k < places.len() ==> places[j] < places[k],
        forall|i: int|
            #![trigger items[i]]
            0 <= i < items.len() ==> (places.contains(i) <==> items[i].size_bytes + total_size(
                fitting(items.take(i), left),
            ) > left),
    decreases items.len(),
{
    if items.len() == 0 {
        seq![]
    } else {
        let front = items.drop_last();
        let last = items.len() - 1;
        let before = lemma_skipped_places(front, left);
        assert(items =~= front.push(items.last()));
        lemma_budget_next(front, items.last(), left);
        lemma_budget(front, left);
        let fits = items.last().size_bytes + total_size(fitting(front, left)) <= left;
        let places = if fits {
            before
        } else {
            before.push(last)
        };
        assert(items.take(last) =~= front);
        assert forall|k: int| #![trigger places[k]] 0 <= k < places.len() implies 0 <= places[k]
            < items.len() && too_large(items, left)[k].0 == items[places[k]] && too_large(
            items,
            left,
        )[k].1 == left - total_size(fitting(items.take(places[k]), left)) by {
            if k < before.len() {
                assert(places[k] == before[k]);
                assert(front.take(before[k]) =~= items.take(before[k]));
            }
        }
        assert forall|i: int| #![trigger items[i]] 0 <= i < items.len() implies (places.contains(i)
            <==> items[i].size_bytes + total_size(fitting(items.take(i), left)) > left) by {
            if i < last {
                assert(front[i] == items[i]);
                assert(front.take(i) =~= items.take(i));
                if before.contains(i) {
                    let k = choose|k: int| 0 <= k < before.len() && before[k] == i;
                    assert(places[k] == i);
                }
                if places.contains(i) {
                    let k = choose|k: int| 0 <= k < places.len() && places[k] == i;
                    assert(k < before.len());
                    assert(before[k] == i);
                }
            } else {
                if !fits {
                    assert(places[before.len() as int] == i);
                }
            }
        }
        places
    }
}

/// The items that are ready are all those with a link, in order.
pub proof fn lemma_with_link(items: Seq<ItemView>) -> (places: Seq<int>)
    ensures
        picks(items, with_link(items), places),
        forall|i: int|
            0 <= i < items.len() ==> (places.contains(i) <==> (#[trigger] items[i]).nf_down.len()
                > 0),
{
    lemma_filter_places(items, |i: ItemView| i.nf_down.len() > 0)
}

/// Each success counts once, and a failure does not count.
pub proof fn lemma_successes(results: Seq<bool>, last: bool)
    ensures
        successes(seq![]) == 0,
        successes(results.push(last)) == successes(results) + if last {
            1nat
        } else {
            0nat
        },
{
    reveal(Seq::filter);
    assert(results.push(last).drop_last() =~= results);
}

/// An item holds what it is made of.
pub proof fn lemma_item_holds(item: DownloadItem, budget: Budget)
    ensures
        item@.file_id == item.file_id@,
        item@.filename == item.filename@,
        item@.nf_down == item.nf_down@,
        item@.dir == item.dir@,
        item@.size_bytes == item.size_bytes,
        items_view(budget.kept@).len() == budget.kept@.len(),
        forall|i: int|
            0 <= i < budget.kept@.len() ==> #[trigger] items_view(budget.kept@)[i]
                == budget.kept@[i]@,
        budget.skipped_view().len() == budget.skipped@.len(),
        forall|i: int|
            0 <= i < budget.skipped@.len() ==> #[trigger] budget.skipped_view()[i] == (
                budget.skipped@[i].0@,
                budget.skipped@[i].1,
            ),
{
}

} // verus!
