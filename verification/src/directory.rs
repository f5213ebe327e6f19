//! The listing of a directory: one entry for each child that counts, with
//! its lines, the largest first.
//!
//! The caller reads the disk and hands over what it found as a [`DirScan`];
//! everything that is decided about it is decided here.

use crate::filter::{passes, ExtensionFilter};
use crate::lines::{count_lines, terminators};
use crate::path::DirPath;
use vstd::prelude::*;
use vstd::utf8::encode_utf8;

verus! {

/// What an entry of a listing stands for.
#[derive(Debug, Clone, Copy, PartialEq, Eq, Structural)]
pub enum EntryKind {
    File,
    Directory,
}

/// One child of a listed directory, with its lines.
#[derive(Debug, Clone, PartialEq, Eq)]
pub struct DirItem {
    pub path: DirPath,
    pub count: usize,
    pub kind: EntryKind,
}

/// A `DirItem` as a value of the model.
pub struct ItemView {
    pub path: Seq<Seq<char>>,
    pub count: nat,
    pub kind: EntryKind,
}

impl View for DirItem {
    type V = ItemView;

    open spec fn view(&self) -> ItemView {
        ItemView { path: self.path@, count: self.count as nat, kind: self.kind }
    }
}

/// The entries of a listing as values of the model.
pub open spec fn item_views(items: Seq<DirItem>) -> Seq<ItemView> {
    Seq::new(items.len(), |i: int| items[i]@)
}

/// A file as it was found: its name, and its text. There is no text where
/// the file could not be read as text, nor where the caller did not read
/// it; without its text a file counts no lines.
#[derive(Debug, Clone, PartialEq, Eq)]
pub struct FileScan {
    pub name: String,
    pub content: Option<String>,
}

/// A `FileScan` as a value of the model.
pub struct FileView {
    pub name: Seq<char>,
    pub content: Option<Seq<char>>,
}

impl View for FileScan {
    type V = FileView;

    open spec fn view(&self) -> FileView {
        FileView {
            name: self.name@,
            content: match self.content {
                Some(text) => Some(text@),
                None => None,
            },
        }
    }
}

/// Files as values of the model.
pub open spec fn file_views(files: Seq<FileScan>) -> Seq<FileView> {
    Seq::new(files.len(), |i: int| files[i]@)
}

/// A child of a scanned directory.
#[derive(Debug, Clone, PartialEq, Eq)]
pub enum ChildScan {
    /// A file.
    File(FileScan),
    /// A directory, with every file found anywhere beneath it.
    Directory { name: String, files: Vec<FileScan> },
    /// A child that could not be read, or that is neither of the two.
    Unknown,
}

/// A `ChildScan` as a value of the model.
pub enum ChildView {
    File(FileView),
    Directory { name: Seq<char>, files: Seq<FileView> },
    Unknown,
}

impl View for ChildScan {
    type V = ChildView;

    open spec fn view(&self) -> ChildView {
        match self {
            ChildScan::File(file) => ChildView::File(file@),
            ChildScan::Directory { name, files } => ChildView::Directory {
                name: name@,
                files: file_views(files@),
            },
            ChildScan::Unknown => ChildView::Unknown,
        }
    }
}

/// Children as values of the model.
pub open spec fn child_views(children: Seq<ChildScan>) -> Seq<ChildView> {
    Seq::new(children.len(), |i: int| children[i]@)
}

/// What came of reading a directory.
#[derive(Debug, Clone, PartialEq, Eq)]
pub enum DirScan {
    /// The directory could not be opened.
    Unreadable,
    /// The children of the directory, in the order in which they were found.
    Children(Vec<ChildScan>),
}

/// A `DirScan` as a value of the model.
pub enum ScanView {
    Unreadable,
    Children(Seq<ChildView>),
}

impl View for DirScan {
    type V = ScanView;

    open spec fn view(&self) -> ScanView {
        match self {
            DirScan::Unreadable => ScanView::Unreadable,
            DirScan::Children(children) => ScanView::Children(child_views(children@)),
        }
    }
}

/// Why there is no listing.
#[derive(Debug, Clone, Copy, PartialEq, Eq, Structural)]
pub enum ListError {
    /// The directory could not be opened.
    Unreadable,
}

/// Lines of a text that may be missing: the line feeds of the text, none
/// where there is no text.
pub open spec fn content_lines(content: Option<Seq<char>>) -> nat {
    match content {
        Some(text) => terminators(encode_utf8(text)),
        None => 0,
    }
}

/// Lines that a file adds to a total: its own where it passes the filter,
/// none where it does not.
pub open spec fn file_lines(file: FileView, extensions: Seq<Seq<char>>) -> nat {
    if passes(file.name, extensions) {
        content_lines(file.content)
    } else {
        0
    }
}

/// Lines of all the files that pass the filter.
pub open spec fn total_lines(files: Seq<FileView>, extensions: Seq<Seq<char>>) -> nat
    decreases files.len(),
{
    if files.len() == 0 {
        0
    } else {
        total_lines(files.drop_last(), extensions) + file_lines(files.last(), extensions)
    }
}

/// A total as a count can hold it: the total, or the largest count.
pub open spec fn capped(total: nat) -> nat {
    if total > usize::MAX {
        usize::MAX as nat
    } else {
        total
    }
}

impl FileScan {
    /// Lines of the file; none where it comes without its text.
    pub fn lines(&self) -> (n: usize)
        ensures
            n == content_lines(self@.content),
    {
        match &self.content {
            Some(text) => count_lines(text.as_str()),
            None => 0,
        }
    }
}

/// Totals the lines of the files that pass the filter.
pub fn sum_lines_in_directory(files: &Vec<FileScan>, exts: &ExtensionFilter) -> (total: usize)
    ensures
        total == capped(total_lines(file_views(files@), exts@)),
{
    let ghost views = file_views(files@);
    let n: usize = files.len();
    let mut total: usize = 0;
    let mut i: usize = 0;
    while i < n
        invariant
            i <= n,
            n == files@.len(),
            views == file_views(files@),
            total == capped(total_lines(views.take(i as int), exts@)),
        decreases n - i,
    {
        proof {
            assert(views.take(i + 1).drop_last() =~= views.take(i as int));
            assert(views.take(i + 1).last() == files@[i as int]@);
        }
        if exts.matches(files[i].name.as_str()) {
            let lines: usize = files[i].lines();
            if lines > usize::MAX - total {
                total = usize::MAX;
            } else {
                total = total + lines;
            }
        }
        i = i + 1;
    }
    proof {
        assert(views.take(n as int) =~= views);
    }
    total
}

/// The entry of the directory at `path`, beneath which `files` were found.
pub fn process_directory(path: DirPath, files: &Vec<FileScan>, exts: &ExtensionFilter) -> (item:
    DirItem)
    ensures
        item@ == (ItemView {
            path: path@,
            count: capped(total_lines(file_views(files@), exts@)),
            kind: EntryKind::Directory,
        }),
{
    let count = sum_lines_in_directory(files, exts);
    DirItem { path, count, kind: EntryKind::Directory }
}

/// The entry of `file`, which lies in `dir`; none where the file does not
/// pass the filter.
pub fn process_file(dir: &DirPath, file: &FileScan, exts: &ExtensionFilter) -> (item: Option<
    DirItem,
>)
    ensures
        item.is_some() == passes(file@.name, exts@),
        item matches Some(it) ==> it@ == (ItemView {
            path: dir@.push(file@.name),
            count: content_lines(file@.content),
            kind: EntryKind::File,
        }),
{
    if exts.matches(file.name.as_str()) {
        let count = file.lines();
        Some(DirItem { path: dir.join(file.name.as_str()), count, kind: EntryKind::File })
    } else {
        None
    }
}

/// The entry that a child of `dir` gives: a directory always one, a file
/// one where it passes the filter, anything else none.
pub open spec fn entry_of(dir: Seq<Seq<char>>, child: ChildView, extensions: Seq<Seq<char>>)
    -> Option<ItemView> {
    match child {
        ChildView::File(file) => if passes(file.name, extensions) {
            Some(
                ItemView {
                    path: dir.push(file.name),
                    count: content_lines(file.content),
                    kind: EntryKind::File,
                },
            )
        } else {
            None
        },
        ChildView::Directory { name, files } => Some(
            ItemView {
                path: dir.push(name),
                count: capped(total_lines(files, extensions)),
                kind: EntryKind::Directory,
            },
        ),
        ChildView::Unknown => None,
    }
}

/// The entries that the children of `dir` give, in the order of the children.
pub open spec fn entries_of(
    dir: Seq<Seq<char>>,
    children: Seq<ChildView>,
    extensions: Seq<Seq<char>>,
) -> Seq<ItemView>
    decreases children.len(),
{
    if children.len() == 0 {
        Seq::empty()
    } else {
        let front = entries_of(dir, children.drop_last(), extensions);
        match entry_of(dir, children.last(), extensions) {
            Some(entry) => front.push(entry),
            None => front,
        }
    }
}

/// No entry is followed by one with more lines.
pub open spec fn descending(entries: Seq<ItemView>) -> bool {
    forall|i: int, j: int| 0 <= i <= j < entries.len() ==> entries[i].count >= entries[j].count
}

/// Where an entry with `count` lines goes in a descending listing: behind
/// every entry with as many lines or more.
pub open spec fn slot(entries: Seq<ItemView>, count: nat) -> int
    decreases entries.len(),
{
    if entries.len() == 0 || entries.first().count < count {
        0
    } else {
        1 + slot(entries.drop_first(), count)
    }
}

/// The entries with the largest first, those with equally many lines in
/// the order in which they came.
pub open spec fn ranked(entries: Seq<ItemView>) -> Seq<ItemView>
    decreases entries.len(),
{
    if entries.len() == 0 {
        Seq::empty()
    } else {
        let front = ranked(entries.drop_last());
        front.insert(slot(front, entries.last().count), entries.last())
    }
}

/// `slot` is the first position whose entry has fewer lines.
pub proof fn lemma_slot(entries: Seq<ItemView>, count: nat)
    ensures
        0 <= slot(entries, count) <= entries.len(),
        forall|k: int| 0 <= k < slot(entries, count) ==> entries[k].count >= count,
        slot(entries, count) < entries.len() ==> entries[slot(entries, count)].count < count,
    decreases entries.len(),
{
    if entries.len() > 0 && entries.first().count >= count {
        let rest = entries.drop_first();
        lemma_slot(rest, count);
        assert forall|k: int| 0 <= k < slot(entries, count) implies entries[k].count
            >= count by {
            if k > 0 {
                assert(entries[k] == rest[k - 1]);
            }
        }
        if slot(entries, count) < entries.len() {
            assert(entries[slot(entries, count)] == rest[slot(rest, count)]);
        }
    }
}

/// The position that `lemma_slot` describes is the only one.
pub proof fn lemma_slot_unique(entries: Seq<ItemView>, count: nat, at: int)
    requires
        0 <= at <= entries.len(),
        forall|k: int| 0 <= k < at ==> entries[k].count >= count,
        at < entries.len() ==> entries[at].count < count,
    ensures
        slot(entries, count) == at,
{
    lemma_slot(entries, count);
}

/// The listing of `dir` that a scan gives: the entries of the children,
/// ranked. There is none where the directory could not be opened.
pub open spec fn listing_of(dir: Seq<Seq<char>>, scan: ScanView, extensions: Seq<Seq<char>>)
    -> Option<Seq<ItemView>> {
    match scan {
        ScanView::Unreadable => None,
        ScanView::Children(children) => Some(ranked(entries_of(dir, children, extensions))),
    }
}

/// Puts `item` into a listing at the place that its lines give it.
pub fn insert_ranked(items: &mut Vec<DirItem>, item: DirItem)
    ensures
        item_views(final(items)@) == item_views(old(items)@).insert(
            slot(item_views(old(items)@), item@.count),
            item@,
        ),
{
    let n: usize = items.len();
    let mut at: usize = 0;
    while at < n && items[at].count >= item.count
        invariant
            at <= n,
            n == items@.len(),
            forall|k: int| 0 <= k < at ==> item_views(items@)[k].count >= item@.count,
        decreases n - at,
    {
        at = at + 1;
    }
    proof {
        lemma_slot_unique(item_views(items@), item@.count, at as int);
    }
    let ghost before = item_views(items@);
    let ghost added = item@;
    items.insert(at, item);
    assert(item_views(items@) =~= before.insert(at as int, added));
}

/// Lists the children of `dir` from what `scan` found there.
///
/// A directory gives an entry with the lines of all the files beneath it
/// that pass the filter, also where there are none; a file gives an entry
/// where it passes the filter itself. The entries come with the largest
/// first, equals in the order of the scan. There is no listing where the
/// directory could not be opened.
pub fn list_dir_items(dir: &DirPath, scan: &DirScan, exts: &ExtensionFilter) -> (listing: Result<
    Vec<DirItem>,
    ListError,
>)
    ensures
        listing.is_ok() == listing_of(dir@, scan@, exts@).is_some(),
        listing matches Ok(items) ==> listing_of(dir@, scan@, exts@) == Some(item_views(items@)),
        listing matches Ok(items) ==> descending(item_views(items@)),
        listing matches Err(error) ==> error == ListError::Unreadable,
{
    match scan {
        DirScan::Unreadable => Err(ListError::Unreadable),
        DirScan::Children(children) => {
            let ghost views = child_views(children@);
            let n: usize = children.len();
            let mut items: Vec<DirItem> = Vec::new();
            let mut i: usize = 0;
            assert(item_views(items@) =~= Seq::empty());
            while i < n
                invariant
                    i <= n,
                    n == children@.len(),
                    views == child_views(children@),
                    item_views(items@) == ranked(entries_of(dir@, views.take(i as int), exts@)),
                decreases n - i,
            {
                proof {
                    assert(views.take(i + 1).drop_last() =~= views.take(i as int));
                    assert(views.take(i + 1).last() == children@[i as int]@);
                }
                let ghost front = entries_of(dir@, views.take(i as int), exts@);
                match &children[i] {
                    ChildScan::File(file) => {
                        match process_file(dir, file, exts) {
                            Some(item) => {
                                proof {
                                    assert(front.push(item@).drop_last() =~= front);
                                }
                                insert_ranked(&mut items, item);
                            },
                            None => {},
                        }
                    },
                    ChildScan::Directory { name, files } => {
                        let item = process_directory(dir.join(name.as_str()), files, exts);
                        proof {
                            assert(front.push(item@).drop_last() =~= front);
                        }
                        insert_ranked(&mut items, item);
                    },
                    ChildScan::Unknown => {},
                }
                i = i + 1;
            }
            proof {
                assert(views.take(n as int) =~= views);
                lemma_ranked_descending(entries_of(dir@, views, exts@));
            }
            Ok(items)
        },
    }
}

/// The entries with `count` lines, and no others.
pub open spec fn with_count(count: nat) -> spec_fn(ItemView) -> bool {
    |entry: ItemView| entry.count == count
}

/// A filter that no entry passes leaves nothing.
proof fn lemma_filter_none(entries: Seq<ItemView>, pred: spec_fn(ItemView) -> bool)
    requires
        forall|k: int| 0 <= k < entries.len() ==> !pred(entries[k]),
    ensures
        entries.filter(pred) == Seq::<ItemView>::empty(),
    decreases entries.len(),
{
    reveal(Seq::filter);
    if entries.len() > 0 {
        lemma_filter_none(entries.drop_last(), pred);
    }
}

/// An entry put at its slot into a descending listing leaves it descending,
/// and stands behind the entries with as many lines: among the entries of
/// each count the order is that of putting the entry last.
pub proof fn lemma_insert_at_slot(entries: Seq<ItemView>, entry: ItemView, count: nat)
    requires
        descending(entries),
    ensures
        descending(entries.insert(slot(entries, entry.count), entry)),
        entries.insert(slot(entries, entry.count), entry).filter(with_count(count))
            == entries.push(entry).filter(with_count(count)),
{
    let at = slot(entries, entry.count);
    let placed = entries.insert(at, entry);
    let pred = with_count(count);
    lemma_slot(entries, entry.count);
    entries.insert_ensures(at, entry);
    assert forall|k: int| at <= k < entries.len() implies entries[k].count < entry.count by {
        assert(entries[at].count >= entries[k].count);
    }
    assert forall|i: int, j: int| 0 <= i <= j < placed.len() implies placed[i].count
        >= placed[j].count by {
        if i < at {
            assert(placed[i] == entries[i]);
        } else if i > at {
            assert(placed[(i - 1) + 1] == entries[i - 1]);
        }
        if j < at {
            assert(placed[j] == entries[j]);
        } else if j > at {
            assert(placed[(j - 1) + 1] == entries[j - 1]);
        }
    }
    let head = entries.subrange(0, at);
    let rest = entries.subrange(at, entries.len() as int);
    assert(entries =~= head + rest);
    assert(entries.push(entry) =~= head + rest.push(entry));
    Seq::filter_distributes_over_add(head.push(entry), rest, pred);
    Seq::filter_distributes_over_add(head, rest.push(entry), pred);
    head.lemma_filter_push(entry, pred);
    rest.lemma_filter_push(entry, pred);
    if pred(entry) {
        lemma_filter_none(rest, pred);
        assert(head.filter(pred).push(entry) + Seq::<ItemView>::empty() =~= head.filter(pred)
            + Seq::<ItemView>::empty().push(entry));
    }
}

/// A listing is in descending order of lines.
pub proof fn lemma_ranked_descending(entries: Seq<ItemView>)
    ensures
        descending(ranked(entries)),
    decreases entries.len(),
{
    if entries.len() > 0 {
        lemma_ranked_descending(entries.drop_last());
        lemma_insert_at_slot(ranked(entries.drop_last()), entries.last(), 0);
    }
}

/// Ranking keeps entries with equally many lines in the order in which
/// they came: for each count, the entries with that count are the same
/// before and after, in the same order.
pub proof fn lemma_ranked_stable(entries: Seq<ItemView>, count: nat)
    ensures
        ranked(entries).filter(with_count(count)) == entries.filter(with_count(count)),
    decreases entries.len(),
{
    if entries.len() > 0 {
        let front = entries.drop_last();
        lemma_ranked_stable(front, count);
        lemma_ranked_descending(front);
        lemma_insert_at_slot(ranked(front), entries.last(), count);
        ranked(front).lemma_filter_push(entries.last(), with_count(count));
        front.lemma_filter_push(entries.last(), with_count(count));
        assert(front.push(entries.last()) =~= entries);
    } else {
        assert(ranked(entries) =~= entries);
    }
}

/// The first entry of a descending listing has the most lines, so a count
/// that occurs in the listing is no larger.
proof fn lemma_head_is_largest(entries: Seq<ItemView>, count: nat)
    requires
        descending(entries),
        entries.filter(with_count(count)).len() > 0,
    ensures
        entries.len() > 0,
        entries[0].count >= count,
{
    let found = entries.filter(with_count(count));
    assert(found.contains(found[0]));
    entries.lemma_filter_contains_rev(with_count(count), found[0]);
    entries.lemma_filter_pred(with_count(count), 0);
    let at = choose|k: int| 0 <= k < entries.len() && entries[k] == found[0];
    assert(entries[0].count >= entries[at].count);
}

/// A descending listing is known by its entries of each count: two
/// descending listings that hold, for each count, the same entries in the
/// same order are the same listing.
pub proof fn lemma_descending_unique(first: Seq<ItemView>, second: Seq<ItemView>)
    requires
        descending(first),
        descending(second),
        forall|count: nat| #[trigger]
            first.filter(with_count(count)) == second.filter(with_count(count)),
    ensures
        first == second,
    decreases first.len(),
{
    if first.len() == 0 || second.len() == 0 {
        if first.len() > 0 {
            first.lemma_filter_contains(with_count(first[0].count), 0);
            assert(second.filter(with_count(first[0].count)) =~= Seq::empty()) by {
                reveal(Seq::filter);
            }
        }
        if second.len() > 0 {
            second.lemma_filter_contains(with_count(second[0].count), 0);
            assert(first.filter(with_count(second[0].count)) =~= Seq::empty()) by {
                reveal(Seq::filter);
            }
        }
        assert(first =~= second);
    } else {
        let most = first[0].count;
        first.lemma_filter_contains(with_count(most), 0);
        lemma_head_is_largest(second, most);
        second.lemma_filter_contains(with_count(second[0].count), 0);
        assert(first.filter(with_count(second[0].count)) == second.filter(
            with_count(second[0].count),
        ));
        lemma_head_is_largest(first, second[0].count);
        let first_rest = first.drop_first();
        let second_rest = second.drop_first();
        assert(first =~= seq![first[0]] + first_rest);
        assert(second =~= seq![second[0]] + second_rest);
        assert forall|count: nat| #[trigger]
            first_rest.filter(with_count(count)) == second_rest.filter(with_count(count)) by {
            first_rest.lemma_filter_prepend(first[0], with_count(count));
            second_rest.lemma_filter_prepend(second[0], with_count(count));
            assert(first.filter(with_count(count)) == second.filter(with_count(count)));
            if count == most {
                let kept = first.filter(with_count(count));
                assert(kept.drop_first() =~= first_rest.filter(with_count(count)));
                assert(kept.drop_first() =~= second_rest.filter(with_count(count)));
            } else {
                assert(Seq::<ItemView>::empty() + first_rest.filter(with_count(count))
                    =~= first_rest.filter(with_count(count)));
                assert(Seq::<ItemView>::empty() + second_rest.filter(with_count(count))
                    =~= second_rest.filter(with_count(count)));
            }
        }
        first_rest.lemma_filter_prepend(first[0], with_count(most));
        second_rest.lemma_filter_prepend(second[0], with_count(most));
        assert(first.filter(with_count(most)) == second.filter(with_count(most)));
        assert((seq![first[0]] + first_rest.filter(with_count(most)))[0] == first[0]);
        assert((seq![second[0]] + second_rest.filter(with_count(most)))[0] == second[0]);
        assert(first[0] == second[0]);
        lemma_descending_unique(first_rest, second_rest);
    }
}

/// What a listing is: the one arrangement of the entries that is in
/// descending order of lines and keeps entries with equally many lines in
/// the order in which they came.
pub proof fn lemma_ranked_is_stable_sort(entries: Seq<ItemView>, listing: Seq<ItemView>)
    requires
        descending(listing),
        forall|count: nat| #[trigger]
            listing.filter(with_count(count)) == entries.filter(with_count(count)),
    ensures
        listing == ranked(entries),
{
    lemma_ranked_descending(entries);
    assert forall|count: nat| #[trigger]
        listing.filter(with_count(count)) == ranked(entries).filter(with_count(count)) by {
        lemma_ranked_stable(entries, count);
    }
    lemma_descending_unique(listing, ranked(entries));
}

/// Ranking neither drops nor adds an entry.
pub proof fn lemma_ranked_permutes(entries: Seq<ItemView>)
    ensures
        ranked(entries).to_multiset() == entries.to_multiset(),
        ranked(entries).len() == entries.len(),
    decreases entries.len(),
{
    if entries.len() > 0 {
        let front = entries.drop_last();
        lemma_ranked_permutes(front);
        lemma_slot(ranked(front), entries.last().count);
        vstd::seq_lib::to_multiset_insert(
            ranked(front),
            slot(ranked(front), entries.last().count),
            entries.last(),
        );
        vstd::seq_lib::to_multiset_build(front, entries.last());
        assert(front.push(entries.last()) =~= entries);
        ranked(front).insert_ensures(slot(ranked(front), entries.last().count), entries.last());
    } else {
        assert(ranked(entries) =~= entries);
    }
}

/// Every entry comes from a child, and every child that gives an entry has it
/// among the entries.
pub proof fn lemma_entries_of_children(
    dir: Seq<Seq<char>>,
    children: Seq<ChildView>,
    extensions: Seq<Seq<char>>,
)
    ensures
        forall|entry: ItemView| #[trigger]
            entries_of(dir, children, extensions).contains(entry) <==> exists|j: int|
                0 <= j < children.len() && #[trigger] entry_of(dir, children[j], extensions)
                    == Some(entry),
    decreases children.len(),
{
    let entries = entries_of(dir, children, extensions);
    if children.len() > 0 {
        let front = children.drop_last();
        let before = entries_of(dir, front, extensions);
        lemma_entries_of_children(dir, front, extensions);
        assert forall|entry: ItemView| #[trigger] entries.contains(entry) implies exists|j: int|
            0 <= j < children.len() && #[trigger] entry_of(dir, children[j], extensions) == Some(
                entry,
            ) by {
            let at = choose|k: int| 0 <= k < entries.len() && entries[k] == entry;
            if at < before.len() {
                assert(before[at] == entry);
                assert(before.contains(entry));
                let j = choose|j: int|
                    0 <= j < front.len() && #[trigger] entry_of(dir, front[j], extensions) == Some(
                        entry,
                    );
                assert(front[j] == children[j]);
            } else {
                assert(entry_of(dir, children[children.len() - 1], extensions) == Some(entry));
            }
        }
        assert forall|entry: ItemView|
            (exists|j: int|
                0 <= j < children.len() && #[trigger] entry_of(dir, children[j], extensions)
                    == Some(entry)) implies #[trigger] entries.contains(entry) by {
            let j = choose|j: int|
                0 <= j < children.len() && #[trigger] entry_of(dir, children[j], extensions)
                    == Some(entry);
            if j < front.len() {
                assert(front[j] == children[j]);
                assert(before.contains(entry));
                let at = choose|k: int| 0 <= k < before.len() && before[k] == entry;
                assert(entries[at] == entry);
            } else {
                assert(entries[entries.len() - 1] == entry);
            }
        }
    } else {
        assert forall|entry: ItemView| #[trigger] entries.contains(entry) implies false by {
            let at = choose|k: int| 0 <= k < entries.len() && entries[k] == entry;
        }
    }
}

/// A listing holds the entries that the children give, and nothing else.
pub proof fn lemma_listing_holds_entries(
    dir: Seq<Seq<char>>,
    children: Seq<ChildView>,
    extensions: Seq<Seq<char>>,
)
    ensures
        forall|entry: ItemView| #[trigger]
            ranked(entries_of(dir, children, extensions)).contains(entry) <==> exists|j: int|
                0 <= j < children.len() && #[trigger] entry_of(dir, children[j], extensions)
                    == Some(entry),
{
    let entries = entries_of(dir, children, extensions);
    lemma_entries_of_children(dir, children, extensions);
    lemma_ranked_permutes(entries);
    assert forall|entry: ItemView| #[trigger]
        ranked(entries).contains(entry) == entries.contains(entry) by {
        vstd::seq_lib::to_multiset_contains(ranked(entries), entry);
        vstd::seq_lib::to_multiset_contains(entries, entry);
    }
}

/// Each directory of a listing stands for a scanned directory of that path,
/// and carries the lines of all the files beneath it that pass the filter,
/// as far as a count can hold them.
pub proof fn lemma_directory_counts(
    dir: Seq<Seq<char>>,
    children: Seq<ChildView>,
    extensions: Seq<Seq<char>>,
    i: int,
)
    requires
        0 <= i < ranked(entries_of(dir, children, extensions)).len(),
        ranked(entries_of(dir, children, extensions))[i].kind == EntryKind::Directory,
    ensures
        exists|j: int|
            0 <= j < children.len() && (#[trigger] children[j] matches ChildView::Directory {
                name,
                files,
            } && ranked(entries_of(dir, children, extensions))[i] == ItemView {
                path: dir.push(name),
                count: capped(total_lines(files, extensions)),
                kind: EntryKind::Directory,
            }),
{
    let listing = ranked(entries_of(dir, children, extensions));
    lemma_listing_holds_entries(dir, children, extensions);
    assert(listing.contains(listing[i]));
    let j = choose|j: int|
        0 <= j < children.len() && #[trigger] entry_of(dir, children[j], extensions) == Some(
            listing[i],
        );
    assert(children[j] is Directory);
}

} // verus!
