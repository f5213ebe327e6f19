//! The browser's state, and how each command changes it.
//!
//! The state holds the root, the current directory, its listing and the
//! selected entry. The current directory never leaves the root, the
//! listing holds children of the current directory only, and the selection
//! never leaves the listing. A move needs the new directory read: the
//! caller asks which directory a move leads to, reads it, and hands the
//! scan to the move. A move either takes place as a whole or changes
//! nothing.

use crate::directory::{
    entry_of, item_views, lemma_listing_holds_entries, list_dir_items, listing_of, DirItem,
    DirScan, EntryKind, ItemView, ListError, ScanView,
};
use crate::filter::ExtensionFilter;
use crate::path::{lemma_parent_of_child, lemma_within_transitive, parent_of, within, DirPath};
use crate::ui::{
    at_root, child_target, command_of, is_at_root, move_to_parent, parent_target,
    selected_directory, Command, Key, Resolved, ResolvedView,
};
use vstd::prelude::*;

verus! {

/// The state of the browser as a value of the model.
pub struct AppView {
    pub cur_dir: Seq<Seq<char>>,
    pub base_dir: Seq<Seq<char>>,
    pub items: Seq<ItemView>,
    pub selected: Option<usize>,
    pub exts: Seq<Seq<char>>,
    pub exit: bool,
}

/// The selection of a fresh listing: its first entry, or none where it
/// has no entry.
pub open spec fn first_of(items: Seq<ItemView>) -> Option<usize> {
    if items.len() == 0 {
        None
    } else {
        Some(0usize)
    }
}

/// What holds of every state: the current directory lies within the root,
/// every listed entry is a child of the current directory, and the
/// selection points into the listing, or at nothing where the listing is
/// empty.
pub open spec fn valid(state: AppView) -> bool {
    &&& within(state.cur_dir, state.base_dir)
    &&& forall|i: int|
        0 <= i < state.items.len() ==> parent_of(#[trigger] state.items[i].path) == Some(
            state.cur_dir,
        )
    &&& state.selected is None <==> state.items.len() == 0
    &&& state.selected matches Some(i) ==> i < state.items.len()
}

/// The state in which a session starts at `base_dir` with `items` listed.
pub open spec fn started(base_dir: Seq<Seq<char>>, exts: Seq<Seq<char>>, items: Seq<ItemView>)
    -> AppView {
    AppView {
        cur_dir: base_dir,
        base_dir,
        items,
        selected: first_of(items),
        exts,
        exit: false,
    }
}

/// The state after the selection moved up by one: it stays at the first
/// entry.
pub open spec fn after_select_prev(state: AppView) -> AppView {
    AppView {
        selected: match state.selected {
            Some(i) => Some(
                if i == 0 {
                    i
                } else {
                    (i - 1) as usize
                },
            ),
            None => None,
        },
        ..state
    }
}

/// The state after the selection moved down by one: it stays at the last
/// entry.
pub open spec fn after_select_next(state: AppView) -> AppView {
    AppView {
        selected: match state.selected {
            Some(i) => Some(
                if i + 1 < state.items.len() {
                    (i + 1) as usize
                } else {
                    i
                },
            ),
            None => None,
        },
        ..state
    }
}

/// The state after a move to `target`, which was scanned: the target is
/// the current directory, the listing is that of the scan and its first
/// entry is selected. Where the target could not be opened, nothing
/// changes.
pub open spec fn arrived(state: AppView, target: Seq<Seq<char>>, scan: ScanView) -> AppView {
    match listing_of(target, scan, state.exts) {
        Some(items) => AppView { cur_dir: target, items, selected: first_of(items), ..state },
        None => state,
    }
}

/// The state after a move to the selected child: nothing changes unless a
/// directory is selected, nor where that directory could not be opened.
pub open spec fn after_move_to_child(state: AppView, scan: ScanView) -> AppView {
    match child_target(state.selected, state.items) {
        Some(target) => arrived(state, target, scan),
        None => state,
    }
}

/// The directory that a move to the parent leads to from `state`; none at
/// the root, and none where the parent would lie outside the root.
pub open spec fn parent_move(state: AppView, resolved: ResolvedView) -> Option<Seq<Seq<char>>> {
    if at_root(state.cur_dir, state.base_dir, resolved) {
        None
    } else {
        parent_target(state.cur_dir, state.base_dir, resolved)
    }
}

/// The state after a move to the parent: nothing changes at the root, nor
/// where the parent would lie outside the root or could not be opened.
pub open spec fn after_move_to_parent(state: AppView, resolved: ResolvedView, scan: ScanView)
    -> AppView {
    match parent_move(state, resolved) {
        Some(target) => arrived(state, target, scan),
        None => state,
    }
}

/// Whether a move to `target` with `scan` fails: it does where there is a
/// target that could not be opened.
pub open spec fn move_fails(target: Option<Seq<Seq<char>>>, scan: ScanView) -> bool {
    target is Some && scan is Unreadable
}

/// What is left to do after a key: nothing, or a move, for which the
/// caller has to read a directory first.
#[derive(Debug, Clone, Copy, PartialEq, Eq, Structural)]
pub enum Pending {
    Nothing,
    MoveToChild,
    MoveToParent,
}

/// The state after a key, as far as the key can be served without reading
/// a directory.
pub open spec fn after_key(state: AppView, key: Key, pressed: bool) -> AppView {
    match command_of(key, pressed) {
        Some(Command::Exit) => AppView { exit: true, ..state },
        Some(Command::SelectPrev) => after_select_prev(state),
        Some(Command::SelectNext) => after_select_next(state),
        _ => state,
    }
}

/// What a key leaves to do.
pub open spec fn pending_of(key: Key, pressed: bool) -> Pending {
    match command_of(key, pressed) {
        Some(Command::MoveToChild) => Pending::MoveToChild,
        Some(Command::MoveToParent) => Pending::MoveToParent,
        _ => Pending::Nothing,
    }
}

/// Every entry of the listing of a directory is a child of that directory.
pub proof fn lemma_listing_children(dir: Seq<Seq<char>>, scan: ScanView, exts: Seq<Seq<char>>)
    requires
        listing_of(dir, scan, exts) is Some,
    ensures
        forall|i: int|
            0 <= i < listing_of(dir, scan, exts)->0.len() ==> parent_of(
                #[trigger] listing_of(dir, scan, exts)->0[i].path,
            ) == Some(dir),
{
    let items = listing_of(dir, scan, exts)->0;
    let children = scan->Children_0;
    lemma_listing_holds_entries(dir, children, exts);
    assert forall|i: int| 0 <= i < items.len() implies parent_of(#[trigger] items[i].path)
        == Some(dir) by {
        assert(items.contains(items[i]));
        let j = choose|j: int|
            0 <= j < children.len() && #[trigger] entry_of(dir, children[j], exts) == Some(
                items[i],
            );
        let name = items[i].path.last();
        assert(items[i].path =~= dir.push(name));
        lemma_parent_of_child(dir, name);
    }
}

/// What a valid state lists lies within the root.
pub proof fn lemma_entries_within_root(state: AppView, i: int)
    requires
        valid(state),
        0 <= i < state.items.len(),
    ensures
        within(state.items[i].path, state.base_dir),
        state.items[i].path != state.base_dir,
{
    let path = state.items[i].path;
    assert(parent_of(path) == Some(state.cur_dir));
    assert(path =~= state.cur_dir.push(path.last()));
    lemma_parent_of_child(state.cur_dir, path.last());
    lemma_within_transitive(path, state.cur_dir, state.base_dir);
}

/// A move to a directory within the root leaves the state valid.
pub proof fn lemma_arrived_valid(state: AppView, target: Seq<Seq<char>>, scan: ScanView)
    requires
        valid(state),
        within(target, state.base_dir),
    ensures
        valid(arrived(state, target, scan)),
{
    if listing_of(target, scan, state.exts) is Some {
        lemma_listing_children(target, scan, state.exts);
    }
}

/// No command leads out of the root, parts the listing from the current
/// directory or lets the selection leave the listing: each one takes a
/// valid state to a valid state.
pub proof fn lemma_commands_keep_valid(
    state: AppView,
    key: Key,
    pressed: bool,
    resolved: ResolvedView,
    scan: ScanView,
)
    requires
        valid(state),
    ensures
        valid(after_select_prev(state)),
        valid(after_select_next(state)),
        valid(after_move_to_child(state, scan)),
        valid(after_move_to_parent(state, resolved, scan)),
        valid(after_key(state, key, pressed)),
{
    match child_target(state.selected, state.items) {
        Some(target) => {
            lemma_entries_within_root(state, state.selected->0 as int);
            lemma_arrived_valid(state, target, scan);
        },
        None => {},
    }
    match parent_move(state, resolved) {
        Some(target) => {
            lemma_parent_within(state.cur_dir, state.base_dir);
            lemma_arrived_valid(state, target, scan);
        },
        None => {},
    }
}

/// The parent of a directory that lies beneath the root lies within the
/// root.
pub proof fn lemma_parent_within(current: Seq<Seq<char>>, base: Seq<Seq<char>>)
    requires
        within(current, base),
        current != base,
    ensures
        parent_of(current) matches Some(parent) && within(parent, base),
{
    if current.len() == base.len() {
        assert(current =~= base);
    }
    assert(base =~= current.drop_last().subrange(0, base.len() as int));
}

/// Into a subdirectory and back: from a state that shows the listing of
/// its directory, a move into the selected directory and then a move to
/// the parent that is not refused lead back to the directory from which
/// the first move set out; and where that directory is found as it was,
/// the listing is the same as before.
pub proof fn lemma_round_trip(
    state: AppView,
    scan_here: ScanView,
    scan_sub: ScanView,
    resolved: ResolvedView,
)
    requires
        valid(state),
        listing_of(state.cur_dir, scan_here, state.exts) == Some(state.items),
        child_target(state.selected, state.items) is Some,
        scan_sub is Children,
        parent_move(after_move_to_child(state, scan_sub), resolved) is Some,
    ensures
        after_move_to_child(state, scan_sub).cur_dir == child_target(
            state.selected,
            state.items,
        )->0,
        after_move_to_parent(after_move_to_child(state, scan_sub), resolved, scan_here).cur_dir
            == state.cur_dir,
        after_move_to_parent(after_move_to_child(state, scan_sub), resolved, scan_here).items
            == state.items,
{
    let at = state.selected->0 as int;
    assert(parent_of(state.items[at].path) == Some(state.cur_dir));
}

/// A directory with its listing, and the entry that is selected in it.
#[derive(Debug)]
pub struct SizeList {
    dir: DirPath,
    items: Vec<DirItem>,
    selected: Option<usize>,
}

/// The browser's state.
#[derive(Debug)]
pub struct App {
    base_dir: DirPath,
    list: SizeList,
    exts: ExtensionFilter,
    exit: bool,
}

impl View for App {
    type V = AppView;

    closed spec fn view(&self) -> AppView {
        AppView {
            cur_dir: self.list.dir@,
            base_dir: self.base_dir@,
            items: item_views(self.list.items@),
            selected: self.list.selected,
            exts: self.exts@,
            exit: self.exit,
        }
    }
}

impl App {
    #[verifier::type_invariant]
    spec fn well_formed(&self) -> bool {
        valid(self@)
    }

    /// Starts a session at `base_dir`, which was scanned. There is no
    /// session where the directory could not be opened.
    pub fn new(base_dir: DirPath, exts: ExtensionFilter, scan: &DirScan) -> (app: Result<
        App,
        ListError,
    >)
        ensures
            app.is_ok() == listing_of(base_dir@, scan@, exts@).is_some(),
            app matches Ok(a) ==> listing_of(base_dir@, scan@, exts@) == Some(a@.items) && a@
                == started(base_dir@, exts@, a@.items) && valid(a@),
            app matches Err(error) ==> error == ListError::Unreadable,
    {
        match list_dir_items(&base_dir, scan, &exts) {
            Ok(items) => {
                let selected = if items.len() == 0 {
                    None
                } else {
                    Some(0)
                };
                let dir = base_dir.duplicate();
                proof {
                    assert(base_dir@.is_prefix_of(base_dir@));
                    lemma_listing_children(base_dir@, scan@, exts@);
                }
                Ok(App { base_dir, list: SizeList { dir, items, selected }, exts, exit: false })
            },
            Err(error) => Err(error),
        }
    }

    /// The directory that is shown.
    pub fn cur_dir(&self) -> (dir: &DirPath)
        ensures
            dir@ == self@.cur_dir,
    {
        &self.list.dir
    }

    /// The root, which the session never leaves.
    pub fn base_dir(&self) -> (dir: &DirPath)
        ensures
            dir@ == self@.base_dir,
    {
        &self.base_dir
    }

    /// The listing of the directory that is shown.
    pub fn items(&self) -> (items: &Vec<DirItem>)
        ensures
            item_views(items@) == self@.items,
    {
        &self.list.items
    }

    /// The position of the selected entry; none where the listing is empty.
    pub fn selected(&self) -> (selected: Option<usize>)
        ensures
            selected == self@.selected,
            selected is None <==> self@.items.len() == 0,
            selected matches Some(i) ==> i < self@.items.len(),
    {
        proof {
            use_type_invariant(self);
        }
        self.list.selected
    }

    /// The filter of the session.
    pub fn exts(&self) -> (exts: &ExtensionFilter)
        ensures
            exts@ == self@.exts,
    {
        &self.exts
    }

    /// Whether the session is over.
    pub fn should_exit(&self) -> (over: bool)
        ensures
            over == self@.exit,
    {
        self.exit
    }

    /// Ends the session.
    pub fn exit(&mut self)
        ensures
            final(self)@ == (AppView { exit: true, ..old(self)@ }),
    {
        proof {
            use_type_invariant(&*self);
        }
        self.exit = true;
    }

    /// Selects the entry before the selected one; at the first entry
    /// nothing changes.
    pub fn select_prev(&mut self)
        ensures
            final(self)@ == after_select_prev(old(self)@),
            old(self)@.selected == Some(0usize) ==> final(self)@ == old(self)@,
    {
        proof {
            use_type_invariant(&*self);
        }
        match self.list.selected {
            Some(i) => {
                if i > 0 {
                    self.list.selected = Some(i - 1);
                }
            },
            None => {},
        }
    }

    /// Selects the entry behind the selected one; at the last entry
    /// nothing changes.
    pub fn select_next(&mut self)
        ensures
            final(self)@ == after_select_next(old(self)@),
            old(self)@.selected matches Some(i) && i + 1 == old(self)@.items.len() ==> final(self)@ == old(self)@,
    {
        proof {
            use_type_invariant(&*self);
        }
        match self.list.selected {
            Some(i) => {
                let n: usize = self.list.items.len();
                if n > 0 && i < n - 1 {
                    self.list.selected = Some(i + 1);
                }
            },
            None => {},
        }
    }

    /// Whether the directory that is shown is the root.
    pub fn is_at_root(&self, resolved: &Resolved) -> (at: bool)
        ensures
            at == at_root(self@.cur_dir, self@.base_dir, resolved@),
    {
        is_at_root(&self.list.dir, &self.base_dir, resolved)
    }

    /// The directory that a move to the child would lead to, for the caller
    /// to read.
    pub fn child_target(&self) -> (target: Option<DirPath>)
        ensures
            target.is_some() == child_target(self@.selected, self@.items).is_some(),
            target matches Some(t) ==> child_target(self@.selected, self@.items) == Some(t@),
    {
        selected_directory(self.list.selected, &self.list.items)
    }

    /// The directory that a move to the parent would lead to, for the
    /// caller to read.
    pub fn parent_target(&self, resolved: &Resolved) -> (target: Option<DirPath>)
        ensures
            target.is_some() == parent_move(self@, resolved@).is_some(),
            target matches Some(t) ==> parent_move(self@, resolved@) == Some(t@),
    {
        if is_at_root(&self.list.dir, &self.base_dir, resolved) {
            None
        } else {
            move_to_parent(&self.list.dir, &self.base_dir, resolved)
        }
    }

    /// Shows `target`, which was scanned; where it could not be opened,
    /// nothing changes.
    fn arrive(&mut self, target: DirPath, scan: &DirScan) -> (done: Result<(), ListError>)
        requires
            within(target@, old(self)@.base_dir),
        ensures
            final(self)@ == arrived(old(self)@, target@, scan@),
            done.is_err() == (scan@ is Unreadable),
            done matches Err(error) ==> error == ListError::Unreadable,
    {
        proof {
            use_type_invariant(&*self);
            lemma_arrived_valid(self@, target@, scan@);
        }
        match list_dir_items(&target, scan, &self.exts) {
            Ok(items) => {
                let selected = if items.len() == 0 {
                    None
                } else {
                    Some(0)
                };
                self.list = SizeList { dir: target, items, selected };
                Ok(())
            },
            Err(error) => Err(error),
        }
    }

    /// Moves into the selected directory, which was scanned.
    ///
    /// Nothing changes unless a directory is selected. Otherwise that
    /// directory is shown, with the listing that the scan gives and its
    /// first entry selected. Where the directory could not be opened, the
    /// move fails and nothing changes.
    pub fn move_to_child(&mut self, scan: &DirScan) -> (done: Result<(), ListError>)
        ensures
            final(self)@ == after_move_to_child(old(self)@, scan@),
            done.is_err() == move_fails(child_target(old(self)@.selected, old(self)@.items), scan@),
            child_target(old(self)@.selected, old(self)@.items) is None ==> final(self)@ == old(self)@,
            old(self)@.selected matches Some(i) && old(self)@.items[i as int].kind
                == EntryKind::File ==> final(self)@ == old(self)@,
            done is Err ==> final(self)@ == old(self)@,
            done matches Err(error) ==> error == ListError::Unreadable,
            valid(final(self)@),
    {
        proof {
            use_type_invariant(&*self);
            lemma_commands_keep_valid(
                self@,
                Key::Other,
                false,
                ResolvedView { current: None, base: None, parent: None },
                scan@,
            );
        }
        match selected_directory(self.list.selected, &self.list.items) {
            Some(target) => {
                proof {
                    lemma_entries_within_root(self@, self@.selected->0 as int);
                }
                self.arrive(target, scan)
            },
            None => Ok(()),
        }
    }

    /// Moves to the parent directory, which was scanned.
    ///
    /// Nothing changes at the root, nor where the parent would lie outside
    /// the root. Otherwise the parent is shown, with the listing that the
    /// scan gives and its first entry selected. Where the parent could not
    /// be opened, the move fails and nothing changes.
    pub fn move_to_parent(&mut self, resolved: &Resolved, scan: &DirScan) -> (done: Result<
        (),
        ListError,
    >)
        ensures
            final(self)@ == after_move_to_parent(old(self)@, resolved@, scan@),
            done.is_err() == move_fails(parent_move(old(self)@, resolved@), scan@),
            old(self)@.cur_dir == old(self)@.base_dir ==> final(self)@ == old(self)@,
            done is Err ==> final(self)@ == old(self)@,
            done matches Err(error) ==> error == ListError::Unreadable,
            valid(final(self)@),
    {
        proof {
            use_type_invariant(&*self);
            lemma_commands_keep_valid(self@, Key::Other, false, resolved@, scan@);
        }
        match self.parent_target(resolved) {
            Some(target) => {
                proof {
                    lemma_parent_within(self@.cur_dir, self@.base_dir);
                }
                self.arrive(target, scan)
            },
            None => Ok(()),
        }
    }

    /// Serves a key as far as that needs no directory read, and says what
    /// is left to do: for a move, the caller reads the directory that the
    /// move leads to and calls the move.
    pub fn handle_key(&mut self, key: Key, pressed: bool) -> (pending: Pending)
        ensures
            final(self)@ == after_key(old(self)@, key, pressed),
            pending == pending_of(key, pressed),
    {
        match crate::ui::command_for(key, pressed) {
            Some(Command::Exit) => {
                self.exit();
                Pending::Nothing
            },
            Some(Command::SelectPrev) => {
                self.select_prev();
                Pending::Nothing
            },
            Some(Command::SelectNext) => {
                self.select_next();
                Pending::Nothing
            },
            Some(Command::MoveToChild) => Pending::MoveToChild,
            Some(Command::MoveToParent) => Pending::MoveToParent,
            None => Pending::Nothing,
        }
    }
}

} // verus!
