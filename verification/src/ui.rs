//! Keys, and where a key leads.
//!
//! Nothing here touches the file system. Where a decision rests on the
//! place that a path really names, the caller resolves the paths and hands
//! the answers over as a [`Resolved`].

use crate::directory::{DirItem, EntryKind, ItemView, item_views};
use crate::path::{parent_of, within, DirPath};
use vstd::prelude::*;

verus! {

/// A key of the keyboard, as far as the browser tells keys apart.
#[derive(Debug, Clone, Copy, PartialEq, Eq, Structural)]
pub enum Key {
    Up,
    Down,
    Left,
    Right,
    Esc,
    Char(char),
    Other,
}

/// What the user can ask for.
#[derive(Debug, Clone, Copy, PartialEq, Eq, Structural)]
pub enum Command {
    SelectPrev,
    SelectNext,
    MoveToParent,
    MoveToChild,
    Exit,
}

/// The command that a key stands for: the arrows select and move, `q` and
/// escape leave, every other key means nothing. Only a key that is pressed
/// counts, not one that is held or let go.
pub open spec fn command_of(key: Key, pressed: bool) -> Option<Command> {
    if !pressed {
        None
    } else {
        match key {
            Key::Up => Some(Command::SelectPrev),
            Key::Down => Some(Command::SelectNext),
            Key::Left => Some(Command::MoveToParent),
            Key::Right => Some(Command::MoveToChild),
            Key::Esc => Some(Command::Exit),
            Key::Char(c) => if c == 'q' {
                Some(Command::Exit)
            } else {
                None
            },
            Key::Other => None,
        }
    }
}

/// The command that `key` stands for.
pub fn command_for(key: Key, pressed: bool) -> (command: Option<Command>)
    ensures
        command == command_of(key, pressed),
{
    if !pressed {
        return None;
    }
    match key {
        Key::Up => Some(Command::SelectPrev),
        Key::Down => Some(Command::SelectNext),
        Key::Left => Some(Command::MoveToParent),
        Key::Right => Some(Command::MoveToChild),
        Key::Esc => Some(Command::Exit),
        Key::Char(c) => if c == 'q' {
            Some(Command::Exit)
        } else {
            None
        },
        Key::Other => None,
    }
}

/// Where three paths really lie: the current directory, the root, and the
/// parent of the current directory. Each is `None` where the file system
/// could not say, or where there is no such path.
#[derive(Debug, Clone, PartialEq, Eq)]
pub struct Resolved {
    pub current: Option<DirPath>,
    pub base: Option<DirPath>,
    pub parent: Option<DirPath>,
}

/// A `Resolved` as a value of the model.
pub struct ResolvedView {
    pub current: Option<Seq<Seq<char>>>,
    pub base: Option<Seq<Seq<char>>>,
    pub parent: Option<Seq<Seq<char>>>,
}

/// A resolved path as a value of the model.
pub open spec fn resolved_view(resolved: Option<DirPath>) -> Option<Seq<Seq<char>>> {
    match resolved {
        Some(path) => Some(path@),
        None => None,
    }
}

impl View for Resolved {
    type V = ResolvedView;

    open spec fn view(&self) -> ResolvedView {
        ResolvedView {
            current: resolved_view(self.current),
            base: resolved_view(self.base),
            parent: resolved_view(self.parent),
        }
    }
}

/// The place that a path names: the resolved one, or the path as written
/// where it could not be resolved.
pub open spec fn canonical(path: Seq<Seq<char>>, resolved: Option<Seq<Seq<char>>>) -> Seq<
    Seq<char>,
> {
    match resolved {
        Some(place) => place,
        None => path,
    }
}

/// The current directory is the root: as written, or because both name
/// the same place.
pub open spec fn at_root(current: Seq<Seq<char>>, base: Seq<Seq<char>>, resolved: ResolvedView)
    -> bool {
    current == base || canonical(current, resolved.current) == canonical(base, resolved.base)
}

/// The directory that a move to the parent leads to: the parent as
/// written, provided that the place it names is the root or lies beneath
/// it. There is none for a path without a parent.
pub open spec fn parent_target(
    current: Seq<Seq<char>>,
    base: Seq<Seq<char>>,
    resolved: ResolvedView,
) -> Option<Seq<Seq<char>>> {
    match parent_of(current) {
        Some(parent) => if within(
            canonical(parent, resolved.parent),
            canonical(base, resolved.base),
        ) {
            Some(parent)
        } else {
            None
        },
        None => None,
    }
}

/// The directory that a move to the child leads to: the selected entry,
/// provided that there is one and that it is a directory.
pub open spec fn child_target(selected: Option<usize>, items: Seq<ItemView>) -> Option<
    Seq<Seq<char>>,
> {
    match selected {
        Some(i) => if i < items.len() && items[i as int].kind == EntryKind::Directory {
            Some(items[i as int].path)
        } else {
            None
        },
        None => None,
    }
}

/// The directory that a key leads to, if it leads anywhere: left to the
/// parent unless the current directory is the root, right to the selected
/// child.
pub open spec fn destination(
    key: Key,
    current: Seq<Seq<char>>,
    base: Seq<Seq<char>>,
    resolved: ResolvedView,
    selected: Option<usize>,
    items: Seq<ItemView>,
) -> Option<Seq<Seq<char>>> {
    match key {
        Key::Left => if at_root(current, base, resolved) {
            None
        } else {
            parent_target(current, base, resolved)
        },
        Key::Right => child_target(selected, items),
        _ => None,
    }
}

/// The place that `path` names, given what the file system said of it.
pub fn canonicalize_path(path: &DirPath, resolved: &Option<DirPath>) -> (place: DirPath)
    ensures
        place@ == canonical(path@, resolved_view(*resolved)),
{
    match resolved {
        Some(place) => place.duplicate(),
        None => path.duplicate(),
    }
}

/// Whether the current directory is the root.
pub fn is_at_root(current_dir: &DirPath, base: &DirPath, resolved: &Resolved) -> (at: bool)
    ensures
        at == at_root(current_dir@, base@, resolved@),
{
    if current_dir.equals(base) {
        return true;
    }
    let canon_current = canonicalize_path(current_dir, &resolved.current);
    let canon_base = canonicalize_path(base, &resolved.base);
    canon_current.equals(&canon_base)
}

/// The parent of the current directory, unless that would lead out of the
/// root.
pub fn move_to_parent(current_dir: &DirPath, base: &DirPath, resolved: &Resolved) -> (target:
    Option<DirPath>)
    ensures
        target.is_some() == parent_target(current_dir@, base@, resolved@).is_some(),
        target matches Some(t) ==> parent_target(current_dir@, base@, resolved@) == Some(t@),
{
    match current_dir.parent() {
        Some(parent) => {
            let canon_parent = canonicalize_path(&parent, &resolved.parent);
            let canon_base = canonicalize_path(base, &resolved.base);
            if canon_parent.starts_with(&canon_base) {
                Some(parent)
            } else {
                None
            }
        },
        None => None,
    }
}

/// The selected entry's path, where that entry is a directory.
pub fn selected_directory(selected: Option<usize>, items: &Vec<DirItem>) -> (target: Option<
    DirPath,
>)
    ensures
        target.is_some() == child_target(selected, item_views(items@)).is_some(),
        target matches Some(t) ==> child_target(selected, item_views(items@)) == Some(t@),
{
    match selected {
        Some(i) => {
            if i < items.len() {
                match items[i].kind {
                    EntryKind::Directory => Some(items[i].path.duplicate()),
                    EntryKind::File => None,
                }
            } else {
                None
            }
        },
        None => None,
    }
}

/// The directory to show next after `key`, if the key leads anywhere.
pub fn handle_event(
    key: Key,
    current_dir: &DirPath,
    base: &DirPath,
    resolved: &Resolved,
    selected: Option<usize>,
    items: &Vec<DirItem>,
) -> (target: Option<DirPath>)
    ensures
        target.is_some() == destination(
            key,
            current_dir@,
            base@,
            resolved@,
            selected,
            item_views(items@),
        ).is_some(),
        target matches Some(t) ==> destination(
            key,
            current_dir@,
            base@,
            resolved@,
            selected,
            item_views(items@),
        ) == Some(t@),
{
    match key {
        Key::Left => {
            if is_at_root(current_dir, base, resolved) {
                return None;
            }
            move_to_parent(current_dir, base, resolved)
        },
        Key::Right => selected_directory(selected, items),
        _ => None,
    }
}

} // verus!
