use codevol::app::{App, Pending};
use codevol::directory::{ChildScan, DirItem, DirScan, EntryKind, FileScan, ListError};
use codevol::filter::ExtensionFilter;
use codevol::path::DirPath;
use codevol::ui::{
    canonicalize_path, command_for, handle_event, is_at_root, move_to_parent, selected_directory,
    Command, Key, Resolved,
};

fn path(components: &[&str]) -> DirPath {
    DirPath::new(components.iter().map(|c| c.to_string()).collect())
}

fn filter(extensions: &[&str]) -> ExtensionFilter {
    ExtensionFilter::new(extensions.iter().map(|e| e.to_string()).collect())
}

fn file(name: &str, lines: usize) -> FileScan {
    FileScan { name: name.to_string(), content: Some("line\n".repeat(lines)) }
}

fn item(components: &[&str], kind: EntryKind, count: usize) -> DirItem {
    DirItem { path: path(components), count, kind }
}

fn unresolved() -> Resolved {
    Resolved { current: None, base: None, parent: None }
}

fn scan_root() -> DirScan {
    DirScan::Children(vec![
        ChildScan::File(file("a.ts", 3)),
        ChildScan::Directory {
            name: "sub".to_string(),
            files: vec![file("b.ts", 5), file("c.txt", 2)],
        },
    ])
}

fn scan_sub() -> DirScan {
    DirScan::Children(vec![ChildScan::File(file("b.ts", 5)), ChildScan::File(file("c.txt", 2))])
}

fn session() -> App {
    App::new(path(&["/", "p"]), filter(&[]), &scan_root()).unwrap()
}

#[test]
fn session_starts_at_the_root_with_the_first_entry_selected() {
    let app = session();
    assert_eq!(app.cur_dir(), &path(&["/", "p"]));
    assert_eq!(app.base_dir(), &path(&["/", "p"]));
    assert_eq!(app.selected(), Some(0));
    assert_eq!(app.exts(), &filter(&[]));
    assert!(!app.should_exit());
    assert_eq!(
        app.items(),
        &vec![
            item(&["/", "p", "sub"], EntryKind::Directory, 7),
            item(&["/", "p", "a.ts"], EntryKind::File, 3),
        ]
    );
}

#[test]
fn session_does_not_start_at_an_unreadable_root() {
    let app = App::new(path(&["/", "gone"]), filter(&[]), &DirScan::Unreadable);
    assert_eq!(app.err(), Some(ListError::Unreadable));
}

#[test]
fn session_in_an_empty_root_selects_nothing() {
    let mut app = App::new(path(&["/", "p"]), filter(&[]), &DirScan::Children(vec![])).unwrap();
    assert_eq!(app.selected(), None);
    app.select_next();
    assert_eq!(app.selected(), None);
    app.select_prev();
    assert_eq!(app.selected(), None);
    assert_eq!(app.child_target(), None);
    assert_eq!(app.move_to_child(&scan_sub()), Ok(()));
    assert_eq!(app.cur_dir(), &path(&["/", "p"]));
}

#[test]
fn left_at_the_root_changes_nothing() {
    let mut app = session();
    assert_eq!(app.handle_key(Key::Left, true), Pending::MoveToParent);
    assert!(app.is_at_root(&unresolved()));
    assert_eq!(app.parent_target(&unresolved()), None);
    assert_eq!(app.move_to_parent(&unresolved(), &DirScan::Children(vec![])), Ok(()));
    assert_eq!(app.cur_dir(), &path(&["/", "p"]));
    assert_eq!(app.selected(), Some(0));
    assert_eq!(app.items().len(), 2);
}

#[test]
fn right_on_a_directory_enters_it() {
    let mut app = session();
    assert_eq!(app.handle_key(Key::Right, true), Pending::MoveToChild);
    assert_eq!(app.child_target(), Some(path(&["/", "p", "sub"])));
    assert_eq!(app.move_to_child(&scan_sub()), Ok(()));
    assert_eq!(app.cur_dir(), &path(&["/", "p", "sub"]));
    assert_eq!(app.selected(), Some(0));
    assert_eq!(
        app.items(),
        &vec![
            item(&["/", "p", "sub", "b.ts"], EntryKind::File, 5),
            item(&["/", "p", "sub", "c.txt"], EntryKind::File, 2),
        ]
    );
}

#[test]
fn right_on_a_file_changes_nothing() {
    let mut app = session();
    app.select_next();
    assert_eq!(app.selected(), Some(1));
    assert_eq!(app.child_target(), None);
    assert_eq!(app.move_to_child(&scan_sub()), Ok(()));
    assert_eq!(app.cur_dir(), &path(&["/", "p"]));
    assert_eq!(app.selected(), Some(1));
    assert_eq!(app.items().len(), 2);
    assert_eq!(app.items()[1], item(&["/", "p", "a.ts"], EntryKind::File, 3));
}

#[test]
fn selection_stops_at_both_ends() {
    let mut app = session();
    app.select_prev();
    assert_eq!(app.selected(), Some(0));
    app.select_next();
    assert_eq!(app.selected(), Some(1));
    app.select_next();
    assert_eq!(app.selected(), Some(1));
    app.select_prev();
    assert_eq!(app.selected(), Some(0));
}

#[test]
fn into_a_directory_and_back() {
    let mut app = session();
    let before: Vec<DirItem> = app.items().clone();
    assert_eq!(app.move_to_child(&scan_sub()), Ok(()));
    assert!(!app.is_at_root(&unresolved()));
    assert_eq!(app.parent_target(&unresolved()), Some(path(&["/", "p"])));
    assert_eq!(app.move_to_parent(&unresolved(), &scan_root()), Ok(()));
    assert_eq!(app.cur_dir(), &path(&["/", "p"]));
    assert_eq!(app.items(), &before);
    assert_eq!(app.selected(), Some(0));
}

#[test]
fn move_to_an_unreadable_directory_fails_and_changes_nothing() {
    let mut app = session();
    let before: Vec<DirItem> = app.items().clone();
    assert_eq!(app.move_to_child(&DirScan::Unreadable), Err(ListError::Unreadable));
    assert_eq!(app.cur_dir(), &path(&["/", "p"]));
    assert_eq!(app.items(), &before);
    assert_eq!(app.selected(), Some(0));

    assert_eq!(app.move_to_child(&scan_sub()), Ok(()));
    app.select_next();
    let inside: Vec<DirItem> = app.items().clone();
    assert_eq!(app.move_to_parent(&unresolved(), &DirScan::Unreadable), Err(ListError::Unreadable));
    assert_eq!(app.cur_dir(), &path(&["/", "p", "sub"]));
    assert_eq!(app.items(), &inside);
    assert_eq!(app.selected(), Some(1));
}

#[test]
fn listed_entries_are_children_of_the_current_directory() {
    let mut app = session();
    for scan in [DirScan::Unreadable, scan_sub(), DirScan::Unreadable] {
        let _ = app.move_to_child(&scan);
        for entry in app.items() {
            assert_eq!(entry.path.parent().as_ref(), Some(app.cur_dir()));
        }
    }
    let _ = app.move_to_parent(&unresolved(), &DirScan::Unreadable);
    let _ = app.move_to_parent(&unresolved(), &scan_root());
    for entry in app.items() {
        assert_eq!(entry.path.parent().as_ref(), Some(app.cur_dir()));
    }
    assert_eq!(app.cur_dir(), &path(&["/", "p"]));
}

#[test]
fn move_to_parent_is_refused_where_the_parent_resolves_outside_the_root() {
    let mut app = session();
    assert_eq!(app.move_to_child(&scan_sub()), Ok(()));
    let outside = Resolved {
        current: Some(path(&["/", "p", "sub"])),
        base: Some(path(&["/", "p"])),
        parent: Some(path(&["/", "elsewhere"])),
    };
    assert_eq!(app.parent_target(&outside), None);
    assert_eq!(app.move_to_parent(&outside, &scan_root()), Ok(()));
    assert_eq!(app.cur_dir(), &path(&["/", "p", "sub"]));
    assert_eq!(app.items().len(), 2);
}

#[test]
fn move_to_parent_is_refused_where_the_directory_resolves_to_the_root() {
    let mut app = session();
    assert_eq!(app.move_to_child(&scan_sub()), Ok(()));
    let looped = Resolved {
        current: Some(path(&["/", "real"])),
        base: Some(path(&["/", "real"])),
        parent: Some(path(&["/", "real"])),
    };
    assert!(app.is_at_root(&looped));
    assert_eq!(app.move_to_parent(&looped, &scan_root()), Ok(()));
    assert_eq!(app.cur_dir(), &path(&["/", "p", "sub"]));
}

#[test]
fn keys_select_and_exit() {
    let mut app = session();
    assert_eq!(app.handle_key(Key::Down, true), Pending::Nothing);
    assert_eq!(app.selected(), Some(1));
    assert_eq!(app.handle_key(Key::Up, true), Pending::Nothing);
    assert_eq!(app.selected(), Some(0));
    assert_eq!(app.handle_key(Key::Down, false), Pending::Nothing);
    assert_eq!(app.selected(), Some(0));
    assert_eq!(app.handle_key(Key::Char('x'), true), Pending::Nothing);
    assert!(!app.should_exit());
    assert_eq!(app.handle_key(Key::Char('q'), true), Pending::Nothing);
    assert!(app.should_exit());
    let mut other = session();
    assert_eq!(other.handle_key(Key::Esc, true), Pending::Nothing);
    assert!(other.should_exit());
    let mut third = session();
    third.exit();
    assert!(third.should_exit());
}

#[test]
fn keys_stand_for_commands() {
    assert_eq!(command_for(Key::Up, true), Some(Command::SelectPrev));
    assert_eq!(command_for(Key::Down, true), Some(Command::SelectNext));
    assert_eq!(command_for(Key::Left, true), Some(Command::MoveToParent));
    assert_eq!(command_for(Key::Right, true), Some(Command::MoveToChild));
    assert_eq!(command_for(Key::Esc, true), Some(Command::Exit));
    assert_eq!(command_for(Key::Char('q'), true), Some(Command::Exit));
    assert_eq!(command_for(Key::Char('Q'), true), None);
    assert_eq!(command_for(Key::Other, true), None);
    assert_eq!(command_for(Key::Up, false), None);
    assert_eq!(command_for(Key::Esc, false), None);
}

#[test]
fn canonicalize_falls_back_to_the_path_as_written() {
    let written = path(&["p", "sub"]);
    assert_eq!(canonicalize_path(&written, &None), written);
    assert_eq!(
        canonicalize_path(&written, &Some(path(&["/", "home", "p", "sub"]))),
        path(&["/", "home", "p", "sub"])
    );
}

#[test]
fn at_root_as_written_or_as_resolved() {
    let root = path(&["p"]);
    assert!(is_at_root(&root, &root, &unresolved()));
    assert!(!is_at_root(&path(&["p", "sub"]), &root, &unresolved()));
    let same_place = Resolved {
        current: Some(path(&["/", "home", "p"])),
        base: Some(path(&["/", "home", "p"])),
        parent: None,
    };
    assert!(is_at_root(&path(&["p", "link"]), &root, &same_place));
    let apart = Resolved {
        current: Some(path(&["/", "home", "p", "sub"])),
        base: Some(path(&["/", "home", "p"])),
        parent: None,
    };
    assert!(!is_at_root(&path(&["p", "sub"]), &root, &apart));
}

#[test]
fn parent_move_stays_within_the_root() {
    let root = path(&["/", "p"]);
    assert_eq!(
        move_to_parent(&path(&["/", "p", "sub", "deep"]), &root, &unresolved()),
        Some(path(&["/", "p", "sub"]))
    );
    assert_eq!(move_to_parent(&path(&["/", "p", "sub"]), &root, &unresolved()), Some(root.clone()));
    assert_eq!(move_to_parent(&root, &root, &unresolved()), None);
    assert_eq!(move_to_parent(&path(&[]), &path(&[]), &unresolved()), None);
    let escaped = Resolved { current: None, base: None, parent: Some(path(&["/", "etc"])) };
    assert_eq!(move_to_parent(&path(&["/", "p", "sub"]), &root, &escaped), None);
    let sibling = Resolved { current: None, base: None, parent: Some(path(&["/", "pq"])) };
    assert_eq!(move_to_parent(&path(&["/", "p", "sub"]), &root, &sibling), None);
}

#[test]
fn selected_directory_needs_a_directory() {
    let items = vec![
        item(&["p", "sub"], EntryKind::Directory, 7),
        item(&["p", "a.ts"], EntryKind::File, 3),
    ];
    assert_eq!(selected_directory(Some(0), &items), Some(path(&["p", "sub"])));
    assert_eq!(selected_directory(Some(1), &items), None);
    assert_eq!(selected_directory(Some(2), &items), None);
    assert_eq!(selected_directory(None, &items), None);
}

#[test]
fn event_leads_to_the_next_directory() {
    let root = path(&["p"]);
    let items = vec![
        item(&["p", "sub"], EntryKind::Directory, 7),
        item(&["p", "a.ts"], EntryKind::File, 3),
    ];
    let none = unresolved();
    assert_eq!(handle_event(Key::Left, &root, &root, &none, Some(0), &items), None);
    assert_eq!(
        handle_event(Key::Left, &path(&["p", "sub"]), &root, &none, Some(0), &items),
        Some(root.clone())
    );
    assert_eq!(
        handle_event(Key::Right, &root, &root, &none, Some(0), &items),
        Some(path(&["p", "sub"]))
    );
    assert_eq!(handle_event(Key::Right, &root, &root, &none, Some(1), &items), None);
    assert_eq!(handle_event(Key::Right, &root, &root, &none, None, &items), None);
    assert_eq!(handle_event(Key::Up, &root, &root, &none, Some(0), &items), None);
    assert_eq!(handle_event(Key::Char('q'), &root, &root, &none, Some(0), &items), None);
}
