use codevol::directory::{
    insert_ranked, list_dir_items, process_directory, process_file, sum_lines_in_directory,
    ChildScan, DirItem, DirScan, EntryKind, FileScan, ListError,
};
use codevol::filter::ExtensionFilter;
use codevol::path::DirPath;

fn path(components: &[&str]) -> DirPath {
    DirPath::new(components.iter().map(|c| c.to_string()).collect())
}

fn filter(extensions: &[&str]) -> ExtensionFilter {
    ExtensionFilter::new(extensions.iter().map(|e| e.to_string()).collect())
}

fn text(lines: usize) -> String {
    "line\n".repeat(lines)
}

fn file(name: &str, lines: usize) -> FileScan {
    FileScan { name: name.to_string(), content: Some(text(lines)) }
}

fn unreadable(name: &str) -> FileScan {
    FileScan { name: name.to_string(), content: None }
}

fn dir(name: &str, files: Vec<FileScan>) -> ChildScan {
    ChildScan::Directory { name: name.to_string(), files }
}

fn item(components: &[&str], kind: EntryKind, count: usize) -> DirItem {
    DirItem { path: path(components), count, kind }
}

/// `/p` with `a.ts` of 3 lines and `sub/` with `b.ts` of 5 and `c.txt` of 2.
fn project() -> DirScan {
    DirScan::Children(vec![
        ChildScan::File(file("a.ts", 3)),
        dir("sub", vec![file("b.ts", 5), file("c.txt", 2)]),
    ])
}

#[test]
fn listing_counts_only_filtered_files() {
    let listing = list_dir_items(&path(&["/", "p"]), &project(), &filter(&["ts"]));
    assert_eq!(
        listing,
        Ok(vec![
            item(&["/", "p", "sub"], EntryKind::Directory, 5),
            item(&["/", "p", "a.ts"], EntryKind::File, 3),
        ])
    );
}

#[test]
fn listing_with_empty_filter_counts_every_file() {
    let listing = list_dir_items(&path(&["/", "p"]), &project(), &filter(&[]));
    assert_eq!(
        listing,
        Ok(vec![
            item(&["/", "p", "sub"], EntryKind::Directory, 7),
            item(&["/", "p", "a.ts"], EntryKind::File, 3),
        ])
    );
}

#[test]
fn listing_of_the_subdirectory() {
    let scan = DirScan::Children(vec![
        ChildScan::File(file("c.txt", 2)),
        ChildScan::File(file("b.ts", 5)),
    ]);
    let listing = list_dir_items(&path(&["/", "p", "sub"]), &scan, &filter(&[]));
    assert_eq!(
        listing,
        Ok(vec![
            item(&["/", "p", "sub", "b.ts"], EntryKind::File, 5),
            item(&["/", "p", "sub", "c.txt"], EntryKind::File, 2),
        ])
    );
}

#[test]
fn unreadable_directory_has_no_listing() {
    let listing = list_dir_items(&path(&["/", "gone"]), &DirScan::Unreadable, &filter(&[]));
    assert_eq!(listing, Err(ListError::Unreadable));
}

#[test]
fn empty_directory_has_an_empty_listing() {
    let listing = list_dir_items(&path(&["/", "p"]), &DirScan::Children(vec![]), &filter(&[]));
    assert_eq!(listing, Ok(vec![]));
}

#[test]
fn directory_without_matching_files_is_listed_with_zero() {
    let scan = DirScan::Children(vec![
        dir("docs", vec![file("readme.md", 9)]),
        dir("empty", vec![]),
        ChildScan::File(file("notes.md", 4)),
    ]);
    let listing = list_dir_items(&path(&["p"]), &scan, &filter(&["ts"]));
    assert_eq!(
        listing,
        Ok(vec![
            item(&["p", "docs"], EntryKind::Directory, 0),
            item(&["p", "empty"], EntryKind::Directory, 0),
        ])
    );
}

#[test]
fn unknown_children_are_skipped() {
    let scan = DirScan::Children(vec![
        ChildScan::Unknown,
        ChildScan::File(file("a.ts", 1)),
        ChildScan::Unknown,
    ]);
    let listing = list_dir_items(&path(&["p"]), &scan, &filter(&[]));
    assert_eq!(listing, Ok(vec![item(&["p", "a.ts"], EntryKind::File, 1)]));
}

#[test]
fn unreadable_file_counts_zero() {
    let scan = DirScan::Children(vec![
        ChildScan::File(unreadable("blob.ts")),
        dir("sub", vec![unreadable("x.ts"), file("y.ts", 2)]),
    ]);
    let listing = list_dir_items(&path(&["p"]), &scan, &filter(&["ts"]));
    assert_eq!(
        listing,
        Ok(vec![
            item(&["p", "sub"], EntryKind::Directory, 2),
            item(&["p", "blob.ts"], EntryKind::File, 0),
        ])
    );
}

#[test]
fn listing_is_sorted_and_keeps_ties_in_scan_order() {
    let scan = DirScan::Children(vec![
        ChildScan::File(file("one.rs", 1)),
        ChildScan::File(file("five_a.rs", 5)),
        dir("three", vec![file("x.rs", 3)]),
        ChildScan::File(file("five_b.rs", 5)),
        dir("five_c", vec![file("x.rs", 2), file("y.rs", 3)]),
        ChildScan::File(file("zero.rs", 0)),
        ChildScan::File(file("nine.rs", 9)),
    ]);
    let listing = list_dir_items(&path(&["p"]), &scan, &filter(&["rs"])).unwrap();
    let names: Vec<String> =
        listing.iter().map(|it| it.path.components.last().unwrap().clone()).collect();
    assert_eq!(names, ["nine.rs", "five_a.rs", "five_b.rs", "five_c", "three", "one.rs", "zero.rs"]);
    for pair in listing.windows(2) {
        assert!(pair[0].count >= pair[1].count);
    }
}

#[test]
fn sum_adds_the_lines_of_matching_files() {
    let files = vec![file("a.ts", 3), file("b.txt", 10), file("c.ts", 4), unreadable("d.ts")];
    assert_eq!(sum_lines_in_directory(&files, &filter(&["ts"])), 7);
    assert_eq!(sum_lines_in_directory(&files, &filter(&[])), 17);
    assert_eq!(sum_lines_in_directory(&files, &filter(&["rs"])), 0);
    assert_eq!(sum_lines_in_directory(&vec![], &filter(&[])), 0);
}

#[test]
fn file_scan_counts_its_lines() {
    assert_eq!(file("a.ts", 3).lines(), 3);
    assert_eq!(unreadable("a.ts").lines(), 0);
    assert_eq!(FileScan { name: "a".to_string(), content: Some("x\ny".to_string()) }.lines(), 1);
}

#[test]
fn process_directory_totals_the_files_beneath() {
    let files = vec![file("b.ts", 5), file("c.txt", 2)];
    assert_eq!(
        process_directory(path(&["/", "p", "sub"]), &files, &filter(&["ts"])),
        item(&["/", "p", "sub"], EntryKind::Directory, 5)
    );
    assert_eq!(
        process_directory(path(&["/", "p", "sub"]), &files, &filter(&[])),
        item(&["/", "p", "sub"], EntryKind::Directory, 7)
    );
}

#[test]
fn file_without_final_line_feed_counts_its_line_feeds() {
    let file = FileScan { name: "a.ts".to_string(), content: Some("x\ny".to_string()) };
    assert_eq!(
        process_file(&path(&["/", "p"]), &file, &filter(&["ts"])),
        Some(item(&["/", "p", "a.ts"], EntryKind::File, 1))
    );
    let scan = DirScan::Children(vec![ChildScan::File(file.clone()), dir("sub", vec![file])]);
    assert_eq!(
        list_dir_items(&path(&["/", "p"]), &scan, &filter(&["ts"])),
        Ok(vec![
            item(&["/", "p", "a.ts"], EntryKind::File, 1),
            item(&["/", "p", "sub"], EntryKind::Directory, 1),
        ])
    );
}

#[test]
fn process_file_gives_an_entry_for_a_matching_file() {
    let dir = path(&["/", "p"]);
    assert_eq!(
        process_file(&dir, &file("a.ts", 3), &filter(&["ts"])),
        Some(item(&["/", "p", "a.ts"], EntryKind::File, 3))
    );
    assert_eq!(process_file(&dir, &file("c.txt", 2), &filter(&["ts"])), None);
    assert_eq!(
        process_file(&dir, &file("Makefile", 2), &filter(&[])),
        Some(item(&["/", "p", "Makefile"], EntryKind::File, 2))
    );
}

#[test]
fn insert_ranked_puts_an_entry_behind_its_equals() {
    let mut items = vec![
        item(&["a"], EntryKind::File, 9),
        item(&["b"], EntryKind::File, 5),
        item(&["c"], EntryKind::File, 1),
    ];
    insert_ranked(&mut items, item(&["d"], EntryKind::Directory, 5));
    insert_ranked(&mut items, item(&["e"], EntryKind::File, 10));
    insert_ranked(&mut items, item(&["f"], EntryKind::File, 0));
    let names: Vec<&str> = items.iter().map(|it| it.path.components[0].as_str()).collect();
    assert_eq!(names, ["e", "a", "b", "d", "c", "f"]);
}
