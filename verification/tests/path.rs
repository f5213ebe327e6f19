use codevol::path::DirPath;

fn path(components: &[&str]) -> DirPath {
    DirPath::new(components.iter().map(|c| c.to_string()).collect())
}

#[test]
fn join_appends_a_component() {
    assert_eq!(path(&["/", "p"]).join("sub"), path(&["/", "p", "sub"]));
    assert_eq!(path(&[]).join("src"), path(&["src"]));
}

#[test]
fn parent_drops_the_last_component() {
    assert_eq!(path(&["/", "p", "sub"]).parent(), Some(path(&["/", "p"])));
    assert_eq!(path(&["src"]).parent(), Some(path(&[])));
    assert_eq!(path(&[]).parent(), None);
}

#[test]
fn parent_of_a_child_is_the_directory() {
    let dir = path(&["/", "p"]);
    assert_eq!(dir.join("sub").parent(), Some(dir));
}

#[test]
fn starts_with_compares_whole_components() {
    let base = path(&["/", "p"]);
    assert!(path(&["/", "p"]).starts_with(&base));
    assert!(path(&["/", "p", "sub", "deep"]).starts_with(&base));
    assert!(!path(&["/", "pq"]).starts_with(&base));
    assert!(!path(&["/"]).starts_with(&base));
    assert!(!path(&["/", "q", "p"]).starts_with(&base));
    assert!(path(&["/", "p"]).starts_with(&path(&[])));
}

#[test]
fn equals_compares_component_by_component() {
    assert!(path(&["/", "p"]).equals(&path(&["/", "p"])));
    assert!(!path(&["/", "p"]).equals(&path(&["/", "p", "sub"])));
    assert!(!path(&["/", "p"]).equals(&path(&["/", "q"])));
    assert!(path(&[]).equals(&path(&[])));
}

#[test]
fn duplicate_copies_the_components() {
    let p = path(&["/", "p", "sub"]);
    assert_eq!(p.len(), 3);
    assert_eq!(p.duplicate(), p);
    assert_eq!(path(&[]).duplicate().len(), 0);
}
