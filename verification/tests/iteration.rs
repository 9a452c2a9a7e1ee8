use sandbox_fs::dir_iter::DirIterator;
use sandbox_fs::dir_source::EntryKind;
use sandbox_fs::errors::FsError;
use sandbox_fs::fs::Sandbox;

fn bytes(s: &str) -> Vec<u8> {
    s.as_bytes().to_vec()
}

fn sandbox() -> Sandbox {
    Sandbox::new(&bytes("/sandbox")).unwrap()
}

#[test]
fn iteration_yields_exactly_the_children() {
    let mut sb = sandbox();
    sb.create_dir(&bytes("top")).unwrap();
    let names = ["crypto", "logging", "utils", "vm", "messenger", "net"];
    for n in names.iter() {
        let mut raw = bytes("top/");
        raw.extend_from_slice(n.as_bytes());
        sb.create_dir(&raw).unwrap();
    }
    let w = sb.open_for_write(&bytes("top/build.txt")).unwrap();
    w.close(&mut sb).unwrap();

    let mut seen: Vec<Vec<u8>> = Vec::new();
    let mut it = DirIterator::new(&bytes("top"), false).unwrap();
    while let Some(e) = it.next(&sb) {
        assert!(!seen.contains(&e.name), "an entry was yielded twice");
        seen.push(e.name);
    }
    assert_eq!(seen.len(), names.len() + 1);
    for n in names.iter() {
        assert!(seen.contains(&n.as_bytes().to_vec()));
    }
    assert!(seen.contains(&bytes("build.txt")));
    // exhausted stays exhausted
    assert!(it.next(&sb).is_none());
    assert!(it.next(&sb).is_none());
}

#[test]
fn iterator_on_missing_directory_is_empty() {
    let sb = sandbox();
    let mut it = DirIterator::new(&bytes("ghost"), false).unwrap();
    assert!(it.next(&sb).is_none());
}

#[test]
fn iterator_root_escape_is_rejected() {
    assert!(matches!(
        DirIterator::new(&bytes("../x"), false),
        Err(FsError::PathEscape)
    ));
}

#[test]
fn remove_during_iteration_keeps_forward_progress() {
    let mut sb = sandbox();
    sb.create_dir(&bytes("d")).unwrap();
    for n in ["a.txt", "b.txt", "c.txt"].iter() {
        let mut raw = bytes("d/");
        raw.extend_from_slice(n.as_bytes());
        let w = sb.open_for_write(&raw).unwrap();
        w.close(&mut sb).unwrap();
    }
    let mut it = DirIterator::new(&bytes("d"), false).unwrap();
    let mut seen: Vec<Vec<u8>> = Vec::new();
    while let Some(e) = it.next(&sb) {
        assert!(!seen.contains(&e.name));
        seen.push(e.name.clone());
        if e.name == bytes("b.txt") {
            it.remove_current(&mut sb).unwrap();
            // a second removal without an advance is iterator misuse
            assert!(matches!(
                it.remove_current(&mut sb),
                Err(FsError::NoCurrentEntry)
            ));
        }
    }
    // every live child was still yielded exactly once
    assert_eq!(seen.len(), 3);
    // and the removed entry is gone from the tree
    let rest = sb.list_dir(&bytes("d")).unwrap();
    assert_eq!(rest.len(), 2);
    for e in rest.iter() {
        assert_ne!(e.name, bytes("b.txt"));
    }
}

#[test]
fn remove_before_first_advance_is_misuse() {
    let mut sb = sandbox();
    sb.create_dir(&bytes("d")).unwrap();
    let mut it = DirIterator::new(&bytes("d"), false).unwrap();
    assert!(matches!(
        it.remove_current(&mut sb),
        Err(FsError::NoCurrentEntry)
    ));
}

#[test]
fn remove_after_exhaustion_is_misuse() {
    let mut sb = sandbox();
    sb.create_dir(&bytes("d")).unwrap();
    let mut it = DirIterator::new(&bytes("d"), false).unwrap();
    assert!(it.next(&sb).is_none());
    assert!(matches!(
        it.remove_current(&mut sb),
        Err(FsError::NoCurrentEntry)
    ));
}

#[test]
fn remove_of_non_empty_directory_through_iterator_refused() {
    let mut sb = sandbox();
    sb.create_dir(&bytes("d")).unwrap();
    sb.create_dir(&bytes("d/full")).unwrap();
    let w = sb.open_for_write(&bytes("d/full/f")).unwrap();
    w.close(&mut sb).unwrap();
    let mut it = DirIterator::new(&bytes("d"), false).unwrap();
    let e = it.next(&sb).unwrap();
    assert_eq!(e.name, bytes("full"));
    assert!(matches!(it.remove_current(&mut sb), Err(FsError::NotEmpty)));
}

#[test]
fn recursive_iteration_is_pre_order() {
    let mut sb = sandbox();
    sb.create_dir(&bytes("root")).unwrap();
    sb.create_dir(&bytes("root/a")).unwrap();
    sb.create_dir(&bytes("root/a/b")).unwrap();
    sb.create_dir(&bytes("root/z")).unwrap();
    let mut names: Vec<Vec<u8>> = Vec::new();
    let mut it = DirIterator::new(&bytes("root"), true).unwrap();
    while let Some(e) = it.next(&sb) {
        names.push(e.name);
    }
    assert_eq!(names.len(), 3);
    let pos_a = names.iter().position(|n| n == &bytes("a")).unwrap();
    let pos_b = names.iter().position(|n| n == &bytes("b")).unwrap();
    let pos_z = names.iter().position(|n| n == &bytes("z")).unwrap();
    // a directory comes before its own children,
    assert!(pos_a < pos_b);
    // and its children come before its later siblings
    assert!((pos_z < pos_a) || (pos_b < pos_z));
}

#[test]
fn recursive_entries_carry_full_paths() {
    let mut sb = sandbox();
    sb.create_dir(&bytes("root")).unwrap();
    sb.create_dir(&bytes("root/a")).unwrap();
    let w = sb.open_for_write(&bytes("root/a/f.txt")).unwrap();
    w.close(&mut sb).unwrap();
    let mut it = DirIterator::new(&bytes("root"), true).unwrap();
    let mut found_file = false;
    while let Some(e) = it.next(&sb) {
        if e.name == bytes("f.txt") {
            found_file = true;
            assert!(matches!(e.kind, EntryKind::File));
            assert_eq!(e.segs, vec![bytes("root"), bytes("a"), bytes("f.txt")]);
        }
    }
    assert!(found_file);
}

#[test]
fn sandbox_scenario_end_to_end() {
    // root /sandbox; create "data"; write "hello\n" into "data/a.txt";
    // list "data"; remove the file through the iterator; re-list.
    let mut sb = Sandbox::new(&bytes("/sandbox")).unwrap();
    sb.create_dir(&bytes("data")).unwrap();
    let mut w = sb.open_for_write(&bytes("data/a.txt")).unwrap();
    w.write(&bytes("hello\n"));
    w.flush(&mut sb).unwrap();

    let mut it = DirIterator::new(&bytes("data"), false).unwrap();
    let e = it.next(&sb).unwrap();
    assert_eq!(e.name, bytes("a.txt"));
    assert!(matches!(e.kind, EntryKind::File));
    assert!(it.next(&sb).is_none());

    let mut it2 = DirIterator::new(&bytes("data"), false).unwrap();
    let e2 = it2.next(&sb).unwrap();
    assert_eq!(e2.name, bytes("a.txt"));
    it2.remove_current(&mut sb).unwrap();
    assert!(it2.next(&sb).is_none());

    let mut it3 = DirIterator::new(&bytes("data"), false).unwrap();
    assert!(it3.next(&sb).is_none());
    assert!(sb.list_dir(&bytes("data")).unwrap().is_empty());
}
