use sandbox_fs::errors::FsError;
use sandbox_fs::fs::Sandbox;
use sandbox_fs::path::resolve;

fn bytes(s: &str) -> Vec<u8> {
    s.as_bytes().to_vec()
}

#[test]
fn escaping_path_is_rejected() {
    let r = resolve(&bytes("../outside"));
    assert!(matches!(r, Err(FsError::PathEscape)));
}

#[test]
fn deep_escape_is_rejected() {
    let r = resolve(&bytes("a/b/../../../etc/passwd"));
    assert!(matches!(r, Err(FsError::PathEscape)));
}

#[test]
fn absolute_like_path_stays_inside() {
    let p = resolve(&bytes("/a/b")).unwrap();
    let segs = p.segments();
    assert_eq!(segs.len(), 2);
    assert_eq!(segs[0], bytes("a"));
    assert_eq!(segs[1], bytes("b"));
}

#[test]
fn dot_segments_fold_away() {
    let p = resolve(&bytes("a/./b/../c//d/")).unwrap();
    let segs = p.segments();
    assert_eq!(segs.len(), 3);
    assert_eq!(segs[0], bytes("a"));
    assert_eq!(segs[1], bytes("c"));
    assert_eq!(segs[2], bytes("d"));
}

#[test]
fn dotdot_back_inside_is_confined() {
    let p = resolve(&bytes("a/../b")).unwrap();
    let segs = p.segments();
    assert_eq!(segs.len(), 1);
    assert_eq!(segs[0], bytes("b"));
}

#[test]
fn empty_path_is_invalid() {
    assert!(matches!(resolve(&bytes("")), Err(FsError::InvalidPath)));
}

#[test]
fn nul_byte_is_invalid() {
    let mut raw = bytes("a");
    raw.push(0u8);
    raw.extend_from_slice(b"b");
    assert!(matches!(resolve(&raw), Err(FsError::InvalidPath)));
}

#[test]
fn raw_path_is_echoed_back() {
    let p = resolve(&bytes("data/x.txt")).unwrap();
    assert_eq!(p.raw(), &bytes("data/x.txt"));
}

#[test]
fn sandbox_new_rejects_escaping_root() {
    assert!(matches!(Sandbox::new(&bytes("..")), Err(FsError::PathEscape)));
}

#[test]
fn operations_reject_escapes_before_touching_the_tree() {
    let mut sb = Sandbox::new(&bytes("/sandbox")).unwrap();
    assert!(matches!(sb.create_dir(&bytes("../d")), Err(FsError::PathEscape)));
    assert!(matches!(sb.remove_entry(&bytes("../d")), Err(FsError::PathEscape)));
    assert!(matches!(
        sb.move_entry(&bytes("../a"), &bytes("b")),
        Err(FsError::PathEscape)
    ));
    assert!(matches!(sb.open_for_write(&bytes("../f")), Err(FsError::PathEscape)));
    assert!(matches!(sb.open_for_read(&bytes("../f")), Err(FsError::PathEscape)));
    assert!(matches!(sb.list_dir(&bytes("../d")), Err(FsError::PathEscape)));
}
