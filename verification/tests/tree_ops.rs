use sandbox_fs::errors::FsError;
use sandbox_fs::fs::Sandbox;

fn bytes(s: &str) -> Vec<u8> {
    s.as_bytes().to_vec()
}

fn sandbox() -> Sandbox {
    Sandbox::new(&bytes("/sandbox")).unwrap()
}

#[test]
fn create_dir_then_again_already_exists() {
    let mut sb = sandbox();
    sb.create_dir(&bytes("data")).unwrap();
    assert!(matches!(sb.create_dir(&bytes("data")), Err(FsError::AlreadyExists)));
}

#[test]
fn create_dir_without_parent_not_found() {
    let mut sb = sandbox();
    assert!(matches!(sb.create_dir(&bytes("a/b")), Err(FsError::NotFound)));
}

#[test]
fn create_dir_under_file_not_a_directory() {
    let mut sb = sandbox();
    let w = sb.open_for_write(&bytes("f.txt")).unwrap();
    w.close(&mut sb).unwrap();
    assert!(matches!(sb.create_dir(&bytes("f.txt/sub")), Err(FsError::NotADirectory)));
}

#[test]
fn remove_missing_entry_not_found() {
    let mut sb = sandbox();
    assert!(matches!(sb.remove_entry(&bytes("ghost")), Err(FsError::NotFound)));
}

#[test]
fn remove_non_empty_directory_refused() {
    let mut sb = sandbox();
    sb.create_dir(&bytes("d")).unwrap();
    sb.create_dir(&bytes("d/inner")).unwrap();
    assert!(matches!(sb.remove_entry(&bytes("d")), Err(FsError::NotEmpty)));
    sb.remove_entry(&bytes("d/inner")).unwrap();
    sb.remove_entry(&bytes("d")).unwrap();
    assert!(matches!(sb.remove_entry(&bytes("d")), Err(FsError::NotFound)));
}

#[test]
fn round_trip_bytes() {
    let mut sb = sandbox();
    sb.create_dir(&bytes("data")).unwrap();
    let payload = bytes("Hi there.\nGood to see you.\n");
    let mut w = sb.open_for_write(&bytes("data/test.txt")).unwrap();
    let n = w.write(&payload);
    assert_eq!(n, payload.len());
    w.flush(&mut sb).unwrap();
    let mut r = sb.open_for_read(&bytes("data/test.txt")).unwrap();
    let back = r.read_to_end();
    assert_eq!(back, payload);
}

#[test]
fn round_trip_empty_content() {
    let mut sb = sandbox();
    let w = sb.open_for_write(&bytes("empty.bin")).unwrap();
    w.close(&mut sb).unwrap();
    let mut r = sb.open_for_read(&bytes("empty.bin")).unwrap();
    assert_eq!(r.read_to_end(), Vec::<u8>::new());
}

#[test]
fn unflushed_bytes_are_not_visible() {
    let mut sb = sandbox();
    let mut w = sb.open_for_write(&bytes("f")).unwrap();
    w.write(&bytes("pending"));
    let mut r = sb.open_for_read(&bytes("f")).unwrap();
    assert_eq!(r.read_to_end(), Vec::<u8>::new());
    w.flush(&mut sb).unwrap();
    let mut r2 = sb.open_for_read(&bytes("f")).unwrap();
    assert_eq!(r2.read_to_end(), bytes("pending"));
}

#[test]
fn two_writes_accumulate_after_flush() {
    let mut sb = sandbox();
    let mut w = sb.open_for_write(&bytes("f")).unwrap();
    w.write(&bytes("one "));
    w.write(&bytes("two"));
    w.flush(&mut sb).unwrap();
    let mut r = sb.open_for_read(&bytes("f")).unwrap();
    assert_eq!(r.read_to_end(), bytes("one two"));
}

#[test]
fn reopening_for_write_truncates() {
    let mut sb = sandbox();
    let mut w = sb.open_for_write(&bytes("f")).unwrap();
    w.write(&bytes("old content"));
    w.flush(&mut sb).unwrap();
    let w2 = sb.open_for_write(&bytes("f")).unwrap();
    w2.close(&mut sb).unwrap();
    let mut r = sb.open_for_read(&bytes("f")).unwrap();
    assert_eq!(r.read_to_end(), Vec::<u8>::new());
}

#[test]
fn open_for_read_missing_not_found() {
    let sb = sandbox();
    assert!(matches!(sb.open_for_read(&bytes("nope")), Err(FsError::NotFound)));
}

#[test]
fn open_for_read_on_directory_refused() {
    let mut sb = sandbox();
    sb.create_dir(&bytes("d")).unwrap();
    assert!(matches!(sb.open_for_read(&bytes("d")), Err(FsError::NotADirectory)));
}

#[test]
fn flush_after_removal_reports_not_found() {
    let mut sb = sandbox();
    let mut w = sb.open_for_write(&bytes("f")).unwrap();
    w.write(&bytes("data"));
    sb.remove_entry(&bytes("f")).unwrap();
    assert!(matches!(w.flush(&mut sb), Err(FsError::NotFound)));
}

#[test]
fn move_file_keeps_content() {
    let mut sb = sandbox();
    sb.create_dir(&bytes("a")).unwrap();
    sb.create_dir(&bytes("b")).unwrap();
    let mut w = sb.open_for_write(&bytes("a/f.txt")).unwrap();
    w.write(&bytes("payload"));
    w.flush(&mut sb).unwrap();
    sb.move_entry(&bytes("a/f.txt"), &bytes("b/g.txt")).unwrap();
    assert!(matches!(sb.open_for_read(&bytes("a/f.txt")), Err(FsError::NotFound)));
    let mut r = sb.open_for_read(&bytes("b/g.txt")).unwrap();
    assert_eq!(r.read_to_end(), bytes("payload"));
}

#[test]
fn move_directory_carries_subtree() {
    let mut sb = sandbox();
    sb.create_dir(&bytes("a")).unwrap();
    sb.create_dir(&bytes("a/sub")).unwrap();
    let mut w = sb.open_for_write(&bytes("a/sub/f")).unwrap();
    w.write(&bytes("x"));
    w.flush(&mut sb).unwrap();
    sb.move_entry(&bytes("a"), &bytes("z")).unwrap();
    assert!(matches!(sb.open_for_read(&bytes("a/sub/f")), Err(FsError::NotFound)));
    let mut r = sb.open_for_read(&bytes("z/sub/f")).unwrap();
    assert_eq!(r.read_to_end(), bytes("x"));
}

#[test]
fn move_missing_source_not_found_and_tree_unchanged() {
    let mut sb = sandbox();
    sb.create_dir(&bytes("keep")).unwrap();
    assert!(matches!(
        sb.move_entry(&bytes("nope"), &bytes("dest")),
        Err(FsError::NotFound)
    ));
    assert!(sb.list_dir(&bytes("keep")).unwrap().is_empty());
    assert!(matches!(sb.open_for_read(&bytes("dest")), Err(FsError::NotFound)));
}

#[test]
fn move_onto_existing_target_refused() {
    let mut sb = sandbox();
    let w = sb.open_for_write(&bytes("src")).unwrap();
    w.close(&mut sb).unwrap();
    let w2 = sb.open_for_write(&bytes("dst")).unwrap();
    w2.close(&mut sb).unwrap();
    assert!(matches!(
        sb.move_entry(&bytes("src"), &bytes("dst")),
        Err(FsError::AlreadyExists)
    ));
    // both endpoints untouched
    assert!(sb.open_for_read(&bytes("src")).is_ok());
    assert!(sb.open_for_read(&bytes("dst")).is_ok());
}

#[test]
fn move_directory_into_itself_refused() {
    let mut sb = sandbox();
    sb.create_dir(&bytes("d")).unwrap();
    assert!(matches!(
        sb.move_entry(&bytes("d"), &bytes("d/inner")),
        Err(FsError::InvalidPath)
    ));
    assert!(sb.list_dir(&bytes("d")).unwrap().is_empty());
}

#[test]
fn list_file_is_not_a_directory() {
    let mut sb = sandbox();
    let w = sb.open_for_write(&bytes("f")).unwrap();
    w.close(&mut sb).unwrap();
    assert!(matches!(sb.list_dir(&bytes("f")), Err(FsError::NotADirectory)));
}

#[test]
fn list_missing_directory_not_found() {
    let sb = sandbox();
    assert!(matches!(sb.list_dir(&bytes("d")), Err(FsError::NotFound)));
}
