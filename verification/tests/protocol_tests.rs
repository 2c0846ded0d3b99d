//! Tests for the four query operations: attributes, identity resolution,
//! symlink targets, and resumable listings.
use zoterofs::attr::{FileType, OWNER_GID, OWNER_UID, TTL_SECS};
use zoterofs::model::FsError;
use zoterofs::symlinkfs::{entries_from_links, DirEntry, SymlinkFS};

fn sample() -> SymlinkFS {
    let links: Vec<(String, String)> = vec![
        ("Papers/a.pdf".to_string(), "k1/a.pdf".to_string()),
        ("Papers/b.pdf".to_string(), "k2/b.pdf".to_string()),
        ("Notes/c.txt".to_string(), "k3/c.txt".to_string()),
        ("top.pdf".to_string(), "k4/top.pdf".to_string()),
    ];
    entries_from_links(&links, "/lib").unwrap()
}

#[test]
fn getattr_reports_fixed_synthetic_metadata() {
    let fs = sample();
    let a = fs.getattr(1).unwrap();
    assert_eq!(a.ino, 1);
    assert_eq!(a.size, 0);
    assert_eq!(a.atime, 0);
    assert_eq!(a.mtime, 0);
    assert_eq!(a.ctime, 0);
    assert_eq!(a.crtime, 0);
    assert_eq!(a.perm, 0o755);
    assert_eq!(a.nlink, 2);
    assert_eq!(a.uid, OWNER_UID);
    assert_eq!(a.gid, OWNER_GID);
    assert_eq!(a.uid, 501);
    assert_eq!(a.gid, 20);
    assert_eq!(TTL_SECS, 10);
}

#[test]
fn getattr_succeeds_for_both_kinds_and_fails_for_unknown() {
    let fs = sample();
    let (papers, _) = fs.lookup(1, "Papers").unwrap();
    let (a_pdf, _) = fs.lookup(papers, "a.pdf").unwrap();
    assert_eq!(fs.getattr(papers).unwrap().kind, FileType::Directory);
    assert_eq!(fs.getattr(a_pdf).unwrap().kind, FileType::Symlink);
    assert_eq!(fs.getattr(0), Err(FsError::NotFound));
    assert_eq!(fs.getattr(999), Err(FsError::NotFound));
}

#[test]
fn lookup_reports_the_type_that_getattr_reports() {
    let fs = sample();
    for name in ["Papers", "Notes", "top.pdf"] {
        let (id, attr) = fs.lookup(1, name).unwrap();
        let again = fs.getattr(id).unwrap();
        assert_eq!(attr, again);
        assert_eq!(attr.kind, again.kind);
    }
}

#[test]
fn lookup_fails_with_notfound() {
    let fs = sample();
    // unknown parent, parent of the wrong kind, and absent name
    assert_eq!(fs.lookup(999, "Papers"), Err(FsError::NotFound));
    let (top, _) = fs.lookup(1, "top.pdf").unwrap();
    assert_eq!(fs.lookup(top, "x"), Err(FsError::NotFound));
    assert_eq!(fs.lookup(1, "absent"), Err(FsError::NotFound));
}

#[test]
fn readlink_returns_the_target_verbatim() {
    let fs = sample();
    let (papers, _) = fs.lookup(1, "Papers").unwrap();
    let (b_pdf, _) = fs.lookup(papers, "b.pdf").unwrap();
    assert_eq!(fs.readlink(b_pdf).unwrap(), "/lib/k2/b.pdf");
}

#[test]
fn readlink_on_a_directory_is_wrongkind_never_data() {
    let fs = sample();
    assert_eq!(fs.readlink(1), Err(FsError::WrongKind));
    let (papers, _) = fs.lookup(1, "Papers").unwrap();
    assert_eq!(fs.readlink(papers), Err(FsError::WrongKind));
    assert_eq!(fs.readlink(999), Err(FsError::NotFound));
}

#[test]
fn readdir_lists_dots_then_children_in_insertion_order() {
    let fs = sample();
    let listing = fs.readdir(1, 0).unwrap();
    let names: Vec<&str> = listing.iter().map(|e| e.name.as_str()).collect();
    assert_eq!(names, vec![".", "..", "Papers", "Notes", "top.pdf"]);
    assert_eq!(listing[0].ino, 1);
    assert_eq!(listing[1].ino, 1);
    assert_eq!(listing[0].kind, FileType::Directory);
    assert_eq!(listing[1].kind, FileType::Directory);
    let positions: Vec<u128> = listing.iter().map(|e| e.position).collect();
    assert_eq!(positions, vec![1, 2, 3, 4, 5]);
    assert_eq!(listing[4].kind, FileType::Symlink);
}

#[test]
fn readdir_is_resumable_at_every_position() {
    let fs = sample();
    let full: Vec<DirEntry> = fs.readdir(1, 0).unwrap();
    for k in 0..=full.len() {
        let head = &full[..k];
        let tail = fs.readdir(1, k as u64).unwrap();
        let mut joined: Vec<&DirEntry> = head.iter().collect();
        joined.extend(tail.iter());
        assert_eq!(joined.len(), full.len());
        for (a, b) in joined.iter().zip(full.iter()) {
            assert_eq!(a.ino, b.ino);
            assert_eq!(a.kind, b.kind);
            assert_eq!(a.name, b.name);
            assert_eq!(a.position, b.position);
        }
    }
}

#[test]
fn readdir_past_the_end_is_empty() {
    let fs = sample();
    assert_eq!(fs.readdir(1, 5).unwrap().len(), 0);
    assert_eq!(fs.readdir(1, 50).unwrap().len(), 0);
}

#[test]
fn readdir_fails_on_symlinks_and_unknown_identifiers() {
    let fs = sample();
    let (top, _) = fs.lookup(1, "top.pdf").unwrap();
    assert_eq!(fs.readdir(top, 0).err(), Some(FsError::WrongKind));
    assert_eq!(fs.readdir(999, 0).err(), Some(FsError::NotFound));
}

#[test]
fn queries_do_not_disturb_later_queries() {
    let fs = sample();
    let before = fs.readdir(1, 0).unwrap().len();
    let _ = fs.lookup(1, "absent");
    let _ = fs.readlink(1);
    let _ = fs.readdir(999, 0);
    let after = fs.readdir(1, 0).unwrap().len();
    assert_eq!(before, after);
    assert_eq!(fs.lookup(1, "absent"), Err(FsError::NotFound));
}
