//! Tests for the tree builder: identifier allocation, directory sharing,
//! overwrite policy, and construction errors.
use zoterofs::attr::FileType;
use zoterofs::model::BuildError;
use zoterofs::symlinkfs::entries_from_links;

fn links(v: &[(&str, &str)]) -> Vec<(String, String)> {
    v.iter().map(|(a, b)| (a.to_string(), b.to_string())).collect()
}

#[test]
fn empty_link_list_builds_only_root() {
    let fs = entries_from_links(&links(&[]), "/lib").unwrap();
    let attr = fs.getattr(1).unwrap();
    assert_eq!(attr.kind, FileType::Directory);
    assert_eq!(fs.getattr(2), Err(zoterofs::model::FsError::NotFound));
    let listing = fs.readdir(1, 0).unwrap();
    assert_eq!(listing.len(), 2);
    assert_eq!(listing[0].name, ".");
    assert_eq!(listing[1].name, "..");
}

#[test]
fn single_link_builds_chain() {
    // The symlink node is allocated first (identifier 2), then the missing
    // directories along the path (3, 4).
    let fs = entries_from_links(
        &links(&[("Papers/Smith2020/paper.pdf", "ab/cd1234.pdf")]),
        "/lib",
    )
    .unwrap();
    let (papers, a1) = fs.lookup(1, "Papers").unwrap();
    assert_eq!(a1.kind, FileType::Directory);
    assert_eq!(papers, 3);
    let (smith, a2) = fs.lookup(papers, "Smith2020").unwrap();
    assert_eq!(a2.kind, FileType::Directory);
    assert_eq!(smith, 4);
    let (paper, a3) = fs.lookup(smith, "paper.pdf").unwrap();
    assert_eq!(a3.kind, FileType::Symlink);
    assert_eq!(paper, 2);
    assert_eq!(fs.readlink(paper).unwrap(), "/lib/ab/cd1234.pdf");
}

#[test]
fn two_links_share_one_directory() {
    let fs = entries_from_links(&links(&[("A/x", "s1"), ("A/y", "s2")]), "/lib").unwrap();
    let listing = fs.readdir(1, 0).unwrap();
    // exactly one "A" under the root, never two
    assert_eq!(listing.len(), 3);
    assert_eq!(listing[2].name, "A");
    assert_eq!(listing[2].kind, FileType::Directory);
    let (a, _) = fs.lookup(1, "A").unwrap();
    let children = fs.readdir(a, 0).unwrap();
    assert_eq!(children.len(), 4);
    assert_eq!(children[2].name, "x");
    assert_eq!(children[3].name, "y");
    let (x, ax) = fs.lookup(a, "x").unwrap();
    let (y, ay) = fs.lookup(a, "y").unwrap();
    assert_eq!(ax.kind, FileType::Symlink);
    assert_eq!(ay.kind, FileType::Symlink);
    assert_eq!(fs.readlink(x).unwrap(), "/lib/s1");
    assert_eq!(fs.readlink(y).unwrap(), "/lib/s2");
}

#[test]
fn later_duplicate_logical_path_wins() {
    let fs = entries_from_links(&links(&[("A", "s1"), ("A", "s2")]), "/lib").unwrap();
    let listing = fs.readdir(1, 0).unwrap();
    // still a single entry "A", kept at its original listing position
    assert_eq!(listing.len(), 3);
    assert_eq!(listing[2].name, "A");
    let (a, attr) = fs.lookup(1, "A").unwrap();
    assert_eq!(attr.kind, FileType::Symlink);
    assert_eq!(fs.readlink(a).unwrap(), "/lib/s2");
}

#[test]
fn empty_component_is_rejected() {
    assert_eq!(
        entries_from_links(&links(&[("a//b", "s")]), "/lib").err(),
        Some(BuildError::InvalidPath)
    );
    assert_eq!(
        entries_from_links(&links(&[("", "s")]), "/lib").err(),
        Some(BuildError::InvalidPath)
    );
    assert_eq!(
        entries_from_links(&links(&[("/a", "s")]), "/lib").err(),
        Some(BuildError::InvalidPath)
    );
    assert_eq!(
        entries_from_links(&links(&[("a/b/", "s")]), "/lib").err(),
        Some(BuildError::InvalidPath)
    );
}

#[test]
fn dot_components_are_rejected() {
    assert_eq!(
        entries_from_links(&links(&[("a/./b", "s")]), "/lib").err(),
        Some(BuildError::InvalidPath)
    );
    assert_eq!(
        entries_from_links(&links(&[("../b", "s")]), "/lib").err(),
        Some(BuildError::InvalidPath)
    );
}

#[test]
fn symlink_in_the_middle_of_a_path_aborts() {
    assert_eq!(
        entries_from_links(&links(&[("A", "s1"), ("A/x", "s2")]), "/lib").err(),
        Some(BuildError::NotADirectory)
    );
    assert_eq!(
        entries_from_links(&links(&[("A/b", "s1"), ("A/b/c/d", "s2")]), "/lib").err(),
        Some(BuildError::NotADirectory)
    );
}

#[test]
fn an_absolute_storage_path_stands_on_its_own() {
    let fs = entries_from_links(&links(&[("x", "/abs/p.pdf")]), "/lib").unwrap();
    let (x, _) = fs.lookup(1, "x").unwrap();
    assert_eq!(fs.readlink(x).unwrap(), "/abs/p.pdf");
}

#[test]
fn a_base_directory_with_trailing_separator_joins_cleanly() {
    let fs = entries_from_links(&links(&[("x", "p.pdf")]), "/lib/").unwrap();
    let (x, _) = fs.lookup(1, "x").unwrap();
    assert_eq!(fs.readlink(x).unwrap(), "/lib/p.pdf");
}

#[test]
fn names_may_contain_unusual_characters() {
    let fs = entries_from_links(
        &links(&[("...dots/Ünïcødé name.pdf", "k/f.pdf")]),
        "/lib",
    )
    .unwrap();
    let (d, a) = fs.lookup(1, "...dots").unwrap();
    assert_eq!(a.kind, FileType::Directory);
    let (f, af) = fs.lookup(d, "Ünïcødé name.pdf").unwrap();
    assert_eq!(af.kind, FileType::Symlink);
    assert_eq!(fs.readlink(f).unwrap(), "/lib/k/f.pdf");
}
