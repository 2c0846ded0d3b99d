//! The mathematical model of the inode table.
//!
//! A table is a sequence of nodes; the node at index `i` has identifier
//! `i + 1`, so identifier 1 (the root) is the first node and identifiers are
//! assigned by a counter that advances with every insertion. A directory's
//! children are kept in insertion order, which is the canonical listing order.
use vstd::prelude::*;
use crate::attr::{FileAttr, FileType, spec_attr};
use crate::paths::{comp_wf, join_spec, path_comps, path_wf};

verus! {

/// The model of one node: a directory mapping names to child identifiers in
/// insertion order, or a symlink holding an absolute target path.
#[verifier::ext_equal]
pub enum SpecEntry {
    Dir(Seq<(Seq<char>, u64)>),
    Link(Seq<char>),
}

/// A fatal error while building the tree; nothing is served after one.
#[derive(Clone, Copy, Debug, PartialEq, Eq, Structural)]
pub enum BuildError {
    /// A component of a logical path is not an ordinary name.
    InvalidPath,
    /// A non-final component of a logical path names a symlink.
    NotADirectory,
}

/// A per-request failure; the table is never affected.
#[derive(Clone, Copy, Debug, PartialEq, Eq, Structural)]
pub enum FsError {
    /// Unknown identifier, or unknown child name.
    NotFound,
    /// Symlink-target query on a directory, or listing query on a symlink.
    WrongKind,
}

pub open spec fn children_of(e: SpecEntry) -> Seq<(Seq<char>, u64)> {
    match e {
        SpecEntry::Dir(c) => c,
        SpecEntry::Link(_) => Seq::empty(),
    }
}

pub open spec fn kind_of(e: SpecEntry) -> FileType {
    match e {
        SpecEntry::Dir(_) => FileType::Directory,
        SpecEntry::Link(_) => FileType::Symlink,
    }
}

/// An identifier addresses a node of the table.
pub open spec fn valid_ino(t: Seq<SpecEntry>, ino: u64) -> bool {
    1 <= ino && ino <= t.len()
}

pub open spec fn entry_of(t: Seq<SpecEntry>, ino: u64) -> SpecEntry {
    t[ino as int - 1]
}

/// Index of the first child slot named `name`, or -1 if there is none.
pub open spec fn child_index(ch: Seq<(Seq<char>, u64)>, name: Seq<char>) -> int
    decreases ch.len(),
{
    if ch.len() == 0 {
        -1
    } else if ch[0].0 == name {
        0
    } else {
        let r = child_index(ch.drop_first(), name);
        if r < 0 {
            -1
        } else {
            1 + r
        }
    }
}

/// The identifier registered under `name`, if any.
pub open spec fn find_child(ch: Seq<(Seq<char>, u64)>, name: Seq<char>) -> Option<u64> {
    if child_index(ch, name) >= 0 {
        Some(ch[child_index(ch, name)].1)
    } else {
        None
    }
}

pub proof fn lemma_child_index(ch: Seq<(Seq<char>, u64)>, name: Seq<char>)
    ensures
        -1 <= child_index(ch, name) < ch.len(),
        child_index(ch, name) >= 0 ==> ch[child_index(ch, name)].0 == name,
        forall|j: int|
            0 <= j < ch.len() && (#[trigger] ch[j]).0 == name ==> 0 <= child_index(ch, name) <= j,
    decreases ch.len(),
{
    if ch.len() > 0 && ch[0].0 != name {
        lemma_child_index(ch.drop_first(), name);
        assert forall|j: int|
            0 <= j < ch.len() && (#[trigger] ch[j]).0 == name implies 0 <= child_index(ch, name)
            <= j by {
            assert(ch.drop_first()[j - 1] == ch[j]);
        }
        if child_index(ch.drop_first(), name) >= 0 {
            assert(ch[child_index(ch, name)] == ch.drop_first()[child_index(ch.drop_first(), name)]);
        }
    }
}

/// Every child slot is sound: an ordinary name, an identifier of an existing
/// non-root node, and a directory child always has a larger identifier than
/// its parent (so no directory is its own ancestor).
pub open spec fn slot_ok(t: Seq<SpecEntry>, d: int, k: int) -> bool {
    let s = children_of(t[d])[k];
    &&& comp_wf(s.0)
    &&& 2 <= s.1 && s.1 <= t.len()
    &&& (t[s.1 - 1] is Dir ==> s.1 > d + 1)
}

/// Well-formedness of a table: the root exists and is a directory, every
/// child slot is sound, names are unique within a directory, and no
/// identifier is registered as a child more than once.
pub open spec fn wf_table(t: Seq<SpecEntry>) -> bool {
    &&& t.len() >= 1
    &&& t[0] is Dir
    &&& forall|d: int, k: int|
        0 <= d < t.len() && 0 <= k < children_of(t[d]).len() ==> slot_ok(t, d, k) && (
        #[trigger] children_of(t[d])[k]).1 >= 2
    &&& forall|d: int, k1: int, k2: int|
        0 <= d < t.len() && 0 <= k1 < children_of(t[d]).len() && 0 <= k2 < children_of(
            t[d],
        ).len() && k1 != k2 ==> (#[trigger] children_of(t[d])[k1]).0 != (
        #[trigger] children_of(t[d])[k2]).0
    &&& forall|d1: int, k1: int, d2: int, k2: int|
        0 <= d1 < t.len() && 0 <= k1 < children_of(t[d1]).len() && 0 <= d2 < t.len() && 0 <= k2
            < children_of(t[d2]).len() && (#[trigger] children_of(t[d1])[k1]).1 == (
        #[trigger] children_of(t[d2])[k2]).1 ==> d1 == d2 && k1 == k2
}

/// No child slot anywhere in the table holds `id`.
pub open spec fn unreferenced(t: Seq<SpecEntry>, id: u64) -> bool {
    forall|d: int, k: int|
        0 <= d < t.len() && 0 <= k < children_of(t[d]).len() ==> (
        #[trigger] children_of(t[d])[k]).1 != id
}

/// Replace the children of the directory at index `d`.
pub open spec fn with_children(t: Seq<SpecEntry>, d: int, ch: Seq<(Seq<char>, u64)>) -> Seq<
    SpecEntry,
> {
    t.update(d, SpecEntry::Dir(ch))
}

/// Register a fresh name in the directory at index `d`.
pub open spec fn add_child(t: Seq<SpecEntry>, d: int, name: Seq<char>, id: u64) -> Seq<SpecEntry> {
    with_children(t, d, children_of(t[d]).push((name, id)))
}

/// Map `name` to `id` in the directory at index `d`, silently replacing any
/// prior mapping under that name (the later link wins) and keeping the name's
/// listing position; a new name is appended in insertion order.
pub open spec fn set_child(t: Seq<SpecEntry>, d: int, name: Seq<char>, id: u64) -> Seq<SpecEntry> {
    let ch = children_of(t[d]);
    let k = child_index(ch, name);
    if k >= 0 {
        with_children(t, d, ch.update(k, (name, id)))
    } else {
        with_children(t, d, ch.push((name, id)))
    }
}

/// Walk the non-final components of a logical path from directory `dir`,
/// descending into existing directories and creating a fresh empty directory
/// for every absent name; `None` when a component names a symlink.
pub open spec fn walk_spec(t: Seq<SpecEntry>, dir: u64, comps: Seq<Seq<char>>) -> Option<
    (Seq<SpecEntry>, u64),
>
    decreases comps.len(),
{
    if comps.len() == 0 {
        Some((t, dir))
    } else {
        match find_child(children_of(entry_of(t, dir)), comps[0]) {
            Some(c) => if entry_of(t, c) is Dir {
                walk_spec(t, c, comps.drop_first())
            } else {
                None
            },
            None => {
                let nid = (t.len() + 1) as u64;
                let t1 = add_child(t, dir as int - 1, comps[0], nid).push(
                    SpecEntry::Dir(Seq::empty()),
                );
                walk_spec(t1, nid, comps.drop_first())
            },
        }
    }
}

/// Add one link: allocate its symlink node, walk (and create) the parent
/// directories, then map the leaf name to the symlink.
pub open spec fn add_link_spec(
    t: Seq<SpecEntry>,
    path: Seq<char>,
    rel: Seq<char>,
    base: Seq<char>,
) -> Result<Seq<SpecEntry>, BuildError> {
    if !path_wf(path) {
        Err(BuildError::InvalidPath)
    } else {
        let comps = path_comps(path);
        let link_id = (t.len() + 1) as u64;
        let t1 = t.push(SpecEntry::Link(join_spec(base, rel)));
        match walk_spec(t1, 1, comps.drop_last()) {
            Some((t2, d)) => Ok(set_child(t2, d as int - 1, comps.last(), link_id)),
            None => Err(BuildError::NotADirectory),
        }
    }
}

/// Fold the links, in input order, over a table.
pub open spec fn build_from(
    t: Seq<SpecEntry>,
    links: Seq<(Seq<char>, Seq<char>)>,
    base: Seq<char>,
) -> Result<Seq<SpecEntry>, BuildError>
    decreases links.len(),
{
    if links.len() == 0 {
        Ok(t)
    } else {
        match add_link_spec(t, links[0].0, links[0].1, base) {
            Ok(t1) => build_from(t1, links.drop_first(), base),
            Err(e) => Err(e),
        }
    }
}

/// The table before any link: only the empty root directory.
pub open spec fn init_table() -> Seq<SpecEntry> {
    seq![SpecEntry::Dir(Seq::empty())]
}

/// The table built from a link list and a base directory.
pub open spec fn build_spec(links: Seq<(Seq<char>, Seq<char>)>, base: Seq<char>) -> Result<
    Seq<SpecEntry>,
    BuildError,
> {
    build_from(init_table(), links, base)
}

/// Appending a symlink node keeps the table well-formed, and the new
/// identifier is not yet registered anywhere.
pub proof fn lemma_wf_push_link(t: Seq<SpecEntry>, target: Seq<char>)
    requires
        wf_table(t),
        t.len() + 1 <= u64::MAX,
    ensures
        wf_table(t.push(SpecEntry::Link(target))),
        unreferenced(t.push(SpecEntry::Link(target)), (t.len() + 1) as u64),
{
    let t1 = t.push(SpecEntry::Link(target));
    assert forall|d: int, k: int|
        0 <= d < t1.len() && 0 <= k < children_of(t1[d]).len() implies slot_ok(t1, d, k) && (
    #[trigger] children_of(t1[d])[k]).1 >= 2 by {
        if d < t.len() {
            assert(children_of(t[d])[k] == children_of(t1[d])[k]);
            assert(slot_ok(t, d, k));
            let id = children_of(t[d])[k].1;
            assert(t1[id - 1] == t[id - 1]);
        }
    }
    assert forall|d: int, k1: int, k2: int|
        0 <= d < t1.len() && 0 <= k1 < children_of(t1[d]).len() && 0 <= k2 < children_of(
            t1[d],
        ).len() && k1 != k2 implies (#[trigger] children_of(t1[d])[k1]).0 != (
    #[trigger] children_of(t1[d])[k2]).0 by {
        if d < t.len() {
            assert(children_of(t[d])[k1] == children_of(t1[d])[k1]);
            assert(children_of(t[d])[k2] == children_of(t1[d])[k2]);
        }
    }
    assert forall|d1: int, k1: int, d2: int, k2: int|
        0 <= d1 < t1.len() && 0 <= k1 < children_of(t1[d1]).len() && 0 <= d2 < t1.len() && 0 <= k2
            < children_of(t1[d2]).len() && (#[trigger] children_of(t1[d1])[k1]).1 == (
    #[trigger] children_of(t1[d2])[k2]).1 implies d1 == d2 && k1 == k2 by {
        if d1 < t.len() && d2 < t.len() {
            assert(children_of(t[d1])[k1] == children_of(t1[d1])[k1]);
            assert(children_of(t[d2])[k2] == children_of(t1[d2])[k2]);
        }
    }
    assert forall|d: int, k: int|
        0 <= d < t1.len() && 0 <= k < children_of(t1[d]).len() implies (
    #[trigger] children_of(t1[d])[k]).1 != (t.len() + 1) as u64 by {
        if d < t.len() {
            assert(children_of(t[d])[k] == children_of(t1[d])[k]);
            assert(slot_ok(t, d, k));
        }
    }
}

/// Registering a fresh name for a fresh empty directory keeps the table
/// well-formed, and touches no other node.
pub proof fn lemma_wf_create_dir(t: Seq<SpecEntry>, d: int, name: Seq<char>, keep: u64)
    requires
        wf_table(t),
        t.len() + 1 <= u64::MAX,
        0 <= d < t.len(),
        t[d] is Dir,
        comp_wf(name),
        child_index(children_of(t[d]), name) == -1,
        valid_ino(t, keep),
        unreferenced(t, keep),
    ensures
        ({
            let nid = (t.len() + 1) as u64;
            let t2 = add_child(t, d, name, nid).push(SpecEntry::Dir(Seq::empty()));
            &&& wf_table(t2)
            &&& t2.len() == t.len() + 1
            &&& unreferenced(t2, keep)
            &&& entry_of(t2, nid) is Dir
            &&& forall|x: u64|
                1 <= x <= t.len() && x != d + 1 ==> entry_of(t2, x) == entry_of(t, x)
            &&& entry_of(t2, (d + 1) as u64) == SpecEntry::Dir(
                children_of(t[d]).push((name, nid)),
            )
        }),
{
    let nid = (t.len() + 1) as u64;
    let t2 = add_child(t, d, name, nid).push(SpecEntry::Dir(Seq::empty()));
    let och = children_of(t[d]);
    let nch = och.push((name, nid));
    lemma_child_index(och, name);
    assert(forall|j: int| 0 <= j < och.len() ==> (#[trigger] och[j]).0 != name);
    assert(t2[d] == SpecEntry::Dir(nch));
    assert forall|dd: int, k: int|
        0 <= dd < t2.len() && 0 <= k < children_of(t2[dd]).len() implies slot_ok(t2, dd, k) && (
    #[trigger] children_of(t2[dd])[k]).1 >= 2 by {
        if dd < t.len() && dd != d {
            assert(children_of(t[dd])[k] == children_of(t2[dd])[k]);
            assert(slot_ok(t, dd, k));
            let id = children_of(t[dd])[k].1;
            assert(t2[id - 1] == if id - 1 == d {
                SpecEntry::Dir(nch)
            } else {
                t[id - 1]
            });
        } else if dd == d {
            if k < och.len() {
                assert(children_of(t2[dd])[k] == och[k]);
                assert(slot_ok(t, d, k));
                let id = och[k].1;
                assert(t2[id - 1] == if id - 1 == d {
                    SpecEntry::Dir(nch)
                } else {
                    t[id - 1]
                });
            } else {
                assert(children_of(t2[dd])[k] == (name, nid));
            }
        }
    }
    assert forall|dd: int, k1: int, k2: int|
        0 <= dd < t2.len() && 0 <= k1 < children_of(t2[dd]).len() && 0 <= k2 < children_of(
            t2[dd],
        ).len() && k1 != k2 implies (#[trigger] children_of(t2[dd])[k1]).0 != (
    #[trigger] children_of(t2[dd])[k2]).0 by {
        if dd < t.len() && dd != d {
            assert(children_of(t[dd])[k1] == children_of(t2[dd])[k1]);
            assert(children_of(t[dd])[k2] == children_of(t2[dd])[k2]);
        } else if dd == d {
            if k1 < och.len() && k2 < och.len() {
                assert(och[k1] == children_of(t2[dd])[k1]);
                assert(och[k2] == children_of(t2[dd])[k2]);
            } else if k1 < och.len() {
                assert(och[k1].0 != name);
            } else if k2 < och.len() {
                assert(och[k2].0 != name);
            }
        }
    }
    assert forall|d1: int, k1: int, d2: int, k2: int|
        0 <= d1 < t2.len() && 0 <= k1 < children_of(t2[d1]).len() && 0 <= d2 < t2.len() && 0 <= k2
            < children_of(t2[d2]).len() && (#[trigger] children_of(t2[d1])[k1]).1 == (
    #[trigger] children_of(t2[d2])[k2]).1 implies d1 == d2 && k1 == k2 by {
        let s1_new = d1 == d && k1 == och.len();
        let s2_new = d2 == d && k2 == och.len();
        if !s1_new && d1 < t.len() {
            assert(children_of(t2[d1])[k1] == children_of(t[d1])[k1]);
            assert(slot_ok(t, d1, k1));
        }
        if !s2_new && d2 < t.len() {
            assert(children_of(t2[d2])[k2] == children_of(t[d2])[k2]);
            assert(slot_ok(t, d2, k2));
        }
    }
    assert forall|dd: int, k: int|
        0 <= dd < t2.len() && 0 <= k < children_of(t2[dd]).len() implies (
    #[trigger] children_of(t2[dd])[k]).1 != keep by {
        if dd < t.len() && dd != d {
            assert(children_of(t[dd])[k] == children_of(t2[dd])[k]);
        } else if dd == d && k < och.len() {
            assert(children_of(t2[dd])[k] == och[k]);
        }
    }
}

/// Mapping the leaf name to a fresh, unreferenced symlink keeps the table
/// well-formed, and touches no other node.
pub proof fn lemma_wf_set_child(t: Seq<SpecEntry>, d: int, name: Seq<char>, id: u64)
    requires
        wf_table(t),
        0 <= d < t.len(),
        t[d] is Dir,
        comp_wf(name),
        valid_ino(t, id),
        id >= 2,
        entry_of(t, id) is Link,
        unreferenced(t, id),
    ensures
        ({
            let t2 = set_child(t, d, name, id);
            &&& wf_table(t2)
            &&& t2.len() == t.len()
            &&& forall|x: u64|
                1 <= x <= t.len() && x != d + 1 ==> entry_of(t2, x) == entry_of(t, x)
            &&& t2[d] is Dir
        }),
{
    let t2 = set_child(t, d, name, id);
    let och = children_of(t[d]);
    let ki = child_index(och, name);
    lemma_child_index(och, name);
    let nch = if ki >= 0 {
        och.update(ki, (name, id))
    } else {
        och.push((name, id))
    };
    assert(t2 == with_children(t, d, nch));
    if ki < 0 {
        assert(forall|j: int| 0 <= j < och.len() ==> (#[trigger] och[j]).0 != name);
    }
    let new_k = if ki >= 0 {
        ki
    } else {
        och.len() as int
    };
    assert(nch[new_k] == (name, id));
    assert forall|dd: int, k: int|
        0 <= dd < t2.len() && 0 <= k < children_of(t2[dd]).len() implies slot_ok(t2, dd, k) && (
    #[trigger] children_of(t2[dd])[k]).1 >= 2 by {
        if dd != d {
            assert(children_of(t[dd])[k] == children_of(t2[dd])[k]);
            assert(slot_ok(t, dd, k));
            let cid = children_of(t[dd])[k].1;
            assert(t2[cid - 1] == if cid - 1 == d {
                SpecEntry::Dir(nch)
            } else {
                t[cid - 1]
            });
        } else {
            if k != new_k {
                assert(children_of(t2[dd])[k] == och[k]);
                assert(slot_ok(t, d, k));
                let cid = och[k].1;
                assert(t2[cid - 1] == if cid - 1 == d {
                    SpecEntry::Dir(nch)
                } else {
                    t[cid - 1]
                });
            } else {
                assert(children_of(t2[dd])[k] == (name, id));
                assert(t2[id - 1] == t[id - 1]);
            }
        }
    }
    assert forall|dd: int, k1: int, k2: int|
        0 <= dd < t2.len() && 0 <= k1 < children_of(t2[dd]).len() && 0 <= k2 < children_of(
            t2[dd],
        ).len() && k1 != k2 implies (#[trigger] children_of(t2[dd])[k1]).0 != (
    #[trigger] children_of(t2[dd])[k2]).0 by {
        if dd != d {
            assert(children_of(t[dd])[k1] == children_of(t2[dd])[k1]);
            assert(children_of(t[dd])[k2] == children_of(t2[dd])[k2]);
        } else {
            if k1 != new_k && k2 != new_k {
                assert(och[k1] == children_of(t2[dd])[k1]);
                assert(och[k2] == children_of(t2[dd])[k2]);
            } else if k1 == new_k && k2 != new_k {
                assert(och[k2] == children_of(t2[dd])[k2]);
                if ki >= 0 {
                    assert(och[ki].0 == name);
                } else {
                    assert(och[k2].0 != name);
                }
            } else if k2 == new_k && k1 != new_k {
                assert(och[k1] == children_of(t2[dd])[k1]);
                if ki >= 0 {
                    assert(och[ki].0 == name);
                } else {
                    assert(och[k1].0 != name);
                }
            }
        }
    }
    assert forall|d1: int, k1: int, d2: int, k2: int|
        0 <= d1 < t2.len() && 0 <= k1 < children_of(t2[d1]).len() && 0 <= d2 < t2.len() && 0 <= k2
            < children_of(t2[d2]).len() && (#[trigger] children_of(t2[d1])[k1]).1 == (
    #[trigger] children_of(t2[d2])[k2]).1 implies d1 == d2 && k1 == k2 by {
        let s1_new = d1 == d && k1 == new_k;
        let s2_new = d2 == d && k2 == new_k;
        if !s1_new {
            if d1 == d {
                assert(children_of(t2[d1])[k1] == och[k1]);
            } else {
                assert(children_of(t2[d1])[k1] == children_of(t[d1])[k1]);
            }
            assert(children_of(t2[d1])[k1] == children_of(t[d1])[k1]);
            assert(children_of(t[d1])[k1].1 != id);
        }
        if !s2_new {
            if d2 == d {
                assert(children_of(t2[d2])[k2] == och[k2]);
            } else {
                assert(children_of(t2[d2])[k2] == children_of(t[d2])[k2]);
            }
            assert(children_of(t2[d2])[k2] == children_of(t[d2])[k2]);
            assert(children_of(t[d2])[k2].1 != id);
        }
    }
    assert forall|x: u64| 1 <= x <= t.len() && x != d + 1 implies entry_of(t2, x) == entry_of(
        t,
        x,
    ) by {
        assert(t2[x as int - 1] == t[x as int - 1]);
    }
}

/// Resolve a component path from node `ino`, one child step per component.
pub open spec fn resolve_at(t: Seq<SpecEntry>, ino: u64, comps: Seq<Seq<char>>) -> Option<u64>
    decreases comps.len(),
{
    if comps.len() == 0 {
        Some(ino)
    } else if !valid_ino(t, ino) || !(entry_of(t, ino) is Dir) {
        None
    } else {
        match find_child(children_of(entry_of(t, ino)), comps[0]) {
            Some(c) => resolve_at(t, c, comps.drop_first()),
            None => None,
        }
    }
}

/// `a` is a (possibly equal) leading segment of `b`.
pub open spec fn is_prefix(a: Seq<Seq<char>>, b: Seq<Seq<char>>) -> bool {
    a.len() <= b.len() && a == b.subrange(0, a.len() as int)
}

pub open spec fn strict_prefix(a: Seq<Seq<char>>, b: Seq<Seq<char>>) -> bool {
    is_prefix(a, b) && a.len() < b.len()
}

/// What identity resolution returns: the child's identifier and attributes,
/// or NotFound when the parent is unknown, is no directory, or lacks the name.
pub open spec fn spec_lookup(t: Seq<SpecEntry>, parent: u64, name: Seq<char>) -> Result<
    (u64, FileAttr),
    FsError,
> {
    if !valid_ino(t, parent) || !(entry_of(t, parent) is Dir) {
        Err(FsError::NotFound)
    } else {
        match find_child(children_of(entry_of(t, parent)), name) {
            Some(c) => Ok((c, spec_attr(c, kind_of(entry_of(t, c))))),
            None => Err(FsError::NotFound),
        }
    }
}

/// What an attribute query returns: attributes for any existing node, of
/// either kind, and NotFound otherwise.
pub open spec fn spec_getattr(t: Seq<SpecEntry>, ino: u64) -> Result<FileAttr, FsError> {
    if valid_ino(t, ino) {
        Ok(spec_attr(ino, kind_of(entry_of(t, ino))))
    } else {
        Err(FsError::NotFound)
    }
}

/// What a symlink-target query returns: the stored target verbatim, WrongKind
/// on a directory, NotFound on an unknown identifier.
pub open spec fn spec_readlink(t: Seq<SpecEntry>, ino: u64) -> Result<Seq<char>, FsError> {
    if !valid_ino(t, ino) {
        Err(FsError::NotFound)
    } else {
        match entry_of(t, ino) {
            SpecEntry::Dir(_) => Err(FsError::WrongKind),
            SpecEntry::Link(tg) => Ok(tg),
        }
    }
}

/// Length of the unbounded listing of a directory: ".", ".." and one entry
/// per child.
pub open spec fn listing_len(t: Seq<SpecEntry>, ino: u64) -> nat {
    2 + children_of(entry_of(t, ino)).len()
}

/// Entry `k` (0-based) of the unbounded listing of directory `ino`:
/// (identifier, kind, name, position), positions starting at 1.
pub open spec fn listed_at(t: Seq<SpecEntry>, ino: u64, k: int) -> (u64, FileType, Seq<char>, int) {
    if k == 0 {
        (ino, FileType::Directory, seq!['.'], 1)
    } else if k == 1 {
        (ino, FileType::Directory, seq!['.', '.'], 2)
    } else {
        let s = children_of(entry_of(t, ino))[k - 2];
        (s.1, kind_of(entry_of(t, s.1)), s.0, k + 1)
    }
}

/// The listing entries whose position exceeds `offset`, in listing order.
pub open spec fn listing_from(t: Seq<SpecEntry>, ino: u64, offset: int) -> Seq<
    (u64, FileType, Seq<char>, int),
> {
    if 0 <= offset < listing_len(t, ino) {
        Seq::new((listing_len(t, ino) - offset) as nat, |j: int| listed_at(t, ino, offset + j))
    } else {
        Seq::empty()
    }
}

/// What a listing query returns: the position-ordered entries past `offset`,
/// WrongKind on a symlink, NotFound on an unknown identifier.
pub open spec fn spec_readdir(t: Seq<SpecEntry>, ino: u64, offset: int) -> Result<
    Seq<(u64, FileType, Seq<char>, int)>,
    FsError,
> {
    if !valid_ino(t, ino) {
        Err(FsError::NotFound)
    } else if entry_of(t, ino) is Link {
        Err(FsError::WrongKind)
    } else {
        Ok(listing_from(t, ino, offset))
    }
}

} // verus!
