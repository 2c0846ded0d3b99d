//! The inode table and the four query operations served against it.
//!
//! The table is built once from the link list, is immutable thereafter, and
//! every operation is a pure read: identity resolution, attribute query,
//! symlink-target query and resumable directory listing.
use vstd::prelude::*;
use crate::attr::{make_attr, FileAttr, FileType};
use crate::model::{
    add_link_spec, build_from, build_spec, child_index, children_of, entry_of, find_child,
    kind_of, lemma_child_index, lemma_wf_create_dir, lemma_wf_push_link, lemma_wf_set_child,
    listed_at, listing_from, listing_len, set_child, slot_ok, spec_getattr, spec_lookup,
    spec_readdir, spec_readlink, valid_ino, walk_spec, wf_table, add_child, init_table,
    unreferenced, BuildError, FsError, SpecEntry,
};
use crate::paths::{
    comp_wf, join_path, join_spec, lemma_path_comps_len, path_comps, path_wf, split_path, str_eq,
};

verus! {

/// One node: a directory holding (name, child identifier) pairs in insertion
/// order, or a symlink holding its absolute target path.
#[derive(Debug)]
pub enum Entry {
    Dir(Vec<(String, u64)>),
    Link(String),
}

impl View for Entry {
    type V = SpecEntry;

    open spec fn view(&self) -> SpecEntry {
        match self {
            Entry::Dir(c) => SpecEntry::Dir(c.deep_view()),
            Entry::Link(s) => SpecEntry::Link(s@),
        }
    }
}

impl DeepView for Entry {
    type V = SpecEntry;

    open spec fn deep_view(&self) -> SpecEntry {
        self.view()
    }
}

impl Entry {
    /// The kind of this node.
    pub fn kind(&self) -> (r: FileType)
        ensures
            r == kind_of(self@),
    {
        match self {
            Entry::Dir(_) => FileType::Directory,
            Entry::Link(_) => FileType::Symlink,
        }
    }
}

/// One produced listing entry: the child's identifier and kind, its name,
/// and its position in the full listing (positions start at 1; "." and ".."
/// hold positions 1 and 2). Passing a position back as the continuation
/// offset resumes the listing right after that entry.
#[derive(Debug)]
pub struct DirEntry {
    pub ino: u64,
    pub kind: FileType,
    pub name: String,
    pub position: u128,
}

/// A produced entry agrees with a listing entry of the model.
pub open spec fn entry_matches(d: DirEntry, s: (u64, FileType, Seq<char>, int)) -> bool {
    &&& d.ino == s.0
    &&& d.kind == s.1
    &&& d.name@ == s.2
    &&& d.position as int == s.3
}

/// The frozen inode table; the node at index `i` has identifier `i + 1` and
/// identifier 1 is the root directory.
pub struct SymlinkFS {
    table: Vec<Entry>,
}

impl View for SymlinkFS {
    type V = Seq<SpecEntry>;

    closed spec fn view(&self) -> Seq<SpecEntry> {
        self.table.deep_view()
    }
}

impl SymlinkFS {
    #[verifier::type_invariant]
    spec fn inv(self) -> bool {
        wf_table(self@)
    }

    /// Attribute query: succeeds for every existing node, of either kind.
    pub fn getattr(&self, ino: u64) -> (r: Result<FileAttr, FsError>)
        ensures
            r == spec_getattr(self@, ino),
    {
        proof {
            use_type_invariant(self);
        }
        if ino >= 1 && ino <= self.table.len() as u64 {
            let e = &self.table[(ino - 1) as usize];
            proof {
                assert(e@ == entry_of(self@, ino));
            }
            Ok(make_attr(ino, e.kind()))
        } else {
            Err(FsError::NotFound)
        }
    }

    /// The index of the child slot named `name` among `d`'s children, if any.
    fn find_index(d: &Vec<(String, u64)>, name: &str) -> (r: Option<usize>)
        ensures
            r matches Some(k) ==> 0 <= k < d.deep_view().len() && child_index(
                d.deep_view(),
                name@,
            ) == k,
            r is None ==> child_index(d.deep_view(), name@) == -1,
    {
        let ghost ch = d.deep_view();
        let mut i: usize = 0;
        while i < d.len()
            invariant
                ch == d.deep_view(),
                ch.len() == d.len(),
                0 <= i <= d.len(),
                forall|j: int| 0 <= j < i ==> (#[trigger] ch[j]).0 != name@,
            decreases d.len() - i,
        {
            proof {
                assert(ch[i as int] == (d[i as int].0@, d[i as int].1));
            }
            if str_eq(d[i].0.as_str(), name) {
                proof {
                    lemma_child_index(ch, name@);
                    if child_index(ch, name@) < i {
                        assert(ch[child_index(ch, name@)].0 == name@);
                    }
                    assert(child_index(ch, name@) == i);
                }
                return Some(i);
            }
            i += 1;
        }
        proof {
            lemma_child_index(ch, name@);
            if child_index(ch, name@) >= 0 {
                assert(ch[child_index(ch, name@)].0 == name@);
            }
        }
        None
    }

    /// The identifier registered under `name` among `d`'s children, if any.
    fn find(d: &Vec<(String, u64)>, name: &str) -> (r: Option<u64>)
        ensures
            r == find_child(d.deep_view(), name@),
    {
        proof {
            lemma_child_index(d.deep_view(), name@);
        }
        match Self::find_index(d, name) {
            Some(k) => {
                proof {
                    assert(d.deep_view()[k as int] == (d[k as int].0@, d[k as int].1));
                }
                Some(d[k].1)
            },
            None => None,
        }
    }

    /// Register a fresh `name` in the directory at table index `d`.
    fn append_child(table: &mut Vec<Entry>, d: usize, name: String, id: u64)
        requires
            d < old(table).len(),
            old(table).deep_view()[d as int] is Dir,
        ensures
            final(table)@.len() == old(table)@.len(),
            final(table).deep_view() == add_child(old(table).deep_view(), d as int, name@, id),
    {
        let ghost t0 = table.deep_view();
        let ghost nv = name@;
        let entry = table.remove(d);
        match entry {
            Entry::Dir(mut ch) => {
                let ghost ch0 = ch.deep_view();
                ch.push((name, id));
                proof {
                    assert(ch.deep_view() =~= ch0.push((nv, id)));
                }
                table.insert(d, Entry::Dir(ch));
                proof {
                    let t2 = add_child(t0, d as int, nv, id);
                    assert forall|idx: int| 0 <= idx < table@.len() implies table.deep_view()[idx]
                        == t2[idx] by {
                        if idx < d {
                            assert(table@[idx] == old(table)@[idx]);
                        } else if idx > d {
                            assert(table@[idx] == old(table)@[idx]);
                        }
                    }
                    assert(table.deep_view() =~= t2);
                }
            },
            Entry::Link(l) => {
                proof {
                    assert(false);
                }
                table.insert(d, Entry::Link(l));
            },
        }
    }

    /// Map `name` to `id` in the directory at table index `d`, replacing any
    /// prior mapping under that name in place, else appending it.
    fn put_child(table: &mut Vec<Entry>, d: usize, name: String, id: u64)
        requires
            d < old(table).len(),
            old(table).deep_view()[d as int] is Dir,
        ensures
            final(table)@.len() == old(table)@.len(),
            final(table).deep_view() == set_child(old(table).deep_view(), d as int, name@, id),
    {
        let ghost t0 = table.deep_view();
        let ghost nv = name@;
        let entry = table.remove(d);
        match entry {
            Entry::Dir(mut ch) => {
                let ghost ch0 = ch.deep_view();
                proof {
                    lemma_child_index(ch0, nv);
                }
                match Self::find_index(&ch, name.as_str()) {
                    Some(k) => {
                        ch[k] = (name, id);
                        proof {
                            assert(ch.deep_view() =~= ch0.update(k as int, (nv, id)));
                        }
                    },
                    None => {
                        ch.push((name, id));
                        proof {
                            assert(ch.deep_view() =~= ch0.push((nv, id)));
                        }
                    },
                }
                table.insert(d, Entry::Dir(ch));
                proof {
                    let t2 = set_child(t0, d as int, nv, id);
                    assert forall|idx: int| 0 <= idx < table@.len() implies table.deep_view()[idx]
                        == t2[idx] by {
                        if idx < d {
                            assert(table@[idx] == old(table)@[idx]);
                        } else if idx > d {
                            assert(table@[idx] == old(table)@[idx]);
                        }
                    }
                    assert(table.deep_view() =~= t2);
                }
            },
            Entry::Link(l) => {
                proof {
                    assert(false);
                }
                table.insert(d, Entry::Link(l));
            },
        }
    }

    /// Identity resolution: the child's identifier and attributes; NotFound
    /// when the parent is unknown, is no directory, or lacks the name.
    pub fn lookup(&self, parent: u64, name: &str) -> (r: Result<(u64, FileAttr), FsError>)
        ensures
            r == spec_lookup(self@, parent, name@),
    {
        proof {
            use_type_invariant(self);
        }
        if !(parent >= 1 && parent <= self.table.len() as u64) {
            return Err(FsError::NotFound);
        }
        let e = &self.table[(parent - 1) as usize];
        proof {
            assert(e@ == entry_of(self@, parent));
        }
        match e {
            Entry::Link(_) => Err(FsError::NotFound),
            Entry::Dir(d) => {
                match Self::find(d, name) {
                    Some(c) => {
                        proof {
                            let ch = d.deep_view();
                            lemma_child_index(ch, name@);
                            let k = child_index(ch, name@);
                            assert(children_of(entry_of(self@, parent)) == ch);
                            assert(ch[k].1 == c);
                            assert(slot_ok(self@, parent as int - 1, k));
                        }
                        let ce = &self.table[(c - 1) as usize];
                        proof {
                            assert(ce@ == entry_of(self@, c));
                        }
                        Ok((c, make_attr(c, ce.kind())))
                    },
                    None => Err(FsError::NotFound),
                }
            },
        }
    }

    /// Symlink-target query: the stored absolute target verbatim; WrongKind
    /// on a directory, NotFound on an unknown identifier.
    pub fn readlink(&self, ino: u64) -> (r: Result<String, FsError>)
        ensures
            r matches Ok(s) ==> spec_readlink(self@, ino) == Ok::<Seq<char>, FsError>(s@),
            r matches Err(e) ==> spec_readlink(self@, ino) == Err::<Seq<char>, FsError>(e),
    {
        proof {
            use_type_invariant(self);
        }
        if !(ino >= 1 && ino <= self.table.len() as u64) {
            return Err(FsError::NotFound);
        }
        let e = &self.table[(ino - 1) as usize];
        proof {
            assert(e@ == entry_of(self@, ino));
        }
        match e {
            Entry::Dir(_) => Err(FsError::WrongKind),
            Entry::Link(l) => Ok(l.clone()),
        }
    }

    /// Directory listing, resumable: the entries whose position exceeds
    /// `offset`, in the canonical order ".", "..", then the children in
    /// insertion order; WrongKind on a symlink, NotFound on an unknown
    /// identifier.
    pub fn readdir(&self, ino: u64, offset: u64) -> (r: Result<Vec<DirEntry>, FsError>)
        ensures
            r matches Err(e) ==> spec_readdir(self@, ino, offset as int) == Err::<
                Seq<(u64, FileType, Seq<char>, int)>,
                FsError,
            >(e),
            r matches Ok(v) ==> spec_readdir(self@, ino, offset as int) matches Ok(l) && v@.len()
                == l.len() && (forall|j: int|
                0 <= j < l.len() ==> entry_matches(#[trigger] v@[j], l[j])),
    {
        proof {
            use_type_invariant(self);
        }
        if !(ino >= 1 && ino <= self.table.len() as u64) {
            return Err(FsError::NotFound);
        }
        let e = &self.table[(ino - 1) as usize];
        proof {
            assert(e@ == entry_of(self@, ino));
        }
        match e {
            Entry::Link(_) => Err(FsError::WrongKind),
            Entry::Dir(d) => {
                let ghost l = listing_from(self@, ino, offset as int);
                let ghost total = listing_len(self@, ino);
                let mut out: Vec<DirEntry> = Vec::new();
                let off = offset as u128;
                if off < 1 {
                    out.push(
                        DirEntry {
                            ino,
                            kind: FileType::Directory,
                            name: dot_name(),
                            position: 1,
                        },
                    );
                }
                if off < 2 {
                    out.push(
                        DirEntry {
                            ino,
                            kind: FileType::Directory,
                            name: dot_dot_name(),
                            position: 2,
                        },
                    );
                }
                proof {
                    assert(out@.len() == if off < 1 {
                        2int
                    } else if off < 2 {
                        1int
                    } else {
                        0int
                    });
                    assert forall|j: int| 0 <= j < out@.len() implies entry_matches(
                        #[trigger] out@[j],
                        listed_at(self@, ino, offset + j),
                    ) by {
                        reveal_strlit(".");
                        reveal_strlit("..");
                    }
                }
                let mut j: usize = 0;
                while j < d.len()
                    invariant
                        self.inv(),
                        1 <= ino <= self.table.len(),
                        entry_of(self@, ino) == SpecEntry::Dir(d.deep_view()),
                        d.deep_view().len() == d.len(),
                        total == listing_len(self@, ino),
                        total == 2 + d.len(),
                        off == offset as u128,
                        0 <= j <= d.len(),
                        out@.len() == (if offset < 2 + j { 2 + j - offset } else { 0int }),
                        forall|i: int|
                            0 <= i < out@.len() ==> entry_matches(
                                #[trigger] out@[i],
                                listed_at(self@, ino, offset + i),
                            ),
                    decreases d.len() - j,
                {
                    proof {
                        assert(d.deep_view()[j as int] == (d[j as int].0@, d[j as int].1));
                    }
                    if (j as u128) + 2 >= off {
                        let (nm, c) = (&d[j].0, d[j].1);
                        proof {
                            assert(children_of(entry_of(self@, ino))[j as int].1 == c);
                            assert(slot_ok(self@, ino as int - 1, j as int));
                        }
                        let ce = &self.table[(c - 1) as usize];
                        proof {
                            assert(ce@ == entry_of(self@, c));
                        }
                        let de = DirEntry {
                            ino: c,
                            kind: ce.kind(),
                            name: nm.clone(),
                            position: (j as u128) + 3,
                        };
                        out.push(de);
                        proof {
                            let i = out@.len() - 1;
                            assert(offset + i == j + 2);
                            assert(entry_matches(out@[i], listed_at(self@, ino, j + 2)));
                        }
                    }
                    j += 1;
                }
                proof {
                    assert(out@.len() == l.len());
                    assert forall|i: int| 0 <= i < l.len() implies entry_matches(
                        #[trigger] out@[i],
                        l[i],
                    ) by {
                        assert(l[i] == listed_at(self@, ino, offset + i));
                    }
                }
                Ok(out)
            },
        }
    }
}

/// Build the inode table from the link list, in input order: identifier 1 is
/// the empty root; every link first allocates its symlink node with the
/// joined absolute target, then the missing parent directories along its
/// logical path, and finally maps the leaf name to the symlink, a later link
/// under the same logical path silently replacing an earlier one. A malformed
/// path component or a symlink met as a non-final component aborts the whole
/// build; nothing is ever served from a partial table.
pub fn entries_from_links(links: &Vec<(String, String)>, basedir: &str) -> (r: Result<
    SymlinkFS,
    BuildError,
>)
    ensures
        r matches Ok(fs) ==> build_spec(links.deep_view(), basedir@) == Ok::<
            Seq<SpecEntry>,
            BuildError,
        >(fs@) && wf_table(fs@),
        r matches Err(e) ==> build_spec(links.deep_view(), basedir@) == Err::<
            Seq<SpecEntry>,
            BuildError,
        >(e),
{
    let ghost dlinks = links.deep_view();
    let ghost base = basedir@;
    let mut table: Vec<Entry> = Vec::new();
    table.push(Entry::Dir(Vec::new()));
    proof {
        assert(table.deep_view() =~~= init_table());
        assert(wf_table(table.deep_view()));
        assert(dlinks.skip(0) =~= dlinks);
        assert(table@.len() <= usize::MAX);
    }
    let mut i: usize = 0;
    while i < links.len()
        invariant
            dlinks == links.deep_view(),
            base == basedir@,
            dlinks.len() == links@.len(),
            0 <= i <= links@.len(),
            wf_table(table.deep_view()),
            build_spec(dlinks, base) == build_from(table.deep_view(), dlinks.skip(i as int), base),
        decreases links@.len() - i,
    {
        let ghost t0 = table.deep_view();
        proof {
            assert(dlinks[i as int] == (links@[i as int].0@, links@[i as int].1@));
            assert(dlinks.skip(i as int)[0] == dlinks[i as int]);
            assert(dlinks.skip(i as int).drop_first() =~= dlinks.skip(i as int + 1));
        }
        let ghost path = dlinks[i as int].0;
        let ghost rel = dlinks[i as int].1;
        // split the logical path; a malformed component aborts the build
        let comps = match split_path(links[i].0.as_str()) {
            Some(c) => c,
            None => {
                proof {
                    assert(add_link_spec(t0, path, rel, base) == Err::<Seq<SpecEntry>, BuildError>(
                        BuildError::InvalidPath,
                    ));
                }
                return Err(BuildError::InvalidPath);
            },
        };
        let ghost ccomps = path_comps(path);
        let n = comps.len();
        proof {
            lemma_path_comps_len(path);
            assert(n >= 1);
        }
        // allocate the symlink node with the joined absolute target
        let target = join_path(basedir, links[i].1.as_str());
        table.push(Entry::Link(target));
        let link_id = table.len() as u64;
        let ghost t1 = table.deep_view();
        proof {
            assert(t1 =~= t0.push(SpecEntry::Link(join_spec(base, rel))));
            lemma_wf_push_link(t0, join_spec(base, rel));
            assert(link_id == t0.len() + 1);
        }
        let ghost wc = ccomps.drop_last();
        // walk the non-final components, creating missing directories
        let mut dir_id: u64 = 1;
        let mut m: usize = 0;
        proof {
            assert(wc.skip(0) =~= wc);
        }
        while m + 1 < n
            invariant
                dlinks == links.deep_view(),
                base == basedir@,
                dlinks.len() == links@.len(),
                0 <= i < links@.len(),
                path == dlinks[i as int].0,
                rel == dlinks[i as int].1,
                path_wf(path),
                ccomps == path_comps(path),
                comps.deep_view() == ccomps,
                n == comps@.len(),
                n == ccomps.len(),
                n >= 1,
                wc == ccomps.drop_last(),
                0 <= m < n,
                build_spec(dlinks, base) == build_from(t0, dlinks.skip(i as int), base),
                t0.len() >= 1,
                t1 == t0.push(SpecEntry::Link(join_spec(base, rel))),
                link_id == t0.len() + 1,
                wf_table(table.deep_view()),
                table@.len() >= t1.len(),
                table@.len() <= usize::MAX,
                valid_ino(table.deep_view(), link_id),
                entry_of(table.deep_view(), link_id) == SpecEntry::Link(join_spec(base, rel)),
                unreferenced(table.deep_view(), link_id),
                1 <= dir_id <= table@.len(),
                entry_of(table.deep_view(), dir_id) is Dir,
                walk_spec(t1, 1, wc) == walk_spec(table.deep_view(), dir_id, wc.skip(m as int)),
            decreases n - m,
        {
            let ghost tv = table.deep_view();
            proof {
                assert(comps.deep_view()[m as int] == comps@[m as int]@);
                assert(comp_wf(path_comps(path)[m as int]));
                assert(wc.skip(m as int)[0] == wc[m as int]);
                assert(wc[m as int] == ccomps[m as int]);
                assert(wc.skip(m as int).drop_first() =~= wc.skip(m as int + 1));
            }
            let didx = (dir_id - 1) as usize;
            let e = &table[didx];
            proof {
                assert(table.deep_view()[didx as int] == table@[didx as int]@);
                assert(e@ == entry_of(tv, dir_id));
            }
            let found = match e {
                Entry::Dir(ch) => {
                    proof {
                        assert(children_of(entry_of(tv, dir_id)) == ch.deep_view());
                    }
                    SymlinkFS::find(ch, comps[m].as_str())
                },
                Entry::Link(_) => {
                    proof {
                        assert(false);
                    }
                    None
                },
            };
            proof {
                assert(found == find_child(children_of(entry_of(tv, dir_id)), ccomps[m as int]));
            }
            match found {
                Some(c) => {
                    proof {
                        let chv = children_of(entry_of(tv, dir_id));
                        lemma_child_index(chv, ccomps[m as int]);
                        let k = child_index(chv, ccomps[m as int]);
                        assert(children_of(tv[dir_id as int - 1])[k].1 == c);
                        assert(slot_ok(tv, dir_id as int - 1, k));
                        assert(2 <= c <= tv.len());
                    }
                    let cidx = (c - 1) as usize;
                    let ce = &table[cidx];
                    proof {
                        assert(table.deep_view()[cidx as int] == table@[cidx as int]@);
                        assert(ce@ == entry_of(tv, c));
                    }
                    match ce {
                        Entry::Dir(_) => {
                            proof {
                                assert(walk_spec(tv, dir_id, wc.skip(m as int)) == walk_spec(
                                    tv,
                                    c,
                                    wc.skip(m as int + 1),
                                ));
                            }
                            dir_id = c;
                        },
                        Entry::Link(_) => {
                            proof {
                                assert(walk_spec(tv, dir_id, wc.skip(m as int)) is None);
                                assert(walk_spec(t1, 1, wc) is None);
                                assert(add_link_spec(t0, path, rel, base) == Err::<
                                    Seq<SpecEntry>,
                                    BuildError,
                                >(BuildError::NotADirectory));
                                assert(dlinks.skip(i as int)[0] == dlinks[i as int]);
                            }
                            return Err(BuildError::NotADirectory);
                        },
                    }
                },
                None => {
                    let nm = comps[m].clone();
                    table.push(Entry::Dir(Vec::new()));
                    let nid = table.len() as u64;
                    proof {
                        assert(nid == tv.len() + 1);
                        assert(table.deep_view()[didx as int] is Dir);
                    }
                    SymlinkFS::append_child(&mut table, didx, nm, nid);
                    proof {
                        let t2 = add_child(tv, dir_id as int - 1, ccomps[m as int], nid).push(
                            SpecEntry::Dir(Seq::empty()),
                        );
                        assert(table.deep_view() =~~= t2);
                        assert(dir_id != link_id);
                        lemma_wf_create_dir(tv, dir_id as int - 1, ccomps[m as int], link_id);
                        assert(walk_spec(tv, dir_id, wc.skip(m as int)) == walk_spec(
                            t2,
                            nid,
                            wc.skip(m as int + 1),
                        ));
                        assert(entry_of(t2, link_id) == entry_of(tv, link_id));
                    }
                    dir_id = nid;
                },
            }
            m += 1;
        }
        // map the leaf name to the symlink, the later link winning
        let ghost tv = table.deep_view();
        proof {
            assert(m + 1 == n);
            assert(wc.skip(m as int) =~= Seq::<Seq<char>>::empty());
            assert(walk_spec(t1, 1, wc) == Some::<(Seq<SpecEntry>, u64)>((tv, dir_id)));
            assert(comps.deep_view()[m as int] == comps@[m as int]@);
            assert(comp_wf(path_comps(path)[m as int]));
            assert(ccomps[m as int] == ccomps.last());
            assert(entry_of(tv, link_id) is Link);
            assert(link_id >= 2);
        }
        let leaf = comps[n - 1].clone();
        SymlinkFS::put_child(&mut table, (dir_id - 1) as usize, leaf, link_id);
        proof {
            lemma_wf_set_child(tv, dir_id as int - 1, ccomps.last(), link_id);
            assert(table.deep_view() == set_child(tv, dir_id as int - 1, ccomps.last(), link_id));
            assert(add_link_spec(t0, path, rel, base) == Ok::<Seq<SpecEntry>, BuildError>(
                table.deep_view(),
            ));
            assert(dlinks.skip(i as int)[0] == dlinks[i as int]);
            assert(dlinks.skip(i as int).drop_first() =~= dlinks.skip(i as int + 1));
            assert(build_from(t0, dlinks.skip(i as int), base) == build_from(
                table.deep_view(),
                dlinks.skip(i as int + 1),
                base,
            ));
        }
        i += 1;
    }
    proof {
        assert(dlinks.skip(links@.len() as int) =~= Seq::<(Seq<char>, Seq<char>)>::empty());
        assert(build_spec(dlinks, base) == Ok::<Seq<SpecEntry>, BuildError>(table.deep_view()));
    }
    Ok(SymlinkFS { table })
}

/// The synthetic name "." under which a directory lists itself.
fn dot_name() -> (r: String)
    ensures
        r@ == seq!['.'],
{
    proof {
        reveal_strlit(".");
    }
    let r = String::from_str(".");
    proof {
        assert(r@ =~= seq!['.']);
    }
    r
}

/// The synthetic name ".." under which a directory lists itself as parent.
fn dot_dot_name() -> (r: String)
    ensures
        r@ == seq!['.', '.'],
{
    proof {
        reveal_strlit("..");
    }
    let r = String::from_str("..");
    proof {
        assert(r@ =~= seq!['.', '.']);
    }
    r
}

} // verus!
