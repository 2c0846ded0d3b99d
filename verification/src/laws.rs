//! The library-wide laws, each proved once over the model.
use vstd::prelude::*;
use crate::attr::FileAttr;
use crate::model::{
    add_child, add_link_spec, build_from, build_spec, child_index, children_of, entry_of,
    find_child, init_table, is_prefix, kind_of, lemma_child_index, lemma_wf_create_dir, strict_prefix,
    lemma_wf_push_link, lemma_wf_set_child, listed_at, listing_from, listing_len, resolve_at,
    set_child, slot_ok, spec_getattr, spec_lookup, spec_readlink, unreferenced, valid_ino,
    walk_spec, wf_table, BuildError, FsError, SpecEntry,
};
use crate::paths::{comp_wf, join_spec, lemma_path_comps_len, path_comps, path_wf};

verus! {

/// Splitting a listing at any position `k` and concatenating the part before
/// `k` with a listing resumed at offset `k` yields exactly the unbounded
/// listing.
pub proof fn lemma_listing_resumable(t: Seq<SpecEntry>, ino: u64, k: int)
    requires
        0 <= k <= listing_len(t, ino),
    ensures
        listing_from(t, ino, 0).subrange(0, k) + listing_from(t, ino, k) == listing_from(
            t,
            ino,
            0,
        ),
{
    let full = listing_from(t, ino, 0);
    let head = full.subrange(0, k);
    let tail = listing_from(t, ino, k);
    assert forall|j: int| 0 <= j < full.len() implies (head + tail)[j] == full[j] by {
        if j < k {
            assert(head[j] == listed_at(t, ino, j));
        } else {
            assert(tail[j - k] == listed_at(t, ino, j));
        }
    }
    assert(head + tail =~= full);
}

/// An unbounded listing of a directory yields exactly "." and "..", both
/// referring to the directory itself, plus one entry per child in insertion
/// order — no duplicates, no omissions: all listed names are pairwise
/// distinct.
pub proof fn lemma_listing_complete(t: Seq<SpecEntry>, ino: u64)
    requires
        wf_table(t),
        valid_ino(t, ino),
        entry_of(t, ino) is Dir,
    ensures
        listing_from(t, ino, 0).len() == 2 + children_of(entry_of(t, ino)).len(),
        listing_from(t, ino, 0)[0] == (ino, crate::attr::FileType::Directory, seq!['.'], 1int),
        listing_from(t, ino, 0)[1] == (
            ino,
            crate::attr::FileType::Directory,
            seq!['.', '.'],
            2int,
        ),
        forall|k: int|
            0 <= k < children_of(entry_of(t, ino)).len() ==> (
            #[trigger] listing_from(t, ino, 0)[k + 2]).2 == children_of(entry_of(t, ino))[k].0
                && listing_from(t, ino, 0)[k + 2].0 == children_of(entry_of(t, ino))[k].1,
        forall|k1: int, k2: int|
            0 <= k1 < listing_from(t, ino, 0).len() && 0 <= k2 < listing_from(t, ino, 0).len()
                && k1 != k2 ==> (#[trigger] listing_from(t, ino, 0)[k1]).2 != (
            #[trigger] listing_from(t, ino, 0)[k2]).2,
{
    let ch = children_of(entry_of(t, ino));
    let full = listing_from(t, ino, 0);
    assert forall|k: int| 0 <= k < ch.len() implies comp_wf((#[trigger] ch[k]).0) by {
        assert(children_of(t[ino as int - 1])[k] == ch[k]);
        assert(slot_ok(t, ino as int - 1, k));
    }
    assert forall|k1: int, k2: int|
        0 <= k1 < full.len() && 0 <= k2 < full.len() && k1 != k2 implies (
    #[trigger] full[k1]).2 != (#[trigger] full[k2]).2 by {
        assert(full[k1] == listed_at(t, ino, k1));
        assert(full[k2] == listed_at(t, ino, k2));
        if k1 >= 2 && k2 >= 2 {
            assert(children_of(t[ino as int - 1])[k1 - 2] == ch[k1 - 2]);
            assert(children_of(t[ino as int - 1])[k2 - 2] == ch[k2 - 2]);
        } else if k1 >= 2 || k2 >= 2 {
            let kc = if k1 >= 2 {
                k1 - 2
            } else {
                k2 - 2
            };
            assert(comp_wf(ch[kc].0));
            assert(ch[kc].0 != seq!['.'] && ch[kc].0 != seq!['.', '.']);
        } else {
            assert(seq!['.'].len() != seq!['.', '.'].len());
        }
    }
}

/// After identity resolution returns a child identifier, an attribute query
/// on that identifier reports exactly the attributes resolution reported —
/// in particular the same entry kind.
pub proof fn lemma_lookup_getattr(
    t: Seq<SpecEntry>,
    parent: u64,
    name: Seq<char>,
    c: u64,
    a: FileAttr,
)
    requires
        wf_table(t),
        spec_lookup(t, parent, name) == Ok::<(u64, FileAttr), FsError>((c, a)),
    ensures
        spec_getattr(t, c) == Ok::<FileAttr, FsError>(a),
        a.kind == kind_of(entry_of(t, c)),
{
    let ch = children_of(entry_of(t, parent));
    lemma_child_index(ch, name);
    let k = child_index(ch, name);
    assert(children_of(t[parent as int - 1])[k].1 == c);
    assert(slot_ok(t, parent as int - 1, k));
}

/// A symlink-target query on a directory always fails with WrongKind and
/// never returns data.
pub proof fn lemma_readtarget_dir(t: Seq<SpecEntry>, ino: u64)
    requires
        valid_ino(t, ino),
        entry_of(t, ino) is Dir,
    ensures
        spec_readlink(t, ino) == Err::<Seq<char>, FsError>(FsError::WrongKind),
{
}

/// Resolving a name that a directory does not hold always fails with
/// NotFound; the operation reads the table through a shared reference, so it
/// can allocate no state.
pub proof fn lemma_lookup_absent(t: Seq<SpecEntry>, parent: u64, name: Seq<char>)
    requires
        valid_ino(t, parent),
        entry_of(t, parent) is Dir,
        find_child(children_of(entry_of(t, parent)), name) is None,
    ensures
        spec_lookup(t, parent, name) == Err::<(u64, FileAttr), FsError>(FsError::NotFound),
{
}

/// One resolution step: follow `name` out of whatever `r` reached.
spec fn resolve_last_step(t: Seq<SpecEntry>, r: Option<u64>, name: Seq<char>) -> Option<u64> {
    match r {
        Some(d) => if valid_ino(t, d) && entry_of(t, d) is Dir {
            find_child(children_of(entry_of(t, d)), name)
        } else {
            None
        },
        None => None,
    }
}

/// Resolution of a non-empty path decomposes at its last component.
proof fn lemma_resolve_last(t: Seq<SpecEntry>, s: u64, p: Seq<Seq<char>>)
    requires
        p.len() >= 1,
    ensures
        resolve_at(t, s, p) == resolve_last_step(t, resolve_at(t, s, p.drop_last()), p.last()),
    decreases p.len(),
{
    if p.len() == 1 {
        assert(p.drop_last() =~= Seq::<Seq<char>>::empty());
        if valid_ino(t, s) && entry_of(t, s) is Dir {
            match find_child(children_of(entry_of(t, s)), p[0]) {
                Some(c) => {
                    assert(p.drop_first().len() == 0);
                    assert(resolve_at(t, c, p.drop_first()) == Some(c));
                },
                None => {},
            }
        }
    } else {
        let q = p.drop_first();
        assert(p.drop_last()[0] == p[0]);
        assert(q.drop_last() =~= p.drop_last().drop_first());
        assert(q.last() == p.last());
        if valid_ino(t, s) && entry_of(t, s) is Dir {
            match find_child(children_of(entry_of(t, s)), p[0]) {
                Some(c) => {
                    lemma_resolve_last(t, c, q);
                },
                None => {},
            }
        }
    }
}

/// A resolved non-empty path ends in a registered child, so the node it
/// reaches exists and is not the root.
proof fn lemma_resolve_is_slot(t: Seq<SpecEntry>, p: Seq<Seq<char>>, x: u64)
    requires
        wf_table(t),
        p.len() >= 1,
        resolve_at(t, 1, p) == Some(x),
    ensures
        2 <= x <= t.len(),
    decreases p.len(),
{
    lemma_resolve_last(t, 1, p);
    let d = resolve_at(t, 1, p.drop_last()).unwrap();
    let ch = children_of(entry_of(t, d));
    lemma_child_index(ch, p.last());
    let k = child_index(ch, p.last());
    assert(children_of(t[d as int - 1])[k].1 == x);
    assert(slot_ok(t, d as int - 1, k));
}

/// Appending a slot shifts nothing: an already-present name keeps its index,
/// and only the appended name gains one.
proof fn lemma_child_index_push(ch: Seq<(Seq<char>, u64)>, slot: (Seq<char>, u64), name: Seq<char>)
    ensures
        child_index(ch.push(slot), name) == (if child_index(ch, name) >= 0 {
            child_index(ch, name)
        } else if slot.0 == name {
            ch.len() as int
        } else {
            -1
        }),
    decreases ch.len(),
{
    lemma_child_index(ch, name);
    if ch.len() == 0 {
        assert(ch.push(slot)[0] == slot);
        assert(ch.push(slot).drop_first() =~= Seq::<(Seq<char>, u64)>::empty());
        assert(child_index(Seq::<(Seq<char>, u64)>::empty(), name) == -1);
    } else {
        assert(ch.push(slot)[0] == ch[0]);
        assert(ch.push(slot).drop_first() =~= ch.drop_first().push(slot));
        lemma_child_index_push(ch.drop_first(), slot, name);
        assert(child_index(ch.push(slot), name) == (if ch[0].0 == name {
            0int
        } else {
            let r = child_index(ch.drop_first().push(slot), name);
            if r < 0 {
                -1int
            } else {
                1 + r
            }
        }));
        assert(child_index(ch, name) == (if ch[0].0 == name {
            0int
        } else {
            let r = child_index(ch.drop_first(), name);
            if r < 0 {
                -1int
            } else {
                1 + r
            }
        }));
    }
}

/// Replacing the slot at `k` by one with the same name moves no index: every
/// name is found where it was, and the replaced name now maps to the new
/// identifier.
proof fn lemma_child_index_update(
    ch: Seq<(Seq<char>, u64)>,
    k: int,
    slot: (Seq<char>, u64),
    name: Seq<char>,
)
    requires
        0 <= k < ch.len(),
        slot.0 == ch[k].0,
    ensures
        child_index(ch.update(k, slot), name) == child_index(ch, name),
    decreases ch.len(),
{
    let ch2 = ch.update(k, slot);
    assert(ch2.len() == ch.len());
    if k == 0 {
        assert(ch2[0] == slot);
        assert(ch2.drop_first() =~= ch.drop_first());
    } else {
        assert(ch2[0] == ch[0]);
        assert(ch2.drop_first() =~= ch.drop_first().update(k - 1, slot));
        lemma_child_index_update(ch.drop_first(), k - 1, slot, name);
    }
}

/// In a well-formed table, at most one component path from the root reaches
/// any given node: child registrations are injective, so resolution is too.
proof fn lemma_resolve_unique(t: Seq<SpecEntry>, p: Seq<Seq<char>>, q: Seq<Seq<char>>, x: u64)
    requires
        wf_table(t),
        resolve_at(t, 1, p) == Some(x),
        resolve_at(t, 1, q) == Some(x),
    ensures
        p == q,
    decreases p.len() + q.len(),
{
    if p.len() == 0 {
        assert(x == 1);
        if q.len() >= 1 {
            lemma_resolve_is_slot(t, q, x);
        }
        assert(q.len() == 0);
        assert(p =~= q);
    } else if q.len() == 0 {
        assert(x == 1);
        lemma_resolve_is_slot(t, p, x);
    } else {
        lemma_resolve_last(t, 1, p);
        lemma_resolve_last(t, 1, q);
        let dp = resolve_at(t, 1, p.drop_last()).unwrap();
        let dq = resolve_at(t, 1, q.drop_last()).unwrap();
        let chp = children_of(entry_of(t, dp));
        let chq = children_of(entry_of(t, dq));
        lemma_child_index(chp, p.last());
        lemma_child_index(chq, q.last());
        let kp = child_index(chp, p.last());
        let kq = child_index(chq, q.last());
        assert(children_of(t[dp as int - 1])[kp].1 == x);
        assert(children_of(t[dq as int - 1])[kq].1 == x);
        assert(dp as int - 1 == dq as int - 1 && kp == kq);
        assert(dp == dq);
        assert(p.last() == q.last());
        lemma_resolve_unique(t, p.drop_last(), q.drop_last(), dp);
        assert(p =~= p.drop_last().push(p.last()));
        assert(q =~= q.drop_last().push(q.last()));
    }
}

/// Creating a fresh empty directory under a fresh name changes no existing
/// resolution.
proof fn lemma_resolve_create(
    t: Seq<SpecEntry>,
    d: int,
    name: Seq<char>,
    s: u64,
    p: Seq<Seq<char>>,
    x: u64,
)
    requires
        wf_table(t),
        0 <= d < t.len(),
        t[d] is Dir,
        child_index(children_of(t[d]), name) == -1,
        t.len() + 1 <= u64::MAX,
        valid_ino(t, s),
        resolve_at(t, s, p) == Some(x),
    ensures
        resolve_at(
            add_child(t, d, name, (t.len() + 1) as u64).push(SpecEntry::Dir(Seq::empty())),
            s,
            p,
        ) == Some(x),
    decreases p.len(),
{
    let nid = (t.len() + 1) as u64;
    let t2 = add_child(t, d, name, nid).push(SpecEntry::Dir(Seq::empty()));
    if p.len() > 0 {
        let ch = children_of(entry_of(t, s));
        lemma_child_index(ch, p[0]);
        let k = child_index(ch, p[0]);
        let c = ch[k].1;
        assert(children_of(t[s as int - 1])[k].1 == c);
        assert(slot_ok(t, s as int - 1, k));
        if s as int - 1 == d {
            lemma_child_index_push(ch, (name, nid), p[0]);
            assert(children_of(entry_of(t2, s)) == ch.push((name, nid)));
            assert(ch.push((name, nid))[k] == ch[k]);
            assert(find_child(ch.push((name, nid)), p[0]) == Some(c));
        } else {
            assert(entry_of(t2, s) == entry_of(t, s));
        }
        lemma_resolve_create(t, d, name, c, p.drop_first(), x);
    }
}

/// Remapping one name of one directory leaves every resolution that does not
/// step through that name at that directory unchanged.
proof fn lemma_resolve_set(
    t: Seq<SpecEntry>,
    d: int,
    name: Seq<char>,
    id: u64,
    s: u64,
    p: Seq<Seq<char>>,
    x: u64,
)
    requires
        wf_table(t),
        0 <= d < t.len(),
        t[d] is Dir,
        d + 1 <= u64::MAX,
        valid_ino(t, s),
        resolve_at(t, s, p) == Some(x),
        forall|m: int|
            0 <= m < p.len() ==> !(resolve_at(t, s, #[trigger] p.subrange(0, m)) == Some(
                (d + 1) as u64,
            ) && p[m] == name),
    ensures
        resolve_at(set_child(t, d, name, id), s, p) == Some(x),
    decreases p.len(),
{
    let t2 = set_child(t, d, name, id);
    if p.len() > 0 {
        let ch = children_of(entry_of(t, s));
        lemma_child_index(ch, p[0]);
        let k = child_index(ch, p[0]);
        let c = ch[k].1;
        assert(children_of(t[s as int - 1])[k].1 == c);
        assert(slot_ok(t, s as int - 1, k));
        assert(p.subrange(0, 0) =~= Seq::<Seq<char>>::empty());
        if s as int - 1 == d {
            assert(resolve_at(t, s, p.subrange(0, 0)) == Some(s));
            assert(p[0] != name);
            let ki = child_index(ch, name);
            lemma_child_index(ch, name);
            if ki >= 0 {
                lemma_child_index_update(ch, ki, (name, id), p[0]);
                assert(children_of(entry_of(t2, s)) == ch.update(ki, (name, id)));
                assert(ch[ki].0 == name);
                assert(k != ki);
                assert(ch.update(ki, (name, id))[k] == ch[k]);
                assert(find_child(ch.update(ki, (name, id)), p[0]) == Some(c));
            } else {
                lemma_child_index_push(ch, (name, id), p[0]);
                assert(children_of(entry_of(t2, s)) == ch.push((name, id)));
                assert(ch.push((name, id))[k] == ch[k]);
                assert(find_child(ch.push((name, id)), p[0]) == Some(c));
            }
        } else {
            assert(entry_of(t2, s) == entry_of(t, s));
        }
        assert forall|m: int| 0 <= m < p.drop_first().len() implies !(resolve_at(
            t,
            c,
            #[trigger] p.drop_first().subrange(0, m),
        ) == Some((d + 1) as u64) && p.drop_first()[m] == name) by {
            assert(p.subrange(0, m + 1).drop_first() =~= p.drop_first().subrange(0, m));
            assert(p.subrange(0, m + 1)[0] == p[0]);
            assert(resolve_at(t, s, p.subrange(0, m + 1)) == resolve_at(
                t,
                c,
                p.drop_first().subrange(0, m),
            ));
            assert(p.drop_first()[m] == p[m + 1]);
        }
        lemma_resolve_set(t, d, name, id, c, p.drop_first(), x);
    }
}

/// What a successful walk guarantees: the table stays well-formed and grows
/// by at most one node per component, existing resolutions and all symlink
/// nodes survive untouched, the kept identifier stays unreferenced, and the
/// directory reached is exactly the walked path's resolution.
proof fn lemma_walk(
    t: Seq<SpecEntry>,
    dir: u64,
    comps: Seq<Seq<char>>,
    keep: u64,
    q: Seq<Seq<char>>,
)
    requires
        wf_table(t),
        t.len() + comps.len() <= u64::MAX,
        valid_ino(t, dir),
        entry_of(t, dir) is Dir,
        forall|k: int| 0 <= k < comps.len() ==> comp_wf(#[trigger] comps[k]),
        valid_ino(t, keep),
        entry_of(t, keep) is Link,
        unreferenced(t, keep),
        resolve_at(t, 1, q) == Some(dir),
    ensures
        walk_spec(t, dir, comps) matches Some(r) ==> ({
            &&& wf_table(r.0)
            &&& t.len() <= r.0.len() <= t.len() + comps.len()
            &&& valid_ino(r.0, r.1)
            &&& entry_of(r.0, r.1) is Dir
            &&& valid_ino(r.0, keep)
            &&& entry_of(r.0, keep) == entry_of(t, keep)
            &&& unreferenced(r.0, keep)
            &&& (forall|x: u64|
                valid_ino(t, x) && entry_of(t, x) is Link ==> #[trigger] entry_of(r.0, x)
                    == entry_of(t, x))
            &&& (forall|p: Seq<Seq<char>>|
                resolve_at(t, 1, p) is Some ==> #[trigger] resolve_at(r.0, 1, p) == resolve_at(
                    t,
                    1,
                    p,
                ))
            &&& (forall|x: u64|
                valid_ino(t, x) ==> ((#[trigger] entry_of(r.0, x)) is Dir <==> entry_of(t, x)
                    is Dir))
            &&& (forall|p: Seq<Seq<char>>|
                #[trigger] resolve_is_link(r.0, p) ==> resolve_at(t, 1, p) == resolve_at(
                    r.0,
                    1,
                    p,
                ) && resolve_is_link(t, p))
            &&& resolve_at(r.0, 1, q + comps) == Some(r.1)
        }),
    decreases comps.len(),
{
    if comps.len() == 0 {
        assert(q + comps =~= q);
    } else {
        let ch = children_of(entry_of(t, dir));
        lemma_child_index(ch, comps[0]);
        let q1 = q.push(comps[0]);
        match find_child(ch, comps[0]) {
            Some(c) => {
                let k = child_index(ch, comps[0]);
                assert(children_of(t[dir as int - 1])[k].1 == c);
                assert(slot_ok(t, dir as int - 1, k));
                if entry_of(t, c) is Dir {
                    lemma_resolve_last(t, 1, q1);
                    assert(q1.drop_last() =~= q);
                    assert(q1.last() == comps[0]);
                    assert(resolve_at(t, 1, q1) == Some(c));
                    assert forall|k2: int| 0 <= k2 < comps.drop_first().len() implies comp_wf(
                        #[trigger] comps.drop_first()[k2],
                    ) by {
                        assert(comps.drop_first()[k2] == comps[k2 + 1]);
                    }
                    lemma_walk(t, c, comps.drop_first(), keep, q1);
                    assert(q1 + comps.drop_first() =~= q + comps);
                }
            },
            None => {
                let nid = (t.len() + 1) as u64;
                let t1 = add_child(t, dir as int - 1, comps[0], nid).push(
                    SpecEntry::Dir(Seq::empty()),
                );
                lemma_wf_create_dir(t, dir as int - 1, comps[0], keep);
                lemma_resolve_create(t, dir as int - 1, comps[0], 1, q, dir);
                lemma_resolve_last(t1, 1, q1);
                assert(q1.drop_last() =~= q);
                assert(q1.last() == comps[0]);
                assert(entry_of(t1, dir) == SpecEntry::Dir(ch.push((comps[0], nid))));
                lemma_child_index_push(ch, (comps[0], nid), comps[0]);
                assert(ch.push((comps[0], nid))[ch.len() as int] == (comps[0], nid));
                assert(find_child(ch.push((comps[0], nid)), comps[0]) == Some(nid));
                assert(resolve_at(t1, 1, q1) == Some(nid));
                assert forall|k2: int| 0 <= k2 < comps.drop_first().len() implies comp_wf(
                    #[trigger] comps.drop_first()[k2],
                ) by {
                    assert(comps.drop_first()[k2] == comps[k2 + 1]);
                }
                assert(valid_ino(t1, keep) && entry_of(t1, keep) == entry_of(t, keep));
                lemma_walk(t1, nid, comps.drop_first(), keep, q1);
                assert(q1 + comps.drop_first() =~= q + comps);
                if walk_spec(t1, nid, comps.drop_first()) is Some {
                    let rt = walk_spec(t1, nid, comps.drop_first()).unwrap().0;
                    assert(walk_spec(t, dir, comps) == walk_spec(t1, nid, comps.drop_first()));
                    assert forall|p: Seq<Seq<char>>| resolve_at(t, 1, p) is Some implies
                        #[trigger] resolve_at(rt, 1, p) == resolve_at(t, 1, p) by {
                        let x = resolve_at(t, 1, p).unwrap();
                        lemma_resolve_create(t, dir as int - 1, comps[0], 1, p, x);
                        assert(resolve_at(t1, 1, p) == Some(x));
                    }
                    assert forall|x: u64|
                        valid_ino(t, x) && entry_of(t, x) is Link implies #[trigger] entry_of(
                        rt,
                        x,
                    ) == entry_of(t, x) by {
                        assert(x != dir);
                        assert(entry_of(t1, x) == entry_of(t, x));
                        assert(valid_ino(t1, x) && entry_of(t1, x) is Link);
                    }
                    assert forall|x: u64| valid_ino(t, x) implies ((#[trigger] entry_of(rt, x))
                        is Dir <==> entry_of(t, x) is Dir) by {
                        if x == dir {
                            assert(entry_of(t1, x) is Dir);
                        } else {
                            assert(entry_of(t1, x) == entry_of(t, x));
                        }
                        assert(valid_ino(t1, x));
                    }
                    assert forall|p: Seq<Seq<char>>| #[trigger] resolve_is_link(rt, p) implies
                        resolve_at(t, 1, p) == resolve_at(rt, 1, p) && resolve_is_link(t, p) by {
                        let x = resolve_at(rt, 1, p).unwrap();
                        assert(resolve_is_link(t1, p));
                        assert(resolve_at(t1, 1, p) == Some(x));
                        lemma_resolve_create_rev(t, dir as int - 1, comps[0], 1, p, x);
                        if x == nid {
                            assert(entry_of(t1, nid) is Dir);
                            assert(false);
                        }
                        assert(resolve_at(t, 1, p) == Some(x));
                        if p.len() == 0 {
                            assert(x == 1);
                            assert(entry_of(t1, 1) is Dir);
                            assert(false);
                        }
                        lemma_resolve_is_slot(t, p, x);
                        assert(x != dir);
                        assert(entry_of(t, x) == entry_of(t1, x));
                    }
                }
            },
        }
    }
}

/// A walk that starts in an empty directory only ever creates fresh empty
/// directories, so it always succeeds.
proof fn lemma_walk_empty(t: Seq<SpecEntry>, dir: u64, comps: Seq<Seq<char>>)
    requires
        1 <= dir <= t.len(),
        t.len() + comps.len() <= u64::MAX,
        entry_of(t, dir) is Dir,
        children_of(entry_of(t, dir)).len() == 0,
    ensures
        walk_spec(t, dir, comps) is Some,
    decreases comps.len(),
{
    if comps.len() > 0 {
        assert(child_index(children_of(entry_of(t, dir)), comps[0]) == -1);
        let nid = (t.len() + 1) as u64;
        let t1 = add_child(t, dir as int - 1, comps[0], nid).push(SpecEntry::Dir(Seq::empty()));
        assert(entry_of(t1, nid) == SpecEntry::Dir(Seq::empty()));
        lemma_walk_empty(t1, nid, comps.drop_first());
    }
}

/// A failed walk met a symlink as a non-final step, and that symlink was
/// already resolvable before the walk touched anything: creations begin only
/// after the last existing directory, and below a fresh directory nothing can
/// fail any more.
proof fn lemma_walk_none(t: Seq<SpecEntry>, dir: u64, comps: Seq<Seq<char>>, q: Seq<Seq<char>>)
    requires
        wf_table(t),
        t.len() + comps.len() <= u64::MAX,
        valid_ino(t, dir),
        entry_of(t, dir) is Dir,
        resolve_at(t, 1, q) == Some(dir),
        walk_spec(t, dir, comps) is None,
    ensures
        exists|m: int|
            0 <= m < comps.len() && #[trigger] resolve_is_link(t, q + comps.subrange(0, m + 1)),
    decreases comps.len(),
{
    assert(comps.len() > 0);
    let ch = children_of(entry_of(t, dir));
    lemma_child_index(ch, comps[0]);
    let q1 = q.push(comps[0]);
    match find_child(ch, comps[0]) {
        Some(c) => {
            let k = child_index(ch, comps[0]);
            assert(children_of(t[dir as int - 1])[k].1 == c);
            assert(slot_ok(t, dir as int - 1, k));
            lemma_resolve_last(t, 1, q1);
            assert(q1.drop_last() =~= q);
            assert(q1.last() == comps[0]);
            assert(resolve_at(t, 1, q1) == Some(c));
            if entry_of(t, c) is Dir {
                lemma_walk_none(t, c, comps.drop_first(), q1);
                let m = choose|m: int|
                    0 <= m < comps.drop_first().len() && #[trigger] resolve_is_link(
                        t,
                        q1 + comps.drop_first().subrange(0, m + 1),
                    );
                let m1 = m + 1;
                assert(q1 + comps.drop_first().subrange(0, m + 1) =~= q + comps.subrange(
                    0,
                    m1 + 1,
                ));
                assert(0 <= m1 < comps.len() && resolve_is_link(t, q + comps.subrange(0, m1 + 1)));
            } else {
                let m0: int = 0;
                assert(q + comps.subrange(0, m0 + 1) =~= q1);
                assert(0 <= m0 < comps.len() && resolve_is_link(t, q + comps.subrange(0, m0 + 1)));
            }
        },
        None => {
            let nid = (t.len() + 1) as u64;
            let t1 = add_child(t, dir as int - 1, comps[0], nid).push(SpecEntry::Dir(Seq::empty()));
            assert(entry_of(t1, nid) == SpecEntry::Dir(Seq::empty()));
            lemma_walk_empty(t1, nid, comps.drop_first());
            assert(false);
        },
    }
}

/// Every leading segment of a resolving path resolves too, and every node it
/// passes before the end is a directory.
proof fn lemma_resolve_chain(t: Seq<SpecEntry>, s: u64, p: Seq<Seq<char>>, m: int)
    requires
        resolve_at(t, s, p) is Some,
        0 <= m <= p.len(),
    ensures
        resolve_at(t, s, p.subrange(0, m)) is Some,
        m < p.len() ==> entry_of(t, resolve_at(t, s, p.subrange(0, m)).unwrap()) is Dir,
    decreases p.len(),
{
    if m == 0 {
        assert(p.subrange(0, 0) =~= Seq::<Seq<char>>::empty());
        assert(resolve_at(t, s, p.subrange(0, 0)) == Some(s));
    } else {
        let ch = children_of(entry_of(t, s));
        lemma_child_index(ch, p[0]);
        let k = child_index(ch, p[0]);
        let c = ch[k].1;
        lemma_resolve_chain(t, c, p.drop_first(), m - 1);
        assert(p.subrange(0, m).drop_first() =~= p.drop_first().subrange(0, m - 1));
        assert(p.subrange(0, m)[0] == p[0]);
        assert(resolve_at(t, s, p.subrange(0, m)) == resolve_at(
            t,
            c,
            p.drop_first().subrange(0, m - 1),
        ));
    }
}

proof fn lemma_prefix_trans(a: Seq<Seq<char>>, b: Seq<Seq<char>>, c: Seq<Seq<char>>)
    requires
        is_prefix(a, b),
        is_prefix(b, c),
    ensures
        is_prefix(a, c),
{
    assert(c.subrange(0, b.len() as int).subrange(0, a.len() as int) =~= c.subrange(
        0,
        a.len() as int,
    ));
}

/// Appending any node to the table changes no resolution.
proof fn lemma_resolve_push(t: Seq<SpecEntry>, e: SpecEntry, s: u64, p: Seq<Seq<char>>, x: u64)
    requires
        wf_table(t),
        valid_ino(t, s),
        resolve_at(t, s, p) == Some(x),
    ensures
        resolve_at(t.push(e), s, p) == Some(x),
        valid_ino(t, x),
    decreases p.len(),
{
    let t1 = t.push(e);
    assert(t1[s as int - 1] == t[s as int - 1]);
    if p.len() > 0 {
        let ch = children_of(entry_of(t, s));
        lemma_child_index(ch, p[0]);
        let k = child_index(ch, p[0]);
        let c = ch[k].1;
        assert(children_of(t[s as int - 1])[k].1 == c);
        assert(slot_ok(t, s as int - 1, k));
        lemma_resolve_push(t, e, c, p.drop_first(), x);
    }
}

/// The path resolves from the root and reaches a symlink node.
pub open spec fn resolve_is_link(t: Seq<SpecEntry>, p: Seq<Seq<char>>) -> bool {
    match resolve_at(t, 1, p) {
        Some(x) => entry_of(t, x) is Link,
        None => false,
    }
}

/// Appending an unreferenced node creates no new resolution.
proof fn lemma_resolve_push_rev(t: Seq<SpecEntry>, e: SpecEntry, s: u64, p: Seq<Seq<char>>, x: u64)
    requires
        wf_table(t),
        valid_ino(t, s),
        resolve_at(t.push(e), s, p) == Some(x),
    ensures
        resolve_at(t, s, p) == Some(x),
        valid_ino(t, x),
    decreases p.len(),
{
    let t1 = t.push(e);
    assert(t1[s as int - 1] == t[s as int - 1]);
    if p.len() > 0 {
        let ch = children_of(entry_of(t, s));
        lemma_child_index(ch, p[0]);
        let k = child_index(ch, p[0]);
        let c = ch[k].1;
        assert(children_of(t[s as int - 1])[k].1 == c);
        assert(slot_ok(t, s as int - 1, k));
        lemma_resolve_push_rev(t, e, c, p.drop_first(), x);
    }
}

/// Creating a fresh empty directory adds exactly one resolution: the new
/// directory's own path; everything else already resolved before.
proof fn lemma_resolve_create_rev(
    t: Seq<SpecEntry>,
    d: int,
    name: Seq<char>,
    s: u64,
    p: Seq<Seq<char>>,
    x: u64,
)
    requires
        wf_table(t),
        0 <= d < t.len(),
        t[d] is Dir,
        child_index(children_of(t[d]), name) == -1,
        t.len() + 1 <= u64::MAX,
        valid_ino(t, s) || s == (t.len() + 1) as u64,
        resolve_at(
            add_child(t, d, name, (t.len() + 1) as u64).push(SpecEntry::Dir(Seq::empty())),
            s,
            p,
        ) == Some(x),
    ensures
        resolve_at(t, s, p) == Some(x) || x == (t.len() + 1) as u64,
    decreases p.len(),
{
    let nid = (t.len() + 1) as u64;
    let t2 = add_child(t, d, name, nid).push(SpecEntry::Dir(Seq::empty()));
    if p.len() == 0 {
    } else if s == nid {
        assert(entry_of(t2, s) == SpecEntry::Dir(Seq::empty()));
        assert(children_of(entry_of(t2, s)).len() == 0);
        assert(child_index(children_of(entry_of(t2, s)), p[0]) == -1);
        assert(find_child(children_of(entry_of(t2, s)), p[0]) is None);
        assert(false);
    } else {
        let ch = children_of(entry_of(t, s));
        let ch2 = children_of(entry_of(t2, s));
        if s as int - 1 == d {
            assert(ch2 == ch.push((name, nid)));
            lemma_child_index_push(ch, (name, nid), p[0]);
            lemma_child_index(ch2, p[0]);
            lemma_child_index(ch, p[0]);
            let k2 = child_index(ch2, p[0]);
            let c = ch2[k2].1;
            if child_index(ch, p[0]) >= 0 {
                assert(ch2[k2] == ch[k2]);
                assert(children_of(t[s as int - 1])[k2].1 == c);
                assert(slot_ok(t, s as int - 1, k2));
                lemma_resolve_create_rev(t, d, name, c, p.drop_first(), x);
            } else {
                assert(k2 == ch.len());
                assert(c == nid);
                lemma_resolve_create_rev(t, d, name, nid, p.drop_first(), x);
                assert(resolve_at(t2, nid, p.drop_first()) == Some(x));
                if p.drop_first().len() > 0 {
                    assert(children_of(entry_of(t2, nid)).len() == 0);
                    assert(child_index(children_of(entry_of(t2, nid)), p.drop_first()[0]) == -1);
                    assert(false);
                }
                assert(x == nid);
            }
        } else {
            assert(entry_of(t2, s) == entry_of(t, s));
            lemma_child_index(ch, p[0]);
            let k = child_index(ch, p[0]);
            let c = ch[k].1;
            assert(children_of(t[s as int - 1])[k].1 == c);
            assert(slot_ok(t, s as int - 1, k));
            lemma_resolve_create_rev(t, d, name, c, p.drop_first(), x);
        }
    }
}

/// Remapping one name of one directory adds at most one resolution: the path
/// that ends with that name at that directory, which now reaches the new
/// identifier; every other resolution already existed.
proof fn lemma_resolve_set_rev(
    t: Seq<SpecEntry>,
    d: int,
    name: Seq<char>,
    id: u64,
    s: u64,
    p: Seq<Seq<char>>,
    x: u64,
)
    requires
        wf_table(t),
        0 <= d < t.len(),
        t[d] is Dir,
        d + 1 <= u64::MAX,
        valid_ino(t, id),
        entry_of(t, id) is Link,
        valid_ino(t, s),
        resolve_at(set_child(t, d, name, id), s, p) == Some(x),
    ensures
        resolve_at(t, s, p) == Some(x) || (x == id && p.len() >= 1 && p.last() == name
            && resolve_at(set_child(t, d, name, id), s, p.drop_last()) == Some((d + 1) as u64)),
    decreases p.len(),
{
    let t2 = set_child(t, d, name, id);
    if p.len() > 0 {
        let ch = children_of(entry_of(t, s));
        let ch2 = children_of(entry_of(t2, s));
        lemma_child_index(ch, p[0]);
        lemma_child_index(ch2, p[0]);
        let k2 = child_index(ch2, p[0]);
        let c = ch2[k2].1;
        let ki = child_index(ch, name);
        lemma_child_index(ch, name);
        if s as int - 1 == d {
            if p[0] == name {
                // the remapped edge: it leads to the symlink `id`
                if ki >= 0 {
                    lemma_child_index_update(ch, ki, (name, id), p[0]);
                    assert(ch2 == ch.update(ki, (name, id)));
                    assert(k2 == ki);
                    assert(ch2[ki] == (name, id));
                } else {
                    lemma_child_index_push(ch, (name, id), p[0]);
                    assert(ch2 == ch.push((name, id)));
                    assert(k2 == ch.len());
                    assert(ch2[k2] == (name, id));
                }
                assert(c == id);
                if p.drop_first().len() > 0 {
                    assert(find_child(ch2, p[0]) == Some(id));
                    assert(resolve_at(t2, s, p) == resolve_at(t2, id, p.drop_first()));
                    assert(entry_of(t2, id) == entry_of(t, id));
                    assert(!(entry_of(t2, id) is Dir));
                    assert(resolve_at(t2, id, p.drop_first()) is None);
                    assert(false);
                }
                assert(p.len() == 1);
                assert(x == id);
                assert(p.last() == name);
                assert(p.drop_last() =~= Seq::<Seq<char>>::empty());
                assert(resolve_at(t2, s, p.drop_last()) == Some(s));
                assert(s == (d + 1) as u64);
            } else {
                if ki >= 0 {
                    lemma_child_index_update(ch, ki, (name, id), p[0]);
                    assert(ch2 == ch.update(ki, (name, id)));
                    assert(ch[ki].0 == name);
                    assert(k2 != ki);
                    assert(ch2[k2] == ch[k2]);
                } else {
                    lemma_child_index_push(ch, (name, id), p[0]);
                    assert(ch2 == ch.push((name, id)));
                    assert(k2 < ch.len());
                    assert(ch2[k2] == ch[k2]);
                }
                assert(children_of(t[s as int - 1])[k2].1 == c);
                assert(slot_ok(t, s as int - 1, k2));
                lemma_resolve_set_rev(t, d, name, id, c, p.drop_first(), x);
                if resolve_at(t, c, p.drop_first()) == Some(x) {
                    assert(find_child(ch, p[0]) == Some(c));
                } else {
                    assert(p.drop_first().drop_last() =~= p.drop_last().drop_first());
                    assert(p.drop_last()[0] == p[0]);
                    assert(p.drop_last().len() >= 1);
                    assert(resolve_at(t2, s, p.drop_last()) == resolve_at(
                        t2,
                        c,
                        p.drop_last().drop_first(),
                    ));
                }
            }
        } else {
            assert(entry_of(t2, s) == entry_of(t, s));
            assert(ch2 == ch);
            assert(children_of(t[s as int - 1])[k2].1 == c);
            assert(slot_ok(t, s as int - 1, k2));
            lemma_resolve_set_rev(t, d, name, id, c, p.drop_first(), x);
            if resolve_at(t, c, p.drop_first()) == Some(x) {
            } else {
                assert(p.drop_first().drop_last() =~= p.drop_last().drop_first());
                assert(p.drop_last()[0] == p[0]);
                assert(p.drop_last().len() >= 1);
                assert(resolve_at(t2, s, p.drop_last()) == resolve_at(
                    t2,
                    c,
                    p.drop_last().drop_first(),
                ));
            }
        }
    }
}

/// No link after `i` (before `upto`) has a logical path that is the whole of
/// link `i`'s path or a leading segment of it; such a later link would
/// replace the symlink, or an ancestor directory, of link `i`.
pub open spec fn unshadowed(links: Seq<(Seq<char>, Seq<char>)>, i: int, upto: int) -> bool {
    forall|j: int|
        i < j < upto ==> !is_prefix(path_comps((#[trigger] links[j]).0), path_comps(links[i].0))
}

/// Link `i`'s logical path resolves from the root to a symlink holding the
/// canonical join of the base directory and link `i`'s storage path.
pub open spec fn link_resolved(
    links: Seq<(Seq<char>, Seq<char>)>,
    base: Seq<char>,
    i: int,
    t: Seq<SpecEntry>,
) -> bool {
    let r = resolve_at(t, 1, path_comps(links[i].0));
    &&& r is Some
    &&& valid_ino(t, r.unwrap())
    &&& entry_of(t, r.unwrap()) == SpecEntry::Link(join_spec(base, links[i].1))
}

/// How many nodes the links from `k` on can still allocate: one symlink each,
/// and at most one directory per non-final path component.
pub open spec fn nodes_needed(links: Seq<(Seq<char>, Seq<char>)>, k: int) -> nat
    decreases links.len() - k,
{
    if 0 <= k < links.len() {
        path_comps(links[k].0).len() + 1 + nodes_needed(links, k + 1)
    } else {
        0
    }
}

proof fn lemma_build_fold(
    links: Seq<(Seq<char>, Seq<char>)>,
    base: Seq<char>,
    k: int,
    t: Seq<SpecEntry>,
    tfin: Seq<SpecEntry>,
)
    requires
        0 <= k <= links.len(),
        wf_table(t),
        t.len() + nodes_needed(links, k) <= u64::MAX,
        build_from(t, links.skip(k), base) == Ok::<Seq<SpecEntry>, BuildError>(tfin),
        forall|i: int|
            0 <= i < k && unshadowed(links, i, k) ==> #[trigger] link_resolved(links, base, i, t),
    ensures
        wf_table(tfin),
        forall|i: int|
            0 <= i < links.len() && unshadowed(links, i, links.len() as int) ==> #[trigger] link_resolved(
                links,
                base,
                i,
                tfin,
            ),
    decreases links.len() - k,
{
    if k == links.len() {
        assert(links.skip(k) =~= Seq::<(Seq<char>, Seq<char>)>::empty());
        assert(tfin == t);
    } else {
        assert(links.skip(k)[0] == links[k]);
        assert(links.skip(k).drop_first() =~= links.skip(k + 1));
        let path = links[k].0;
        let rel = links[k].1;
        let step = add_link_spec(t, path, rel, base);
        assert(step is Ok);
        let t3 = step.unwrap();
        assert(build_from(t3, links.skip(k + 1), base) == Ok::<Seq<SpecEntry>, BuildError>(tfin));
        assert(path_wf(path));
        let comps = path_comps(path);
        lemma_path_comps_len(path);
        let wc = comps.drop_last();
        let link_id = (t.len() + 1) as u64;
        assert(t.len() + 1 <= u64::MAX);
        let t1 = t.push(SpecEntry::Link(join_spec(base, rel)));
        lemma_wf_push_link(t, join_spec(base, rel));
        let wres = walk_spec(t1, 1, wc);
        assert(wres is Some);
        let t2 = wres.unwrap().0;
        let d2 = wres.unwrap().1;
        assert(t3 == set_child(t2, d2 as int - 1, comps.last(), link_id));
        assert forall|k2: int| 0 <= k2 < wc.len() implies comp_wf(#[trigger] wc[k2]) by {
            assert(wc[k2] == comps[k2]);
        }
        assert(comp_wf(comps.last()));
        assert(resolve_at(t1, 1, Seq::<Seq<char>>::empty()) == Some(1u64));
        assert(t1[0] == t[0]);
        assert(valid_ino(t1, 1) && entry_of(t1, 1) is Dir);
        assert(valid_ino(t1, link_id) && entry_of(t1, link_id) == SpecEntry::Link(
            join_spec(base, rel),
        ));
        lemma_walk(t1, 1, wc, link_id, Seq::<Seq<char>>::empty());
        assert(Seq::<Seq<char>>::empty() + wc =~= wc);
        assert(resolve_at(t2, 1, wc) == Some(d2));
        assert(entry_of(t2, link_id) == SpecEntry::Link(join_spec(base, rel)));
        lemma_wf_set_child(t2, d2 as int - 1, comps.last(), link_id);
        assert(wf_table(t3) && t3.len() == t2.len());
        // the new link's own path now resolves to its symlink
        assert forall|m: int| 0 <= m < wc.len() implies !(resolve_at(
            t2,
            1,
            #[trigger] wc.subrange(0, m),
        ) == Some(((d2 as int - 1) + 1) as u64) && wc[m] == comps.last()) by {
            if resolve_at(t2, 1, wc.subrange(0, m)) == Some(d2) {
                lemma_resolve_unique(t2, wc.subrange(0, m), wc, d2);
            }
        }
        assert(((d2 as int - 1) + 1) as u64 == d2);
        lemma_resolve_set(t2, d2 as int - 1, comps.last(), link_id, 1, wc, d2);
        assert(resolve_at(t3, 1, wc) == Some(d2));
        lemma_resolve_last(t3, 1, comps);
        assert(comps.drop_last() == wc);
        let och = children_of(t2[d2 as int - 1]);
        let ki = child_index(och, comps.last());
        lemma_child_index(och, comps.last());
        if ki >= 0 {
            lemma_child_index_update(och, ki, (comps.last(), link_id), comps.last());
            assert(children_of(entry_of(t3, d2)) == och.update(ki, (comps.last(), link_id)));
            assert(och.update(ki, (comps.last(), link_id))[ki] == (comps.last(), link_id));
            assert(find_child(och.update(ki, (comps.last(), link_id)), comps.last()) == Some(
                link_id,
            ));
        } else {
            lemma_child_index_push(och, (comps.last(), link_id), comps.last());
            assert(children_of(entry_of(t3, d2)) == och.push((comps.last(), link_id)));
            assert(och.push((comps.last(), link_id))[och.len() as int] == (
                comps.last(),
                link_id,
            ));
            assert(find_child(och.push((comps.last(), link_id)), comps.last()) == Some(link_id));
        }
        assert(resolve_at(t3, 1, comps) == Some(link_id));
        assert(link_id != d2);
        assert(entry_of(t3, link_id) == entry_of(t2, link_id));
        assert(link_resolved(links, base, k, t3));
        // every earlier, still-unshadowed link keeps resolving unchanged
        assert forall|i: int| 0 <= i < k + 1 && unshadowed(links, i, k + 1) implies
            #[trigger] link_resolved(links, base, i, t3) by {
            if i < k {
                assert forall|j: int| i < j < k implies !is_prefix(
                    path_comps((#[trigger] links[j]).0),
                    path_comps(links[i].0),
                ) by {
                    assert(i < j < k + 1);
                }
                assert(unshadowed(links, i, k));
                assert(link_resolved(links, base, i, t));
                let ci = path_comps(links[i].0);
                let x = resolve_at(t, 1, ci).unwrap();
                lemma_resolve_push(t, SpecEntry::Link(join_spec(base, rel)), 1, ci, x);
                assert(resolve_at(t1, 1, ci) == Some(x));
                assert(resolve_at(t2, 1, ci) == Some(x));
                assert(entry_of(t1, x) == entry_of(t, x));
                assert(valid_ino(t1, x) && entry_of(t1, x) is Link);
                assert(entry_of(t2, x) == entry_of(t1, x));
                assert forall|m: int| 0 <= m < ci.len() implies !(resolve_at(
                    t2,
                    1,
                    #[trigger] ci.subrange(0, m),
                ) == Some(((d2 as int - 1) + 1) as u64) && ci[m] == comps.last()) by {
                    if resolve_at(t2, 1, ci.subrange(0, m)) == Some(d2) && ci[m] == comps.last() {
                        lemma_resolve_unique(t2, ci.subrange(0, m), wc, d2);
                        assert(ci.subrange(0, m) == wc);
                        assert(ci.subrange(0, m + 1) =~= wc.push(comps.last()));
                        assert(comps =~= wc.push(comps.last()));
                        assert(ci.subrange(0, m + 1) == ci.subrange(0, comps.len() as int));
                        assert(is_prefix(path_comps(links[k].0), path_comps(links[i].0)));
                        assert(!is_prefix(path_comps(links[k].0), path_comps(links[i].0)));
                    }
                }
                lemma_resolve_set(t2, d2 as int - 1, comps.last(), link_id, 1, ci, x);
                assert(resolve_at(t3, 1, ci) == Some(x));
                assert(x != d2);
                assert(entry_of(t3, x) == entry_of(t2, x));
            }
        }
        assert(t3.len() + nodes_needed(links, k + 1) <= u64::MAX);
        lemma_build_fold(links, base, k + 1, t3, tfin);
    }
}

/// Among the links before `j` whose path is a strict leading segment of link
/// `j`'s path, pick one of minimal length: nothing before `j` strictly
/// prefixes it in turn.
proof fn pick_minimal_prefix(links: Seq<(Seq<char>, Seq<char>)>, j: int, i0: int) -> (i: int)
    requires
        0 <= i0 < j < links.len(),
        strict_prefix(path_comps(links[i0].0), path_comps(links[j].0)),
    ensures
        0 <= i < j,
        strict_prefix(path_comps(links[i].0), path_comps(links[j].0)),
        forall|i2: int|
            0 <= i2 < j ==> !strict_prefix(
                path_comps((#[trigger] links[i2]).0),
                path_comps(links[i].0),
            ),
    decreases path_comps(links[i0].0).len(),
{
    if exists|i2: int|
        0 <= i2 < j && strict_prefix(path_comps((#[trigger] links[i2]).0), path_comps(links[i0].0)) {
        let i2 = choose|i2: int|
            0 <= i2 < j && strict_prefix(
                path_comps((#[trigger] links[i2]).0),
                path_comps(links[i0].0),
            );
        lemma_prefix_trans(
            path_comps(links[i2].0),
            path_comps(links[i0].0),
            path_comps(links[j].0),
        );
        pick_minimal_prefix(links, j, i2)
    } else {
        i0
    }
}

/// No link before `upto` with an index past `i` strictly prefixes link `i`.
spec fn no_strict_shadow(links: Seq<(Seq<char>, Seq<char>)>, i: int, upto: int) -> bool {
    forall|i2: int|
        i < i2 < upto ==> !strict_prefix(
            path_comps((#[trigger] links[i2]).0),
            path_comps(links[i].0),
        )
}

/// Every path that resolves to a symlink is the logical path of one of the
/// first `k` links.
spec fn links_complete(links: Seq<(Seq<char>, Seq<char>)>, k: int, t: Seq<SpecEntry>) -> bool {
    forall|p: Seq<Seq<char>>|
        #[trigger] resolve_is_link(t, p) ==> exists|i: int|
            0 <= i < k && path_comps((#[trigger] links[i]).0) == p
}

/// Every processed link that no later processed link strictly prefixes still
/// has a symlink at its logical path.
spec fn links_present(links: Seq<(Seq<char>, Seq<char>)>, k: int, t: Seq<SpecEntry>) -> bool {
    forall|i: int|
        0 <= i < k && no_strict_shadow(links, i, k) ==> #[trigger] resolve_is_link(
            t,
            path_comps(links[i].0),
        )
}

/// Every logical path is made of ordinary names.
pub open spec fn all_paths_wf(links: Seq<(Seq<char>, Seq<char>)>) -> bool {
    forall|i: int| 0 <= i < links.len() ==> path_wf((#[trigger] links[i]).0)
}

/// No link's logical path is a strict leading segment of a later link's.
pub open spec fn prefix_free(links: Seq<(Seq<char>, Seq<char>)>) -> bool {
    forall|i: int, j: int|
        0 <= i < j < links.len() ==> !strict_prefix(
            path_comps((#[trigger] links[i]).0),
            path_comps((#[trigger] links[j]).0),
        )
}

proof fn lemma_build_fold2(
    links: Seq<(Seq<char>, Seq<char>)>,
    base: Seq<char>,
    k: int,
    t: Seq<SpecEntry>,
)
    requires
        0 <= k <= links.len(),
        wf_table(t),
        t.len() + nodes_needed(links, k) <= u64::MAX,
        links_complete(links, k, t),
        links_present(links, k, t),
    ensures
        all_paths_wf(links) && prefix_free(links) ==> build_from(t, links.skip(k), base) is Ok,
        build_from(t, links.skip(k), base) is Ok ==> forall|j: int|
            k <= j < links.len() ==> path_wf((#[trigger] links[j]).0) && (forall|i: int|
                0 <= i < j ==> !strict_prefix(
                    path_comps((#[trigger] links[i]).0),
                    path_comps(links[j].0),
                )),
    decreases links.len() - k,
{
    if k == links.len() {
        assert(links.skip(k) =~= Seq::<(Seq<char>, Seq<char>)>::empty());
    } else {
        assert(links.skip(k)[0] == links[k]);
        assert(links.skip(k).drop_first() =~= links.skip(k + 1));
        let path = links[k].0;
        let rel = links[k].1;
        let comps = path_comps(path);
        lemma_path_comps_len(path);
        let wc = comps.drop_last();
        if !path_wf(path) {
            assert(add_link_spec(t, path, rel, base) is Err);
            assert(build_from(t, links.skip(k), base) is Err);
            assert(all_paths_wf(links) ==> path_wf((links[k]).0));
        } else {
            let link_id = (t.len() + 1) as u64;
            assert(t.len() + 1 <= u64::MAX);
            let t1 = t.push(SpecEntry::Link(join_spec(base, rel)));
            lemma_wf_push_link(t, join_spec(base, rel));
            assert(t1[0] == t[0]);
            assert(valid_ino(t1, 1) && entry_of(t1, 1) is Dir);
            assert(resolve_at(t1, 1, Seq::<Seq<char>>::empty()) == Some(1u64));
            assert forall|k2: int| 0 <= k2 < wc.len() implies comp_wf(#[trigger] wc[k2]) by {
                assert(wc[k2] == comps[k2]);
            }
            assert(comp_wf(comps.last()));
            if walk_spec(t1, 1, wc) is None {
                assert(build_from(t, links.skip(k), base) is Err);
                if all_paths_wf(links) && prefix_free(links) {
                    lemma_walk_none(t1, 1, wc, Seq::<Seq<char>>::empty());
                    let m = choose|m: int|
                        0 <= m < wc.len() && #[trigger] resolve_is_link(
                            t1,
                            Seq::<Seq<char>>::empty() + wc.subrange(0, m + 1),
                        );
                    let pp = Seq::<Seq<char>>::empty() + wc.subrange(0, m + 1);
                    let x = resolve_at(t1, 1, pp).unwrap();
                    lemma_resolve_push_rev(t, SpecEntry::Link(join_spec(base, rel)), 1, pp, x);
                    assert(entry_of(t, x) == entry_of(t1, x));
                    assert(resolve_is_link(t, pp));
                    let i = choose|i: int|
                        0 <= i < k && path_comps((#[trigger] links[i]).0) == pp;
                    assert(pp =~= comps.subrange(0, m + 1));
                    assert(comps.subrange(0, m + 1) == comps.subrange(0, comps.len() as int).subrange(
                        0,
                        m + 1,
                    ));
                    assert(path_comps(links[i].0) == path_comps(links[k].0).subrange(0, m + 1));
                    assert(strict_prefix(path_comps(links[i].0), path_comps(links[k].0)));
                    assert(false);
                }
            } else {
                let t2 = walk_spec(t1, 1, wc).unwrap().0;
                let d2 = walk_spec(t1, 1, wc).unwrap().1;
                lemma_walk(t1, 1, wc, link_id, Seq::<Seq<char>>::empty());
                assert(Seq::<Seq<char>>::empty() + wc =~= wc);
                assert(resolve_at(t2, 1, wc) == Some(d2));
                assert(entry_of(t2, link_id) == SpecEntry::Link(join_spec(base, rel)));
                let t3 = set_child(t2, d2 as int - 1, comps.last(), link_id);
                assert(add_link_spec(t, path, rel, base) == Ok::<Seq<SpecEntry>, BuildError>(t3));
                lemma_wf_set_child(t2, d2 as int - 1, comps.last(), link_id);
                assert(((d2 as int - 1) + 1) as u64 == d2);
                // the new link's path resolves to the new symlink
                assert forall|m: int| 0 <= m < wc.len() implies !(resolve_at(
                    t2,
                    1,
                    #[trigger] wc.subrange(0, m),
                ) == Some(((d2 as int - 1) + 1) as u64) && wc[m] == comps.last()) by {
                    if resolve_at(t2, 1, wc.subrange(0, m)) == Some(d2) {
                        lemma_resolve_unique(t2, wc.subrange(0, m), wc, d2);
                    }
                }
                lemma_resolve_set(t2, d2 as int - 1, comps.last(), link_id, 1, wc, d2);
                assert(resolve_at(t3, 1, wc) == Some(d2));
                lemma_resolve_last(t3, 1, comps);
                let och = children_of(t2[d2 as int - 1]);
                let ki = child_index(och, comps.last());
                lemma_child_index(och, comps.last());
                if ki >= 0 {
                    lemma_child_index_update(och, ki, (comps.last(), link_id), comps.last());
                    assert(children_of(entry_of(t3, d2)) == och.update(
                        ki,
                        (comps.last(), link_id),
                    ));
                    assert(och.update(ki, (comps.last(), link_id))[ki] == (
                        comps.last(),
                        link_id,
                    ));
                    assert(find_child(och.update(ki, (comps.last(), link_id)), comps.last())
                        == Some(link_id));
                } else {
                    lemma_child_index_push(och, (comps.last(), link_id), comps.last());
                    assert(children_of(entry_of(t3, d2)) == och.push((comps.last(), link_id)));
                    assert(och.push((comps.last(), link_id))[och.len() as int] == (
                        comps.last(),
                        link_id,
                    ));
                    assert(find_child(och.push((comps.last(), link_id)), comps.last()) == Some(
                        link_id,
                    ));
                }
                assert(comps.drop_last() == wc);
                assert(resolve_at(t3, 1, comps) == Some(link_id));
                assert(link_id != d2);
                assert(entry_of(t3, link_id) == entry_of(t2, link_id));
                assert(resolve_is_link(t3, comps));
                // completeness carries over: the only new symlink path is this link's
                assert forall|p: Seq<Seq<char>>| #[trigger] resolve_is_link(t3, p) implies exists|
                    i: int,
                |
                    0 <= i < k + 1 && path_comps((#[trigger] links[i]).0) == p by {
                    let x = resolve_at(t3, 1, p).unwrap();
                    lemma_resolve_set_rev(t2, d2 as int - 1, comps.last(), link_id, 1, p, x);
                    if resolve_at(t2, 1, p) == Some(x) {
                        assert(entry_of(t3, x) is Link);
                        assert(t3[d2 as int - 1] is Dir);
                        assert(x != d2);
                        if p.len() == 0 {
                            assert(x == 1);
                            assert(t3[0] is Dir);
                            assert(false);
                        }
                        lemma_resolve_is_slot(t3, p, x);
                        assert(entry_of(t3, x) == entry_of(t2, x));
                        assert(resolve_is_link(t2, p));
                        assert(resolve_at(t1, 1, p) == Some(x) && resolve_is_link(t1, p));
                        lemma_resolve_push_rev(t, SpecEntry::Link(join_spec(base, rel)), 1, p, x);
                        assert(entry_of(t, x) == entry_of(t1, x));
                        assert(resolve_is_link(t, p));
                        let i = choose|i: int|
                            0 <= i < k && path_comps((#[trigger] links[i]).0) == p;
                        assert(0 <= i < k + 1 && path_comps(links[i].0) == p);
                    } else {
                        assert(x == link_id && p.len() >= 1 && p.last() == comps.last()
                            && resolve_at(t3, 1, p.drop_last()) == Some(d2));
                        lemma_resolve_unique(t3, p.drop_last(), wc, d2);
                        assert(p =~= wc.push(comps.last()));
                        assert(comps =~= wc.push(comps.last()));
                        assert(path_comps(links[k].0) == p);
                        assert(0 <= k < k + 1 && path_comps(links[k].0) == p);
                    }
                }
                // presence carries over for every still-unshadowed link
                assert forall|i: int| 0 <= i < k + 1 && no_strict_shadow(links, i, k + 1) implies
                    #[trigger] resolve_is_link(t3, path_comps(links[i].0)) by {
                    if i < k {
                        assert forall|i2: int| i < i2 < k implies !strict_prefix(
                            path_comps((#[trigger] links[i2]).0),
                            path_comps(links[i].0),
                        ) by {
                            assert(i < i2 < k + 1);
                        }
                        assert(no_strict_shadow(links, i, k));
                        assert(resolve_is_link(t, path_comps(links[i].0)));
                        let ci = path_comps(links[i].0);
                        let x = resolve_at(t, 1, ci).unwrap();
                        lemma_resolve_push(t, SpecEntry::Link(join_spec(base, rel)), 1, ci, x);
                        assert(entry_of(t1, x) == entry_of(t, x));
                        assert(resolve_at(t2, 1, ci) == Some(x));
                        assert(valid_ino(t1, x) && entry_of(t1, x) is Link);
                        assert(entry_of(t2, x) == entry_of(t1, x));
                        if ci == comps {
                            assert(resolve_is_link(t3, comps));
                        } else {
                            assert forall|m: int| 0 <= m < ci.len() implies !(resolve_at(
                                t2,
                                1,
                                #[trigger] ci.subrange(0, m),
                            ) == Some(((d2 as int - 1) + 1) as u64) && ci[m] == comps.last()) by {
                                if resolve_at(t2, 1, ci.subrange(0, m)) == Some(d2) && ci[m]
                                    == comps.last() {
                                    lemma_resolve_unique(t2, ci.subrange(0, m), wc, d2);
                                    assert(ci.subrange(0, m) == wc);
                                    assert(ci.subrange(0, m + 1) =~= wc.push(comps.last()));
                                    assert(comps =~= wc.push(comps.last()));
                                    assert(ci.subrange(0, m + 1) == comps);
                                    if m + 1 < ci.len() {
                                        assert(comps == ci.subrange(0, ci.len() as int).subrange(
                                            0,
                                            m + 1,
                                        ));
                                        assert(strict_prefix(path_comps(links[k].0), ci));
                                        assert(false);
                                    } else {
                                        assert(ci =~= ci.subrange(0, m + 1));
                                        assert(ci == comps);
                                        assert(false);
                                    }
                                }
                            }
                            lemma_resolve_set(
                                t2,
                                d2 as int - 1,
                                comps.last(),
                                link_id,
                                1,
                                ci,
                                x,
                            );
                            assert(resolve_at(t3, 1, ci) == Some(x));
                            assert(x != d2);
                            assert(entry_of(t3, x) == entry_of(t2, x));
                        }
                    }
                }
                assert(t3.len() == t2.len());
                assert(t3.len() + nodes_needed(links, k + 1) <= u64::MAX);
                lemma_build_fold2(links, base, k + 1, t3);
                assert(build_from(t, links.skip(k), base) == build_from(
                    t3,
                    links.skip(k + 1),
                    base,
                ));
                // a successful step rules out any strict prefix of this link
                if build_from(t3, links.skip(k + 1), base) is Ok {
                    assert forall|i: int| 0 <= i < k implies !strict_prefix(
                        path_comps((#[trigger] links[i]).0),
                        path_comps(links[k].0),
                    ) by {
                        if strict_prefix(path_comps(links[i].0), path_comps(links[k].0)) {
                            let im = pick_minimal_prefix(links, k, i);
                            let cm = path_comps(links[im].0);
                            assert(no_strict_shadow(links, im, k));
                            assert(resolve_is_link(t, cm));
                            let x = resolve_at(t, 1, cm).unwrap();
                            lemma_resolve_push(
                                t,
                                SpecEntry::Link(join_spec(base, rel)),
                                1,
                                cm,
                                x,
                            );
                            assert(entry_of(t1, x) == entry_of(t, x));
                            assert(resolve_at(t2, 1, cm) == Some(x));
                            assert(valid_ino(t1, x) && entry_of(t1, x) is Link);
                            assert(entry_of(t2, x) == entry_of(t1, x));
                            // yet the walk passed straight through that node
                            assert(cm.len() <= wc.len());
                            assert(cm == comps.subrange(0, cm.len() as int));
                            assert(cm =~= wc.subrange(0, cm.len() as int));
                            lemma_resolve_chain(t2, 1, wc, cm.len() as int);
                            if cm.len() < wc.len() {
                                assert(entry_of(
                                    t2,
                                    resolve_at(t2, 1, wc.subrange(0, cm.len() as int)).unwrap(),
                                ) is Dir);
                            } else {
                                assert(wc.subrange(0, cm.len() as int) =~= wc);
                                assert(entry_of(t2, d2) is Dir);
                            }
                            assert(false);
                        }
                    }
                }
            }
        }
    }
}

/// The build succeeds exactly when every logical path is made of ordinary
/// names and no link's logical path is a strict leading segment of a later
/// link's: a malformed component is rejected outright, a strict prefix plants
/// a symlink where the later link needs a directory, and nothing else can
/// fail. The bound keeps every allocated identifier within the 64-bit
/// identifier space.
pub proof fn lemma_build_ok_iff(links: Seq<(Seq<char>, Seq<char>)>, base: Seq<char>)
    requires
        1 + nodes_needed(links, 0) <= u64::MAX,
    ensures
        build_spec(links, base) is Ok <==> all_paths_wf(links) && prefix_free(links),
{
    let t0 = init_table();
    assert(children_of(t0[0]).len() == 0);
    assert(wf_table(t0));
    assert(links.skip(0) =~= links);
    assert forall|p: Seq<Seq<char>>| #[trigger] resolve_is_link(t0, p) implies exists|i: int|
        0 <= i < 0 && path_comps((#[trigger] links[i]).0) == p by {
        if p.len() == 0 {
            assert(resolve_at(t0, 1, p) == Some(1u64));
            assert(entry_of(t0, 1) is Dir);
        } else {
            assert(child_index(children_of(entry_of(t0, 1)), p[0]) == -1);
        }
    }
    lemma_build_fold2(links, base, 0, t0);
    if build_spec(links, base) is Ok {
        assert forall|i: int, j: int| 0 <= i < j < links.len() implies !strict_prefix(
            path_comps((#[trigger] links[i]).0),
            path_comps((#[trigger] links[j]).0),
        ) by {
            assert(0 <= j < links.len());
        }
    }
}

/// After a successful build, resolving any original logical path that no
/// later link shadows — by an equal logical path or by one that is a leading
/// segment of it — walks component by component from the root to a symlink
/// whose target is the canonical join of the base directory and that link's
/// storage path. The bound keeps every allocated identifier within the
/// 64-bit identifier space.
pub proof fn lemma_build_resolves(
    links: Seq<(Seq<char>, Seq<char>)>,
    base: Seq<char>,
    t: Seq<SpecEntry>,
    i: int,
)
    requires
        1 + nodes_needed(links, 0) <= u64::MAX,
        build_spec(links, base) == Ok::<Seq<SpecEntry>, BuildError>(t),
        0 <= i < links.len(),
        unshadowed(links, i, links.len() as int),
    ensures
        resolve_at(t, 1, path_comps(links[i].0)) is Some,
        entry_of(t, resolve_at(t, 1, path_comps(links[i].0)).unwrap()) == SpecEntry::Link(
            join_spec(base, links[i].1),
        ),
{
    let t0 = init_table();
    assert(children_of(t0[0]).len() == 0);
    assert(wf_table(t0));
    assert(links.skip(0) =~= links);
    lemma_build_fold(links, base, 0, t0, t);
    assert(link_resolved(links, base, i, t));
}

} // verus!
