//! Logical-path splitting and target-path joining.
//!
//! A logical path is a '/'-separated sequence of names. A name is ordinary
//! when it is non-empty, contains no separator, and is neither `.` nor `..`;
//! any other component makes the whole path malformed.
use vstd::prelude::*;
use vstd::string::*;

verus! {

/// An ordinary path component: non-empty, no separator, not `.` or `..`.
pub open spec fn comp_wf(c: Seq<char>) -> bool {
    &&& c.len() > 0
    &&& !c.contains('/')
    &&& c != seq!['.']
    &&& c != seq!['.', '.']
}

/// Index of the first '/' in `s`, or `s.len()` if there is none.
pub open spec fn first_sep(s: Seq<char>) -> int
    decreases s.len(),
{
    if s.len() == 0 {
        0
    } else if s[0] == '/' {
        0
    } else {
        1 + first_sep(s.drop_first())
    }
}

pub proof fn lemma_first_sep(s: Seq<char>)
    ensures
        0 <= first_sep(s) <= s.len(),
        first_sep(s) < s.len() ==> s[first_sep(s)] == '/',
        forall|j: int| 0 <= j < first_sep(s) ==> s[j] != '/',
    decreases s.len(),
{
    if s.len() == 0 {
    } else if s[0] == '/' {
    } else {
        lemma_first_sep(s.drop_first());
        assert forall|j: int| 0 <= j < first_sep(s) implies s[j] != '/' by {
            if j >= 1 {
                assert(s.drop_first()[j - 1] == s[j]);
            }
        }
    }
}

/// `first_sep` is determined by the position of the first separator.
pub proof fn lemma_first_sep_is(s: Seq<char>, m: int)
    requires
        0 <= m <= s.len(),
        forall|j: int| 0 <= j < m ==> s[j] != '/',
        m < s.len() ==> s[m] == '/',
    ensures
        first_sep(s) == if m < s.len() { m } else { s.len() as int },
    decreases s.len(),
{
    if s.len() == 0 {
    } else if s[0] == '/' {
        assert(m == 0);
    } else {
        assert(m >= 1);
        let t = s.drop_first();
        assert forall|j: int| 0 <= j < m - 1 implies t[j] != '/' by {
            assert(t[j] == s[j + 1]);
        }
        lemma_first_sep_is(t, m - 1);
    }
}

#[via_fn]
proof fn path_comps_dec(s: Seq<char>) {
    lemma_first_sep(s);
}

/// The ordered components of a '/'-separated path, empty segments kept.
pub open spec fn path_comps(s: Seq<char>) -> Seq<Seq<char>>
    decreases s.len(),
    via path_comps_dec
{
    let k = first_sep(s);
    if k >= s.len() {
        seq![s]
    } else {
        seq![s.subrange(0, k)] + path_comps(s.subrange(k + 1, s.len() as int))
    }
}

pub proof fn lemma_path_comps_len(s: Seq<char>)
    ensures
        path_comps(s).len() >= 1,
    decreases s.len(),
{
    lemma_first_sep(s);
    let k = first_sep(s);
    if k < s.len() {
        lemma_path_comps_len(s.subrange(k + 1, s.len() as int));
    }
}

/// A well-formed logical path: every component is an ordinary name.
pub open spec fn path_wf(s: Seq<char>) -> bool {
    forall|k: int| 0 <= k < path_comps(s).len() ==> comp_wf(#[trigger] path_comps(s)[k])
}

/// The absolute target obtained by joining a base directory with a relative
/// storage path; an absolute storage path stands on its own.
pub open spec fn join_spec(base: Seq<char>, rel: Seq<char>) -> Seq<char> {
    if rel.len() > 0 && rel[0] == '/' {
        rel
    } else if base.len() > 0 && base[base.len() - 1] == '/' {
        base + rel
    } else {
        base + seq!['/'] + rel
    }
}

/// Compare two string slices by their character sequences.
pub fn str_eq(a: &str, b: &str) -> (r: bool)
    ensures
        r == (a@ == b@),
{
    let alen = a.unicode_len();
    let blen = b.unicode_len();
    if alen != blen {
        return false;
    }
    let mut i: usize = 0;
    while i < alen
        invariant
            alen == a@.len(),
            alen == b@.len(),
            0 <= i <= alen,
            forall|j: int| 0 <= j < i ==> a@[j] == b@[j],
        decreases alen - i,
    {
        if a.get_char(i) != b.get_char(i) {
            return false;
        }
        i += 1;
    }
    proof {
        assert(a@ =~= b@);
    }
    true
}

/// Split a logical path into its ordered components, rejecting any path with
/// a component that is not an ordinary name.
pub fn split_path(s: &str) -> (r: Option<Vec<String>>)
    ensures
        r matches Some(v) ==> v.deep_view() == path_comps(s@) && path_wf(s@),
        r is None ==> !path_wf(s@),
{
    let n = s.unicode_len();
    let mut comps: Vec<String> = Vec::new();
    let mut start: usize = 0;
    let mut i: usize = 0;
    proof {
        assert(s@.subrange(0, n as int) =~= s@);
        assert(comps.deep_view() =~= Seq::<Seq<char>>::empty());
        assert(comps.deep_view() + path_comps(s@) =~= path_comps(s@));
    }
    loop
        invariant
            n == s@.len(),
            0 <= start <= i <= n,
            path_comps(s@) == comps.deep_view() + path_comps(s@.subrange(start as int, n as int)),
            forall|j: int| start <= j < i ==> s@[j] != '/',
            forall|k: int| 0 <= k < comps.deep_view().len() ==> comp_wf(
                #[trigger] comps.deep_view()[k],
            ),
        decreases n - i,
    {
        let ghost suffix = s@.subrange(start as int, n as int);
        let at_end = i == n;
        if at_end || s.get_char(i) == '/' {
            // the component s@[start..i] ends here
            proof {
                assert forall|j: int| 0 <= j < i - start implies suffix[j] != '/' by {
                    assert(suffix[j] == s@[start + j]);
                }
                if !at_end {
                    assert(suffix[i - start] == s@[i as int]);
                }
                lemma_first_sep_is(suffix, i - start);
            }
            let ghost comp = s@.subrange(start as int, i as int);
            proof {
                assert(comp =~= suffix.subrange(0, i - start));
                if at_end {
                    assert(suffix =~= comp);
                    assert(path_comps(suffix) == seq![comp]);
                } else {
                    assert(suffix.subrange(i - start + 1, suffix.len() as int) =~= s@.subrange(
                        i + 1,
                        n as int,
                    ));
                    assert(path_comps(suffix) == seq![comp] + path_comps(
                        s@.subrange(i + 1, n as int),
                    ));
                }
            }
            // reject a component that is not an ordinary name
            let len = i - start;
            let bad = if len == 0 {
                true
            } else if len == 1 && s.get_char(start) == '.' {
                proof {
                    assert(comp =~= seq!['.']);
                }
                true
            } else if len == 2 && s.get_char(start) == '.' && s.get_char(start + 1) == '.' {
                proof {
                    assert(comp =~= seq!['.', '.']);
                }
                true
            } else {
                false
            };
            proof {
                assert forall|j: int| 0 <= j < comp.len() implies comp[j] != '/' by {
                    assert(comp[j] == s@[start + j]);
                }
                assert(!comp.contains('/'));
            }
            if bad {
                proof {
                    let bad_idx = comps.deep_view().len() as int;
                    assert(path_comps(s@)[bad_idx] == comp);
                    assert(!comp_wf(comp));
                }
                return None;
            }
            let ghost pre = comps.deep_view();
            let part = s.substring_char(start, i);
            let owned = String::from_str(part);
            comps.push(owned);
            proof {
                assert(comps.deep_view() =~= pre.push(comp));
                assert(comp_wf(comp));
                if !at_end {
                    assert(pre.push(comp) + path_comps(s@.subrange(i + 1, n as int)) =~= pre + (
                    seq![comp] + path_comps(s@.subrange(i + 1, n as int))));
                }
            }
            if at_end {
                proof {
                    assert(path_comps(s@) =~= comps.deep_view());
                    assert forall|k: int| 0 <= k < path_comps(s@).len() implies comp_wf(
                        #[trigger] path_comps(s@)[k],
                    ) by {
                        assert(path_comps(s@)[k] == comps.deep_view()[k]);
                    }
                }
                return Some(comps);
            }
            start = i + 1;
            i = i + 1;
        } else {
            i = i + 1;
        }
    }
}

/// Join a base directory with a storage path to form the absolute target.
pub fn join_path(base: &str, rel: &str) -> (r: String)
    ensures
        r@ == join_spec(base@, rel@),
{
    let rlen = rel.unicode_len();
    if rlen > 0 && rel.get_char(0) == '/' {
        return String::from_str(rel);
    }
    let blen = base.unicode_len();
    let mut out = String::from_str(base);
    if !(blen > 0 && base.get_char(blen - 1) == '/') {
        proof {
            reveal_strlit("/");
        }
        out.append("/");
        proof {
            assert(out@ =~= base@ + seq!['/']);
        }
    }
    out.append(rel);
    proof {
        if !(base@.len() > 0 && base@[base@.len() - 1] == '/') {
            assert(out@ =~= base@ + seq!['/'] + rel@);
        }
    }
    out
}

} // verus!
