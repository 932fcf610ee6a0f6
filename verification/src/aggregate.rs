use vstd::prelude::*;

use crate::paths::{
    chars_lt, join_segments, lemma_chars_lt_irrefl, lemma_chars_lt_trans,
    lemma_chars_lt_trichotomy, spec_join, spec_segments, split_path, str_eq, str_lt, views_of,
};

verus! {

/// A project root together with the marker directory names seen under it,
/// in the order the hits arrived.
pub struct ProjectGroup {
    pub path: String,
    pub markers: Vec<String>,
}

/// The project root of a hit: the path truncated at the marker segment.
pub open spec fn root_of(p: Seq<char>) -> Seq<char> {
    spec_join(spec_segments(p).drop_last())
}

/// The marker segment of a hit: the path's final segment.
pub open spec fn marker_of(p: Seq<char>) -> Seq<char> {
    spec_segments(p).last()
}

/// The markers of all hits under one root, in arrival order.
pub open spec fn markers_for(ps: Seq<Seq<char>>, r: Seq<char>) -> Seq<Seq<char>> {
    ps.filter(|p: Seq<char>| root_of(p) == r).map_values(|p: Seq<char>| marker_of(p))
}

pub open spec fn groups_sorted(g: Seq<ProjectGroup>) -> bool {
    forall|i: int, j: int| 0 <= i < j < g.len() ==> chars_lt(g[i].path@, g[j].path@)
}

/// Each entry carries exactly the markers of the hits under its root.
pub open spec fn groups_markers_ok(g: Seq<ProjectGroup>, ps: Seq<Seq<char>>) -> bool {
    forall|i: int|
        0 <= i < g.len() ==> views_of(#[trigger] g[i].markers@) == markers_for(ps, g[i].path@)
}

/// The root paths of the entries, in order.
pub open spec fn group_paths(g: Seq<ProjectGroup>) -> Seq<Seq<char>> {
    g.map_values(|e: ProjectGroup| e.path@)
}

/// Each entry's root comes from some hit: at least one hit lies under it.
pub open spec fn groups_roots_ok(g: Seq<ProjectGroup>, ps: Seq<Seq<char>>) -> bool {
    forall|i: int| 0 <= i < g.len() ==> markers_for(ps, (#[trigger] g[i]).path@).len() >= 1
}

/// Each hit's root has its entry.
pub open spec fn groups_cover_ok(g: Seq<ProjectGroup>, ps: Seq<Seq<char>>) -> bool {
    forall|j: int| 0 <= j < ps.len() ==> group_paths(g).contains(root_of(#[trigger] ps[j]))
}

/// The grouping relation: `g` holds one entry per distinct root of `ps`,
/// sorted by root path, each carrying exactly the markers of its hits.
pub open spec fn spec_groups(g: Seq<ProjectGroup>, ps: Seq<Seq<char>>) -> bool {
    &&& groups_sorted(g)
    &&& groups_markers_ok(g, ps)
    &&& groups_roots_ok(g, ps)
    &&& groups_cover_ok(g, ps)
}

proof fn lemma_filter_none<A>(s: Seq<A>, pred: spec_fn(A) -> bool)
    requires
        forall|k: int| 0 <= k < s.len() ==> !pred(#[trigger] s[k]),
    ensures
        s.filter(pred) == Seq::<A>::empty(),
    decreases s.len(),
{
    reveal(Seq::filter);
    if s.len() > 0 {
        assert(forall|k: int| 0 <= k < s.drop_last().len() ==> s.drop_last()[k] == s[k]);
        lemma_filter_none(s.drop_last(), pred);
    }
}

pub proof fn lemma_filter_push<A>(s: Seq<A>, pred: spec_fn(A) -> bool, x: A)
    ensures
        (s.push(x)).filter(pred) == if pred(x) {
            s.filter(pred).push(x)
        } else {
            s.filter(pred)
        },
{
    reveal(Seq::filter);
    assert(s.push(x).drop_last() =~= s);
    assert(s.push(x).last() == x);
}

pub proof fn lemma_map_push<A, B>(s: Seq<A>, f: spec_fn(A) -> B, x: A)
    ensures
        s.push(x).map_values(f) == s.map_values(f).push(f(x)),
{
    assert(s.push(x).map_values(f) =~= s.map_values(f).push(f(x)));
}

/// How one more hit changes the markers under each root.
proof fn lemma_markers_for_push(ps: Seq<Seq<char>>, p: Seq<char>, r: Seq<char>)
    ensures
        markers_for(ps.push(p), r) == if root_of(p) == r {
            markers_for(ps, r).push(marker_of(p))
        } else {
            markers_for(ps, r)
        },
{
    let pred = |q: Seq<char>| root_of(q) == r;
    lemma_filter_push(ps, pred, p);
    if pred(p) {
        lemma_map_push(ps.filter(pred), |q: Seq<char>| marker_of(q), p);
    }
}

/// Add one hit to the sorted group list: append the marker under its root,
/// creating the root's entry at its sorted place if it is new.
fn insert_hit(out: &mut Vec<ProjectGroup>, root: String, marker: String)
    requires
        groups_sorted(old(out)@),
    ensures
        groups_sorted(final(out)@),
        (exists|k: int| 0 <= k < old(out)@.len() && old(out)@[k].path@ == root@) ==> {
            &&& final(out)@.len() == old(out)@.len()
            &&& forall|k: int|
                0 <= k < final(out)@.len() && old(out)@[k].path@ != root@ ==> final(out)@[k]
                    == old(out)@[k]
            &&& forall|k: int|
                0 <= k < final(out)@.len() && old(out)@[k].path@ == root@
                    ==> (#[trigger] final(out)@[k]).path@ == root@
                    && final(out)@[k].markers@ == old(out)@[k].markers@.push(marker)
        },
        (!exists|k: int| 0 <= k < old(out)@.len() && old(out)@[k].path@ == root@) ==> {
            exists|pos: int|
                {
                    &&& 0 <= pos <= old(out)@.len()
                    &&& final(out)@.len() == old(out)@.len() + 1
                    &&& (#[trigger] final(out)@[pos]).path@ == root@
                    &&& final(out)@[pos].markers@ =~= seq![marker]
                    &&& forall|k: int| 0 <= k < pos ==> final(out)@[k] == old(out)@[k]
                    &&& forall|k: int|
                        pos <= k < old(out)@.len() ==> final(out)@[k + 1] == old(out)@[k]
                }
        },
{
    let ghost g0 = out@;
    let mut pos: usize = 0;
    while pos < out.len() && str_lt(out[pos].path.as_str(), root.as_str())
        invariant
            pos <= out@.len(),
            out@ == g0,
            groups_sorted(out@),
            forall|k: int| 0 <= k < pos ==> chars_lt((#[trigger] out@[k]).path@, root@),
        decreases out@.len() - pos,
    {
        pos = pos + 1;
    }
    let found = pos < out.len() && str_eq(out[pos].path.as_str(), root.as_str());
    if found {
        proof {
            // The matching entry is unique: a second one would break the
            // strict order.
            assert forall|k: int| 0 <= k < g0.len() && g0[k].path@ == root@ implies k == pos by {
                if k != pos as int {
                    lemma_chars_lt_irrefl(root@);
                }
            }
        }
        let mut g = out.remove(pos);
        g.markers.push(marker);
        out.insert(pos, g);
        proof {
            assert(out@.len() == g0.len());
            assert(forall|k: int| 0 <= k < out@.len() && k != pos ==> out@[k] == g0[k]);
            assert(out@[pos as int].path@ == root@);
            assert(out@[pos as int].markers@ == g0[pos as int].markers@.push(marker));
            assert(groups_sorted(out@)) by {
                assert forall|i: int, j: int| 0 <= i < j < out@.len() implies chars_lt(
                    out@[i].path@,
                    out@[j].path@,
                ) by {
                    assert(out@[i].path@ == g0[i].path@);
                    assert(out@[j].path@ == g0[j].path@);
                }
            }
        }
    } else {
        proof {
            // No entry carries this root yet.
            lemma_chars_lt_irrefl(root@);
            assert forall|k: int| 0 <= k < g0.len() implies g0[k].path@ != root@ by {
                if (pos as int) <= k {
                    if g0[k].path@ == root@ {
                        if k == pos as int {
                        } else {
                            assert(chars_lt(g0[pos as int].path@, g0[k].path@));
                        }
                    }
                }
            }
        }
        let mut markers: Vec<String> = Vec::new();
        markers.push(marker);
        let entry = ProjectGroup { path: root, markers };
        out.insert(pos, entry);
        proof {
            let gp = out@;
            let p = pos as int;
            assert(gp[p].path@ == root@);
            assert(forall|k: int| 0 <= k < p ==> gp[k] == g0[k]);
            assert(forall|k: int| p <= k < g0.len() ==> gp[k + 1] == g0[k]);
            assert(gp[p].markers@ =~= seq![marker]);
            assert(groups_sorted(gp)) by {
                assert forall|i: int, j: int| 0 <= i < j < gp.len() implies chars_lt(
                    gp[i].path@,
                    gp[j].path@,
                ) by {
                    if j < p {
                    } else if i < p && j == p {
                        assert(chars_lt(g0[i].path@, root@));
                    } else if i < p && j > p {
                        assert(gp[j] == g0[j - 1]);
                    } else if i == p && j > p {
                        // root sorts before every entry from `pos` on.
                        assert(gp[j] == g0[j - 1]);
                        if p < g0.len() {
                            assert(!chars_lt(g0[p].path@, root@));
                            lemma_chars_lt_trichotomy(g0[p].path@, root@);
                            assert(chars_lt(root@, g0[p].path@));
                            if j - 1 > p {
                                assert(chars_lt(g0[p].path@, g0[j - 1].path@));
                                lemma_chars_lt_trans(root@, g0[p].path@, g0[j - 1].path@);
                            }
                        }
                    } else {
                        assert(gp[i] == g0[i - 1] && gp[j] == g0[j - 1]);
                    }
                }
            }
        }
    }
}

/// Markers per root after a hit under an already-present root.
proof fn lemma_found_markers(
    g0: Seq<ProjectGroup>,
    g1: Seq<ProjectGroup>,
    pre: Seq<Seq<char>>,
    pv: Seq<char>,
    marker: String,
)
    requires
        groups_markers_ok(g0, pre),
        marker@ == marker_of(pv),
        g1.len() == g0.len(),
        forall|k: int| 0 <= k < g1.len() && g0[k].path@ != root_of(pv) ==> g1[k] == g0[k],
        forall|k: int|
            0 <= k < g1.len() && g0[k].path@ == root_of(pv) ==> (#[trigger] g1[k]).path@
                == root_of(pv) && g1[k].markers@ == g0[k].markers@.push(marker),
    ensures
        groups_markers_ok(g1, pre.push(pv)),
{
    let cur = pre.push(pv);
    assert forall|k: int| 0 <= k < g1.len() implies views_of(#[trigger] g1[k].markers@)
        == markers_for(cur, g1[k].path@) by {
        lemma_markers_for_push(pre, pv, g0[k].path@);
        if g0[k].path@ == root_of(pv) {
            assert(g1[k].markers@ == g0[k].markers@.push(marker));
            crate::paths::lemma_views_push(g0[k].markers@, marker);
            assert(views_of(g0[k].markers@) + seq![marker@] =~= views_of(
                g0[k].markers@,
            ).push(marker@));
            assert(views_of(g1[k].markers@) == markers_for(pre, g0[k].path@).push(marker_of(pv)));
        } else {
            assert(g1[k] == g0[k]);
        }
    }
    assert(groups_markers_ok(g1, cur));
}

/// Every entry's root still comes from some hit after the extension.
proof fn lemma_found_roots(
    g0: Seq<ProjectGroup>,
    g1: Seq<ProjectGroup>,
    pre: Seq<Seq<char>>,
    pv: Seq<char>,
)
    requires
        groups_roots_ok(g0, pre),
        g1.len() == g0.len(),
        forall|k: int| 0 <= k < g1.len() ==> (#[trigger] g1[k]).path@ == g0[k].path@,
    ensures
        groups_roots_ok(g1, pre.push(pv)),
{
    assert forall|k: int|
        0 <= k < g1.len() implies markers_for(pre.push(pv), (#[trigger] g1[k]).path@).len()
        >= 1 by {
        assert(g1[k].path@ == g0[k].path@);
        assert(markers_for(pre, g0[k].path@).len() >= 1);
        lemma_markers_for_push(pre, pv, g0[k].path@);
    }
}

/// Every hit's root still has its entry after the extension.
proof fn lemma_found_cover(
    g0: Seq<ProjectGroup>,
    g1: Seq<ProjectGroup>,
    pre: Seq<Seq<char>>,
    pv: Seq<char>,
)
    requires
        groups_cover_ok(g0, pre),
        exists|k: int| 0 <= k < g0.len() && (#[trigger] g0[k].path@) == root_of(pv),
        g1.len() == g0.len(),
        forall|k: int| 0 <= k < g1.len() ==> (#[trigger] g1[k]).path@ == g0[k].path@,
    ensures
        groups_cover_ok(g1, pre.push(pv)),
{
    assert forall|j: int|
        0 <= j < pre.push(pv).len() implies group_paths(g1).contains(
        root_of(#[trigger] pre.push(pv)[j]),
    ) by {
        if j < pre.len() {
            assert(pre.push(pv)[j] == pre[j]);
            assert(group_paths(g0).contains(root_of(pre[j])));
            let i2 = choose|i2: int|
                0 <= i2 < group_paths(g0).len() && group_paths(g0)[i2] == root_of(pre[j]);
            assert(group_paths(g1)[i2] == g1[i2].path@);
            assert(group_paths(g1)[i2] == root_of(pre.push(pv)[j]));
        } else {
            assert(pre.push(pv)[j] == pv);
            let k = choose|k: int| 0 <= k < g0.len() && (#[trigger] g0[k].path@) == root_of(pv);
            assert(group_paths(g1)[k] == g1[k].path@);
            assert(group_paths(g1)[k] == root_of(pre.push(pv)[j]));
        }
    }
}

/// One more hit under a root that already has its entry: only that
/// entry's marker list grows.
proof fn lemma_groups_extend_found(
    g0: Seq<ProjectGroup>,
    g1: Seq<ProjectGroup>,
    pre: Seq<Seq<char>>,
    pv: Seq<char>,
    marker: String,
)
    requires
        spec_groups(g0, pre),
        marker@ == marker_of(pv),
        exists|k: int| 0 <= k < g0.len() && (#[trigger] g0[k].path@) == root_of(pv),
        g1.len() == g0.len(),
        groups_sorted(g1),
        forall|k: int| 0 <= k < g1.len() && g0[k].path@ != root_of(pv) ==> g1[k] == g0[k],
        forall|k: int|
            0 <= k < g1.len() && g0[k].path@ == root_of(pv) ==> (#[trigger] g1[k]).path@
                == root_of(pv) && g1[k].markers@ == g0[k].markers@.push(marker),
    ensures
        spec_groups(g1, pre.push(pv)),
{
    assert forall|k: int| 0 <= k < g1.len() implies (#[trigger] g1[k]).path@ == g0[k].path@ by {
        if g0[k].path@ == root_of(pv) {
        } else {
            assert(g1[k] == g0[k]);
        }
    }
    lemma_found_markers(g0, g1, pre, pv, marker);
    lemma_found_roots(g0, g1, pre, pv);
    lemma_found_cover(g0, g1, pre, pv);
}


/// One more hit under a root not seen before: a fresh entry at its sorted
/// place, the rest shifted by one.
proof fn lemma_groups_extend_new(
    g0: Seq<ProjectGroup>,
    g1: Seq<ProjectGroup>,
    pre: Seq<Seq<char>>,
    pv: Seq<char>,
    marker: String,
    pos: int,
)
    requires
        spec_groups(g0, pre),
        marker@ == marker_of(pv),
        forall|k: int| 0 <= k < g0.len() ==> (#[trigger] g0[k].path@) != root_of(pv),
        0 <= pos <= g0.len(),
        g1.len() == g0.len() + 1,
        g1[pos].path@ == root_of(pv),
        g1[pos].markers@ =~= seq![marker],
        groups_sorted(g1),
        forall|k: int| 0 <= k < pos ==> g1[k] == g0[k],
        forall|k: int| pos <= k < g0.len() ==> g1[k + 1] == g0[k],
    ensures
        spec_groups(g1, pre.push(pv)),
{
    let cur = pre.push(pv);
    // No earlier hit has this root, else its entry would exist.
    assert forall|j: int| 0 <= j < pre.len() implies root_of(#[trigger] pre[j]) != root_of(pv) by {
        if root_of(pre[j]) == root_of(pv) {
            assert(group_paths(g0).contains(root_of(pre[j])));
            let i2 = choose|i2: int|
                0 <= i2 < group_paths(g0).len() && group_paths(g0)[i2] == root_of(pre[j]);
            assert(g0[i2].path@ == root_of(pv));
        }
    }
    assert forall|k: int| 0 <= k < g1.len() implies views_of(#[trigger] g1[k].markers@)
        == markers_for(cur, g1[k].path@) by {
        lemma_markers_for_push(pre, pv, g1[k].path@);
        if k == pos {
            lemma_filter_none(pre, |q: Seq<char>| root_of(q) == root_of(pv));
            assert(markers_for(pre, root_of(pv)) =~= Seq::<Seq<char>>::empty());
            assert(views_of(g1[k].markers@) =~= seq![marker@]);
            assert(markers_for(cur, root_of(pv)) =~= seq![marker_of(pv)]);
        } else {
            let k0 = if k < pos {
                k
            } else {
                k - 1
            };
            assert(g1[k] == g0[k0]);
            assert(g1[k].path@ != root_of(pv));
        }
    }
    assert forall|k: int|
        0 <= k < g1.len() implies markers_for(cur, (#[trigger] g1[k]).path@).len() >= 1 by {
        if k == pos {
            assert(views_of(g1[k].markers@) == markers_for(cur, g1[k].path@));
            assert(views_of(g1[k].markers@) =~= seq![marker@]);
        } else {
            let k0 = if k < pos {
                k
            } else {
                k - 1
            };
            assert(g1[k] == g0[k0]);
            assert(markers_for(pre, g0[k0].path@).len() >= 1);
            lemma_markers_for_push(pre, pv, g0[k0].path@);
        }
    }
    assert forall|j: int|
        0 <= j < cur.len() implies group_paths(g1).contains(root_of(#[trigger] cur[j])) by {
        if j < pre.len() {
            assert(cur[j] == pre[j]);
            assert(group_paths(g0).contains(root_of(pre[j])));
            let i2 = choose|i2: int|
                0 <= i2 < group_paths(g0).len() && group_paths(g0)[i2] == root_of(pre[j]);
            let i3 = if i2 < pos {
                i2
            } else {
                i2 + 1
            };
            assert(g1[i3] == g0[i2]);
            assert(group_paths(g1)[i3] == g1[i3].path@);
            assert(group_paths(g1)[i3] == root_of(cur[j]));
        } else {
            assert(cur[j] == pv);
            assert(group_paths(g1)[pos] == g1[pos].path@);
            assert(group_paths(g1)[pos] == root_of(cur[j]));
        }
    }
    assert(groups_markers_ok(g1, cur));
    assert(groups_roots_ok(g1, cur));
    assert(groups_cover_ok(g1, cur));
}

/// After adding one hit to the group list, the grouping relation holds
/// for the extended hit sequence.
proof fn lemma_groups_after_insert(
    g0: Seq<ProjectGroup>,
    g1: Seq<ProjectGroup>,
    pre: Seq<Seq<char>>,
    pv: Seq<char>,
    root: String,
    marker: String,
)
    requires
        spec_groups(g0, pre),
        root@ == root_of(pv),
        marker@ == marker_of(pv),
        groups_sorted(g1),
        (exists|k: int| 0 <= k < g0.len() && g0[k].path@ == root@) ==> {
            &&& g1.len() == g0.len()
            &&& forall|k: int| 0 <= k < g1.len() && g0[k].path@ != root@ ==> g1[k] == g0[k]
            &&& forall|k: int|
                0 <= k < g1.len() && g0[k].path@ == root@ ==> (#[trigger] g1[k]).path@ == root@
                    && g1[k].markers@ == g0[k].markers@.push(marker)
        },
        (!exists|k: int| 0 <= k < g0.len() && g0[k].path@ == root@) ==> {
            exists|pos: int|
                {
                    &&& 0 <= pos <= g0.len()
                    &&& g1.len() == g0.len() + 1
                    &&& (#[trigger] g1[pos]).path@ == root@
                    &&& g1[pos].markers@ =~= seq![marker]
                    &&& forall|k: int| 0 <= k < pos ==> g1[k] == g0[k]
                    &&& forall|k: int| pos <= k < g0.len() ==> g1[k + 1] == g0[k]
                }
        },
    ensures
        spec_groups(g1, pre.push(pv)),
{
    if exists|k: int| 0 <= k < g0.len() && g0[k].path@ == root@ {
        lemma_groups_extend_found(g0, g1, pre, pv, marker);
    } else {
        let pos = choose|pos: int|
            {
                &&& 0 <= pos <= g0.len()
                &&& g1.len() == g0.len() + 1
                &&& (#[trigger] g1[pos]).path@ == root@
                &&& g1[pos].markers@ =~= seq![marker]
                &&& forall|k: int| 0 <= k < pos ==> g1[k] == g0[k]
                &&& forall|k: int| pos <= k < g0.len() ==> g1[k + 1] == g0[k]
            };
        assert(forall|k: int| 0 <= k < g0.len() ==> (#[trigger] g0[k].path@) != root_of(pv));
        lemma_groups_extend_new(g0, g1, pre, pv, marker, pos);
    }
}

/// Group accepted marker hits by project root, sorted by root path.
pub fn group_projects(accepted: &Vec<String>) -> (r: Vec<ProjectGroup>)
    ensures
        spec_groups(r@, views_of(accepted@)),
{
    let ghost ps = views_of(accepted@);
    let mut out: Vec<ProjectGroup> = Vec::new();
    let mut i: usize = 0;
    proof {
        assert(ps.take(0) =~= Seq::<Seq<char>>::empty());
    }
    while i < accepted.len()
        invariant
            i <= accepted@.len(),
            ps == views_of(accepted@),
            ps.len() == accepted@.len(),
            spec_groups(out@, ps.take(i as int)),
        decreases accepted@.len() - i,
    {
        let ghost pre = ps.take(i as int);
        let ghost g0 = out@;
        let p = &accepted[i];
        let ghost pv = ps[i as int];
        let mut segs = split_path(p.as_str());
        proof {
            assert(pv == p@);
            assert(views_of(segs@) == spec_segments(pv));
        }
        let marker = match segs.pop() {
            Some(m) => m,
            None => {
                proof {
                    assert(false);
                }
                String::new()
            },
        };
        proof {
            assert(views_of(segs@) =~= spec_segments(pv).drop_last());
            assert(marker@ == marker_of(pv));
        }
        let root = join_segments(&segs);
        proof {
            assert(root@ == root_of(pv));
        }
        insert_hit(&mut out, root, marker);
        proof {
            assert(ps.take(i + 1) =~= pre.push(pv));
            lemma_groups_after_insert(g0, out@, pre, pv, root, marker);
            assert(spec_groups(out@, ps.take(i + 1)));
        }
        i = i + 1;
    }
    proof {
        assert(ps.take(ps.len() as int) =~= ps);
    }
    out
}

/// Every accepted hit lands in exactly one group: the entry keyed by the
/// root obtained by truncating the hit's path at its marker segment, and
/// that entry carries the hit's marker.
#[verifier::rlimit(100)]
pub proof fn lemma_one_group_per_hit(g: Seq<ProjectGroup>, ps: Seq<Seq<char>>, j: int)
    requires
        spec_groups(g, ps),
        0 <= j < ps.len(),
    ensures
        exists|i: int| 0 <= i < g.len() && (#[trigger] g[i].path@) == root_of(ps[j]),
        forall|i1: int, i2: int|
            0 <= i1 < g.len() && 0 <= i2 < g.len() && (#[trigger] g[i1].path@) == root_of(ps[j])
                && (#[trigger] g[i2].path@) == root_of(ps[j]) ==> i1 == i2,
        forall|i: int|
            0 <= i < g.len() && (#[trigger] g[i].path@) == root_of(ps[j]) ==> views_of(
                g[i].markers@,
            ).contains(marker_of(ps[j])),
{
    let pj = ps[j];
    assert(group_paths(g).contains(root_of(pj)));
    let w = choose|w: int| 0 <= w < group_paths(g).len() && group_paths(g)[w] == root_of(pj);
    assert(group_paths(g)[w] == g[w].path@);
    assert(0 <= w < g.len() && (#[trigger] g[w].path@) == root_of(ps[j]));
    assert forall|i1: int, i2: int|
        0 <= i1 < g.len() && 0 <= i2 < g.len() && (#[trigger] g[i1].path@) == root_of(ps[j]) && (
        #[trigger] g[i2].path@) == root_of(ps[j]) implies i1 == i2 by {
        if i1 != i2 {
            lemma_chars_lt_irrefl(root_of(ps[j]));
        }
    }
    assert forall|i: int|
        0 <= i < g.len() && (#[trigger] g[i].path@) == root_of(ps[j]) implies views_of(
        g[i].markers@,
    ).contains(marker_of(ps[j])) by {
        let pred = |q: Seq<char>| root_of(q) == root_of(ps[j]);
        let f = ps.filter(pred);
        ps.lemma_filter_contains(pred, j);
        let k = choose|k: int| 0 <= k < f.len() && f[k] == ps[j];
        assert(views_of(g[i].markers@) == f.map_values(|q: Seq<char>| marker_of(q)));
        assert(views_of(g[i].markers@)[k] == marker_of(ps[j]));
    }
}

} // verus!
