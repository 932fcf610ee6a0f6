use vstd::prelude::*;

use crate::markers::{is_marker_name, marker_names, marker_string, MARKER_COUNT};
use crate::paths::{spec_segments, split_path, str_eq, views_of};
use crate::ProjectTypes;

verus! {

/// How many segments equal `m`.
pub open spec fn seg_count(segs: Seq<Seq<char>>, m: Seq<char>) -> nat
    decreases segs.len(),
{
    if segs.len() == 0 {
        0
    } else {
        seg_count(segs.drop_last(), m) + if segs.last() == m {
            1nat
        } else {
            0nat
        }
    }
}

pub proof fn lemma_seg_count_le(segs: Seq<Seq<char>>, m: Seq<char>)
    ensures
        seg_count(segs, m) <= segs.len(),
    decreases segs.len(),
{
    if segs.len() > 0 {
        lemma_seg_count_le(segs.drop_last(), m);
    }
}

pub proof fn lemma_seg_count_contains(segs: Seq<Seq<char>>, m: Seq<char>)
    ensures
        seg_count(segs, m) >= 1 <==> segs.contains(m),
    decreases segs.len(),
{
    if segs.len() > 0 {
        lemma_seg_count_contains(segs.drop_last(), m);
        if segs.contains(m) {
            let i = choose|i: int| 0 <= i < segs.len() && segs[i] == m;
            if i < segs.len() - 1 {
                assert(segs.drop_last()[i] == m);
                assert(segs.drop_last().contains(m));
            }
        }
        if segs.drop_last().contains(m) {
            let i = choose|i: int| 0 <= i < segs.drop_last().len() && segs.drop_last()[i] == m;
            assert(segs[i] == m);
        }
    }
}

/// The repeating-marker anomaly: some marker name stands twice among the
/// segments, or two distinct marker names both stand among them.
pub open spec fn spec_repeating(segs: Seq<Seq<char>>) -> bool {
    (exists|x: int|
        0 <= x < marker_names().len() && seg_count(segs, marker_names()[x]) >= 2) || (exists|
        x: int,
        y: int,
    |
        0 <= x < y < marker_names().len() && segs.contains(marker_names()[x]) && segs.contains(
            marker_names()[y],
        ))
}

/// A path that names a marker directory below some root: its final segment
/// is in the vocabulary, and something stands above it.
pub open spec fn is_marker_path(segs: Seq<Seq<char>>) -> bool {
    segs.len() >= 2 && is_marker_name(segs.last())
}

/// The matcher accepts a path whose final segment is a marker and which
/// shows no repeating-marker anomaly.
pub open spec fn spec_accepts(p: Seq<char>) -> bool {
    is_marker_path(spec_segments(p)) && !spec_repeating(spec_segments(p))
}

pub fn contains_segment(segs: &Vec<String>, m: &str) -> (r: bool)
    ensures
        r == views_of(segs@).contains(m@),
{
    let ghost sv = views_of(segs@);
    let mut i: usize = 0;
    while i < segs.len()
        invariant
            i <= segs.len(),
            sv == views_of(segs@),
            sv.len() == segs@.len(),
            forall|j: int| 0 <= j < i ==> sv[j] != m@,
        decreases segs.len() - i,
    {
        if str_eq(segs[i].as_str(), m) {
            proof {
                assert(sv[i as int] == m@);
            }
            return true;
        }
        i = i + 1;
    }
    proof {
        assert(!sv.contains(m@)) by {
            if sv.contains(m@) {
                let j = choose|j: int| 0 <= j < sv.len() && sv[j] == m@;
                assert(false);
            }
        }
    }
    false
}

pub fn count_segment(segs: &Vec<String>, m: &str) -> (r: usize)
    ensures
        r == seg_count(views_of(segs@), m@),
{
    let ghost sv = views_of(segs@);
    let mut c: usize = 0;
    let mut i: usize = 0;
    proof {
        assert(sv.take(0) =~= Seq::<Seq<char>>::empty());
    }
    while i < segs.len()
        invariant
            i <= segs.len(),
            sv == views_of(segs@),
            sv.len() == segs@.len(),
            c == seg_count(sv.take(i as int), m@),
            c <= i,
        decreases segs.len() - i,
    {
        proof {
            assert(sv.take(i + 1).drop_last() =~= sv.take(i as int));
            assert(sv.take(i + 1).last() == sv[i as int]);
            lemma_seg_count_le(sv.take(i as int), m@);
        }
        if str_eq(segs[i].as_str(), m) {
            c = c + 1;
        }
        i = i + 1;
    }
    proof {
        assert(sv.take(sv.len() as int) =~= sv);
    }
    c
}

/// Whether the path shows the repeating-marker anomaly.
pub fn has_repeating_elements(input: &str) -> (r: bool)
    ensures
        r == spec_repeating(spec_segments(input@)),
{
    let segs = split_path(input);
    let ghost sv = spec_segments(input@);
    let mut i: usize = 0;
    while i < MARKER_COUNT
        invariant
            i <= MARKER_COUNT,
            sv == views_of(segs@),
            sv == spec_segments(input@),
            forall|x: int| 0 <= x < i ==> seg_count(sv, marker_names()[x]) < 2,
            forall|x: int, y: int|
                0 <= x < y < marker_names().len() && x < i ==> !(sv.contains(marker_names()[x])
                    && sv.contains(marker_names()[y])),
        decreases MARKER_COUNT - i,
    {
        let m = marker_string(i);
        if contains_segment(&segs, m.as_str()) {
            if count_segment(&segs, m.as_str()) >= 2 {
                proof {
                    assert(seg_count(sv, marker_names()[i as int]) >= 2);
                    assert(spec_repeating(sv)) by {
                        assert(0 <= (i as int) && (i as int) < marker_names().len() && seg_count(
                            sv,
                            marker_names()[i as int],
                        ) >= 2);
                    }
                }
                return true;
            }
            let mut j: usize = i + 1;
            while j < MARKER_COUNT
                invariant
                    i < j <= MARKER_COUNT,
                    sv == views_of(segs@),
                    sv == spec_segments(input@),
                    sv.contains(marker_names()[i as int]),
                    forall|y: int| i < y < j ==> !sv.contains(marker_names()[y]),
                decreases MARKER_COUNT - j,
            {
                let other = marker_string(j);
                if contains_segment(&segs, other.as_str()) {
                    proof {
                        assert(spec_repeating(sv)) by {
                            assert(0 <= (i as int) && (i as int) < (j as int) && (j as int)
                                < marker_names().len() && sv.contains(marker_names()[i as int])
                                && sv.contains(marker_names()[j as int]));
                        }
                    }
                    return true;
                }
                j = j + 1;
            }
        } else {
            proof {
                lemma_seg_count_contains(sv, marker_names()[i as int]);
            }
        }
        i = i + 1;
    }
    proof {
        assert(!spec_repeating(sv)) by {
            if exists|x: int|
                0 <= x < marker_names().len() && seg_count(sv, marker_names()[x]) >= 2 {
                let x = choose|x: int|
                    0 <= x < marker_names().len() && seg_count(sv, marker_names()[x]) >= 2;
                assert(false);
            }
            if exists|x: int, y: int|
                0 <= x < y < marker_names().len() && sv.contains(marker_names()[x])
                    && sv.contains(marker_names()[y]) {
                let (x, y) = choose|x: int, y: int|
                    0 <= x < y < marker_names().len() && sv.contains(marker_names()[x])
                        && sv.contains(marker_names()[y]);
                assert(false);
            }
        }
    }
    false
}

/// Whether the matcher accepts this path.
pub fn accepts_path(path: &str) -> (r: bool)
    ensures
        r == spec_accepts(path@),
{
    let segs = split_path(path);
    if segs.len() < 2 {
        return false;
    }
    let last = &segs[segs.len() - 1];
    proof {
        assert(views_of(segs@).last() == segs@[segs@.len() - 1]@);
    }
    let is_m = match ProjectTypes::from_str(last.as_str()) {
        Ok(_) => true,
        Err(_) => false,
    };
    if !is_m {
        return false;
    }
    !has_repeating_elements(path)
}

/// `esegs` reaches strictly below `psegs` and passes another marker on
/// the way: the shorter path is a proper segment-prefix, and some deeper
/// segment is in the vocabulary.
pub open spec fn below_with_marker(esegs: Seq<Seq<char>>, psegs: Seq<Seq<char>>) -> bool {
    &&& esegs.len() > psegs.len()
    &&& esegs.take(psegs.len() as int) == psegs
    &&& exists|k: int|
        psegs.len() <= k < esegs.len() && is_marker_name(#[trigger] esegs[k])
}

/// A hit is ambiguous when some walked entry shows a further marker inside
/// it: the nesting the anomaly filter exists to keep out.
pub open spec fn nested_ambiguous(p: Seq<char>, es: Seq<Seq<char>>) -> bool {
    exists|j: int|
        0 <= j < es.len() && below_with_marker(spec_segments(#[trigger] es[j]), spec_segments(p))
}

/// The matcher keeps a path that it accepts and that no walked entry shows
/// to contain a deeper marker.
pub open spec fn spec_keeps(p: Seq<char>, es: Seq<Seq<char>>) -> bool {
    spec_accepts(p) && !nested_ambiguous(p, es)
}

fn check_below_with_marker(esegs: &Vec<String>, psegs: &Vec<String>) -> (r: bool)
    ensures
        r == below_with_marker(views_of(esegs@), views_of(psegs@)),
{
    let ghost ev = views_of(esegs@);
    let ghost pv = views_of(psegs@);
    if esegs.len() <= psegs.len() {
        return false;
    }
    let mut i: usize = 0;
    while i < psegs.len()
        invariant
            i <= psegs@.len(),
            ev == views_of(esegs@),
            pv == views_of(psegs@),
            ev.len() == esegs@.len(),
            pv.len() == psegs@.len(),
            ev.len() > pv.len(),
            forall|x: int| 0 <= x < i ==> ev[x] == pv[x],
        decreases psegs@.len() - i,
    {
        if !str_eq(esegs[i].as_str(), psegs[i].as_str()) {
            proof {
                assert(ev[i as int] != pv[i as int]);
                assert(!below_with_marker(ev, pv)) by {
                    if ev.take(pv.len() as int) == pv {
                        assert(ev.take(pv.len() as int)[i as int] == ev[i as int]);
                    }
                }
            }
            return false;
        }
        i = i + 1;
    }
    proof {
        assert(ev.take(pv.len() as int) =~= pv);
    }
    let mut k: usize = psegs.len();
    while k < esegs.len()
        invariant
            psegs@.len() <= k <= esegs@.len(),
            ev == views_of(esegs@),
            pv == views_of(psegs@),
            ev.len() == esegs@.len(),
            pv.len() == psegs@.len(),
            ev.len() > pv.len(),
            ev.take(pv.len() as int) == pv,
            forall|x: int| pv.len() <= x < k ==> !is_marker_name(#[trigger] ev[x]),
        decreases esegs@.len() - k,
    {
        let is_m = match crate::ProjectTypes::from_str(esegs[k].as_str()) {
            Ok(_) => true,
            Err(_) => false,
        };
        if is_m {
            proof {
                assert(ev[k as int] == esegs@[k as int]@);
                assert(below_with_marker(ev, pv)) by {
                    assert((pv.len() as int) <= (k as int) < ev.len() && is_marker_name(
                        ev[k as int],
                    ));
                }
            }
            return true;
        }
        k = k + 1;
    }
    proof {
        assert(!below_with_marker(ev, pv)) by {
            if below_with_marker(ev, pv) {
                let x = choose|x: int|
                    pv.len() <= x < ev.len() && is_marker_name(#[trigger] ev[x]);
                assert(false);
            }
        }
    }
    false
}

/// Keep exactly the paths the matcher accepts, in order.
pub fn list_projects(entries: &Vec<String>) -> (r: Vec<String>)
    ensures
        views_of(r@) == views_of(entries@).filter(
            |p: Seq<char>| spec_keeps(p, views_of(entries@)),
        ),
{
    let ghost full = views_of(entries@);
    let mut r: Vec<String> = Vec::new();
    let mut i: usize = 0;
    proof {
        reveal(Seq::filter);
        assert(views_of(entries@).take(0) =~= Seq::<Seq<char>>::empty());
    }
    while i < entries.len()
        invariant
            i <= entries@.len(),
            full == views_of(entries@),
            full.len() == entries@.len(),
            views_of(r@) == full.take(i as int).filter(
                |p: Seq<char>| spec_keeps(p, full),
            ),
        decreases entries@.len() - i,
    {
        let ghost pre = full.take(i as int);
        let ghost old_r = r@;
        let ghost pv = full[i as int];
        let mut keep = accepts_path(entries[i].as_str());
        if keep {
            let psegs = split_path(entries[i].as_str());
            let mut j: usize = 0;
            while j < entries.len()
                invariant
                    j <= entries@.len(),
                    full == views_of(entries@),
                    full.len() == entries@.len(),
                    i < entries@.len(),
                    pv == full[i as int],
                    views_of(psegs@) == spec_segments(pv),
                    keep ==> forall|x: int|
                        0 <= x < j ==> !below_with_marker(
                            spec_segments(#[trigger] full[x]),
                            spec_segments(pv),
                        ),
                    !keep ==> nested_ambiguous(pv, full),
                    keep ==> spec_accepts(pv),
                decreases entries@.len() - j,
            {
                if keep {
                    let esegs = split_path(entries[j].as_str());
                    if check_below_with_marker(&esegs, &psegs) {
                        proof {
                            assert(full[j as int] == entries@[j as int]@);
                            assert(nested_ambiguous(pv, full)) by {
                                assert(0 <= (j as int) < full.len() && below_with_marker(
                                    spec_segments(full[j as int]),
                                    spec_segments(pv),
                                ));
                            }
                        }
                        keep = false;
                    }
                }
                j = j + 1;
            }
            proof {
                if keep {
                    assert(!nested_ambiguous(pv, full)) by {
                        if nested_ambiguous(pv, full) {
                            let x = choose|x: int|
                                0 <= x < full.len() && below_with_marker(
                                    spec_segments(#[trigger] full[x]),
                                    spec_segments(pv),
                                );
                            assert(false);
                        }
                    }
                }
            }
        }
        if keep {
            let item = entries[i].clone();
            r.push(item);
            proof {
                crate::paths::lemma_views_push(old_r, item);
            }
        }
        proof {
            assert(full.take(i + 1).drop_last() =~= pre);
            assert(full.take(i + 1).last() == full[i as int]);
            assert(full[i as int] == entries@[i as int]@);
            assert(keep == spec_keeps(pv, full));
            reveal(Seq::filter);
            assert(full.take(i + 1).filter(|p: Seq<char>| spec_keeps(p, full)) == if spec_keeps(
                full[i as int],
                full,
            ) {
                pre.filter(|p: Seq<char>| spec_keeps(p, full)).push(full[i as int])
            } else {
                pre.filter(|p: Seq<char>| spec_keeps(p, full))
            });
        }
        i = i + 1;
    }
    proof {
        assert(views_of(entries@).take(entries@.len() as int) =~= views_of(entries@));
    }
    r
}

} // verus!
