use vstd::prelude::*;

use crate::aggregate::ProjectGroup;
use crate::markers::{is_marker_name, marker_name};
use crate::paths::{spec_segments, split_path, str_eq, views_of};
use crate::{Project, ProjectDir, ProjectTypes};

verus! {

/// The sum of a sequence of sizes, as an unbounded integer.
pub open spec fn spec_sum(sizes: Seq<u64>) -> int
    decreases sizes.len(),
{
    if sizes.len() == 0 {
        0
    } else {
        spec_sum(sizes.drop_last()) + sizes.last()
    }
}

pub proof fn lemma_sum_nonneg(sizes: Seq<u64>)
    ensures
        spec_sum(sizes) >= 0,
    decreases sizes.len(),
{
    if sizes.len() > 0 {
        lemma_sum_nonneg(sizes.drop_last());
    }
}

/// A marker set of exactly `.git` alone means the project holds no build
/// artifacts; any other non-empty set means it does.
pub open spec fn spec_has_build_dirs(markers: Seq<Seq<char>>) -> bool {
    markers != seq![".git"@]
}

/// Sum the marker sizes; `None` exactly when the total overflows `u64`.
pub fn sum_sizes(sizes: &Vec<u64>) -> (r: Option<u64>)
    ensures
        match r {
            Some(total) => total == spec_sum(sizes@),
            None => spec_sum(sizes@) > u64::MAX,
        },
{
    let mut total: u64 = 0;
    let mut i: usize = 0;
    proof {
        assert(sizes@.take(0) =~= Seq::<u64>::empty());
    }
    while i < sizes.len()
        invariant
            i <= sizes@.len(),
            total == spec_sum(sizes@.take(i as int)),
        decreases sizes@.len() - i,
    {
        proof {
            assert(sizes@.take(i + 1).drop_last() =~= sizes@.take(i as int));
            assert(sizes@.take(i + 1).last() == sizes@[i as int]);
        }
        let s = sizes[i];
        if total > u64::MAX - s {
            proof {
                lemma_sum_rest(sizes@, i as int);
            }
            return None;
        }
        total = total + s;
        i = i + 1;
    }
    proof {
        assert(sizes@.take(sizes@.len() as int) =~= sizes@);
    }
    Some(total)
}

/// The tail of the sum only grows it.
proof fn lemma_sum_rest(sizes: Seq<u64>, i: int)
    requires
        0 <= i < sizes.len(),
    ensures
        spec_sum(sizes) >= spec_sum(sizes.take(i)) + sizes[i],
    decreases sizes.len(),
{
    if i == sizes.len() - 1 {
        assert(sizes.take(i) =~= sizes.drop_last());
        lemma_sum_nonneg(sizes.drop_last());
    } else {
        lemma_sum_rest(sizes.drop_last(), i);
        assert(sizes.drop_last().take(i) =~= sizes.take(i));
        assert(sizes.drop_last()[i] == sizes[i]);
    }
}

/// Whether the marker list is anything other than `.git` alone.
pub fn compute_has_build_dirs(markers: &Vec<String>) -> (r: bool)
    ensures
        r == spec_has_build_dirs(views_of(markers@)),
{
    if markers.len() != 1 {
        proof {
            assert(views_of(markers@).len() == markers@.len());
            assert(views_of(markers@) != seq![".git"@]) by {
                assert(seq![".git"@].len() == 1);
            }
        }
        return true;
    }
    let r = !str_eq(markers[0].as_str(), ".git");
    proof {
        let mv = views_of(markers@);
        assert(mv[0] == markers@[0]@);
        if markers@[0]@ == ".git"@ {
            assert(mv =~= seq![".git"@]);
        } else {
            assert(mv != seq![".git"@]) by {
                if mv == seq![".git"@] {
                    assert(mv[0] == ".git"@);
                }
            }
        }
    }
    r
}

/// Assemble the final record for one grouped project from its marker sizes
/// and inferred language.
pub fn assemble_project(group: &ProjectGroup, sizes: &Vec<u64>, language: String) -> (r: Project)
    requires
        sizes@.len() == group.markers@.len(),
        spec_sum(sizes@) <= u64::MAX,
        forall|i: int|
            0 <= i < group.markers@.len() ==> is_marker_name(
                (#[trigger] group.markers@[i])@,
            ),
    ensures
        r.path@ == group.path@,
        r.name@ == spec_segments(group.path@).last(),
        r.full_build_size == spec_sum(sizes@),
        r.has_build_dirs == spec_has_build_dirs(views_of(group.markers@)),
        r.build_dirs@.len() == group.markers@.len(),
        forall|i: int|
            0 <= i < r.build_dirs@.len() ==> marker_name((#[trigger] r.build_dirs@[i]).dir)
                == group.markers@[i]@ && r.build_dirs@[i].size == sizes@[i],
        r.language@ == language@,
    {
    let segs = split_path(group.path.as_str());
    let name = segs[segs.len() - 1].clone();
    proof {
        assert(views_of(segs@).last() == segs@[segs@.len() - 1]@);
    }
    let has_build_dirs = compute_has_build_dirs(&group.markers);
    let total = match sum_sizes(sizes) {
        Some(t) => t,
        None => {
            proof {
                assert(false);
            }
            0
        },
    };
    let mut build_dirs: Vec<ProjectDir> = Vec::new();
    let mut i: usize = 0;
    while i < group.markers.len()
        invariant
            i <= group.markers@.len(),
            sizes@.len() == group.markers@.len(),
            build_dirs@.len() == i,
            forall|k: int|
                0 <= k < group.markers@.len() ==> is_marker_name(
                    (#[trigger] group.markers@[k])@,
                ),
            forall|k: int|
                0 <= k < i ==> marker_name((#[trigger] build_dirs@[k]).dir)
                    == group.markers@[k]@ && build_dirs@[k].size == sizes@[k],
        decreases group.markers@.len() - i,
    {
        let kind = match ProjectTypes::from_str(group.markers[i].as_str()) {
            Ok(k) => k,
            Err(_) => {
                proof {
                    assert(false);
                }
                ProjectTypes::Git
            },
        };
        build_dirs.push(ProjectDir { dir: kind, size: sizes[i] });
        i = i + 1;
    }
    let path = group.path.clone();
    Project {
        name,
        path,
        full_build_size: total,
        has_build_dirs,
        build_dirs,
        language,
    }
}

/// A marker set of exactly `.git` never counts as built, and any marker
/// set that differs from it does.
pub proof fn lemma_git_only_unbuilt(markers: Seq<Seq<char>>)
    ensures
        markers == seq![".git"@] ==> !spec_has_build_dirs(markers),
        markers != seq![".git"@] ==> spec_has_build_dirs(markers),
{
}

} // verus!
