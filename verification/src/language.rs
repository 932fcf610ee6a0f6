use vstd::prelude::*;

use crate::aggregate::lemma_filter_push;
use crate::matcher::seg_count;
use crate::paths::{
    chars_lt, lemma_chars_lt_irrefl, lemma_chars_lt_trans, lemma_chars_lt_trichotomy,
    lemma_views_push, spec_segments, split_path, str_eq, str_lt, views_of,
};

verus! {

/// The language tag that the `loc` crate derives from a file name with an
/// extension; on that domain it is a function of the path's characters
/// alone.
pub uninterp spec fn lang_tag_of(p: Seq<char>) -> Seq<char>;

/// A path whose final segment is an ordinary file name, the only paths the
/// extension lookup accepts.
pub open spec fn normal_file_name(p: Seq<char>) -> bool {
    &&& spec_segments(p).last() != Seq::<char>::empty()
    &&& spec_segments(p).last() != "."@
    &&& spec_segments(p).last() != ".."@
}

/// A file name with an extension in the standard library's sense: a dot
/// after its first character.
pub open spec fn has_extension(name: Seq<char>) -> bool {
    exists|i: int| 1 <= i < name.len() && name[i] == '.'
}

/// Whether this file name carries an extension.
pub fn file_has_extension(name: &str) -> (r: bool)
    ensures
        r == has_extension(name@),
{
    let n = name.unicode_len();
    let mut i: usize = 1;
    while i < n
        invariant
            1 <= i,
            n == name@.len(),
            forall|j: int| 1 <= j < i ==> name@[j] != '.',
        decreases n - i,
    {
        if name.get_char(i) == '.' {
            proof {
                assert(1 <= (i as int) < name@.len() && name@[i as int] == '.');
            }
            return true;
        }
        i = i + 1;
    }
    proof {
        assert(!has_extension(name@)) by {
            if has_extension(name@) {
                let j = choose|j: int| 1 <= j < name@.len() && name@[j] == '.';
                assert(false);
            }
        }
    }
    false
}

/// Relies on loc::lang_from_ext and loc::Lang's Display impl. The
/// `requires` keeps to file names that carry an extension: there
/// lang_from_ext is a pure table over the characters and never touches the
/// filesystem (its shebang probe, which reads the file and may abort on an
/// unreadable path, runs only for extension-less names), and a normal
/// final segment keeps its file-name lookup from failing.
#[verifier::external_body]
fn language_of_path(p: &str) -> (r: String)
    requires
        normal_file_name(p@),
        has_extension(spec_segments(p@).last()),
    ensures
        r@ == lang_tag_of(p@),
{
    loc::lang_from_ext(p).to_string()
}

/// The tag this library counts for a file: loc's extension table where the
/// name has an extension, `Unrecognized` otherwise. (loc would probe an
/// extension-less file's first line on disk; that disk-dependent probe is
/// deliberately not part of the library's behaviour.)
pub open spec fn tag_of(p: Seq<char>) -> Seq<char> {
    if has_extension(spec_segments(p).last()) {
        lang_tag_of(p)
    } else {
        "Unrecognized"@
    }
}

/// The recognized tag with the highest count, lexicographically least
/// among ties.
pub open spec fn is_dominant_tag(tags: Seq<Seq<char>>, t: Seq<char>) -> bool {
    &&& tags.contains(t)
    &&& t != "Unrecognized"@
    &&& forall|u: Seq<char>|
        tags.contains(u) && u != "Unrecognized"@ ==> #[trigger] seg_count(tags, u) < seg_count(
            tags,
            t,
        ) || (seg_count(tags, u) == seg_count(tags, t) && !chars_lt(u, t))
}

/// Pick the dominant tag of the list: the recognized tag of maximal count,
/// the lexicographically least where counts tie; `Unrecognized` where the
/// list holds no recognized tag.
pub fn select_language(tags: &Vec<String>) -> (r: String)
    ensures
        (exists|x: int| 0 <= x < views_of(tags@).len() && views_of(tags@)[x] != "Unrecognized"@)
            ==> is_dominant_tag(views_of(tags@), r@),
        !(exists|x: int| 0 <= x < views_of(tags@).len() && views_of(tags@)[x] != "Unrecognized"@)
            ==> r@ == "Unrecognized"@,
{
    let ghost tv = views_of(tags@);
    let mut best: Option<String> = None;
    let mut best_count: usize = 0;
    let mut j: usize = 0;
    while j < tags.len()
        invariant
            j <= tags@.len(),
            tv == views_of(tags@),
            tv.len() == tags@.len(),
            best is None ==> forall|x: int| 0 <= x < j ==> tv[x] == "Unrecognized"@,
            best matches Some(b) ==> {
                &&& b@ != "Unrecognized"@
                &&& tv.contains(b@)
                &&& best_count == seg_count(tv, b@)
                &&& forall|x: int|
                    0 <= x < j && tv[x] != "Unrecognized"@ ==> #[trigger] seg_count(tv, tv[x])
                        < best_count || (seg_count(tv, tv[x]) == best_count && !chars_lt(
                        tv[x],
                        b@,
                    ))
            },
        decreases tags@.len() - j,
    {
        let ghost old_best = best;
        let is_unrec = str_eq(tags[j].as_str(), "Unrecognized");
        if !is_unrec {
            let c = crate::matcher::count_segment(tags, tags[j].as_str());
            proof {
                assert(tv[j as int] == tags@[j as int]@);
            }
            let take = match &best {
                None => true,
                Some(b) => c > best_count || (c == best_count && str_lt(
                    tags[j].as_str(),
                    b.as_str(),
                )),
            };
            if take {
                let b2 = tags[j].clone();
                proof {
                    assert(tv.contains(tv[j as int])) by {
                        assert(tv[j as int] == tv[j as int]);
                    }
                    lemma_chars_lt_irrefl(tv[j as int]);
                    match old_best {
                        None => {},
                        Some(ob) => {
                        assert forall|x: int|
                            0 <= x < j && tv[x] != "Unrecognized"@ implies #[trigger] seg_count(
                            tv,
                            tv[x],
                        ) < c || (seg_count(tv, tv[x]) == c && !chars_lt(tv[x], tv[j as int])) by {
                            if seg_count(tv, tv[x]) == c && chars_lt(tv[x], tv[j as int]) {
                                // The old best still beats or equals tv[x];
                                // both below the new best is absurd.
                                assert(seg_count(tv, tv[x]) == seg_count(tv, ob@));
                                assert(chars_lt(tv[j as int], ob@));
                                if tv[x] == ob@ {
                                    lemma_chars_lt_trans(tv[x], tv[j as int], ob@);
                                    lemma_chars_lt_irrefl(tv[x]);
                                } else {
                                    lemma_chars_lt_trichotomy(tv[x], ob@);
                                    assert(chars_lt(ob@, tv[x]));
                                    lemma_chars_lt_trans(tv[j as int], ob@, tv[x]);
                                    lemma_chars_lt_trans(tv[x], tv[j as int], tv[x]);
                                    lemma_chars_lt_irrefl(tv[x]);
                                }
                            }
                        }
                        },
                    }
                }
                best = Some(b2);
                best_count = c;
            }
        }
        j = j + 1;
    }
    match best {
        Some(b) => {
            proof {
                assert(is_dominant_tag(tv, b@)) by {
                    assert forall|u: Seq<char>|
                        tv.contains(u) && u != "Unrecognized"@ implies #[trigger] seg_count(tv, u)
                        < seg_count(tv, b@) || (seg_count(tv, u) == seg_count(tv, b@) && !chars_lt(
                        u,
                        b@,
                    )) by {
                        let x = choose|x: int| 0 <= x < tv.len() && tv[x] == u;
                        assert(seg_count(tv, tv[x]) == seg_count(tv, u));
                    }
                }
                let w = choose|w: int| 0 <= w < tv.len() && tv[w] == b@;
                assert(tv[w] != "Unrecognized"@);
            }
            b
        },
        None => {
            proof {
                assert(!(exists|x: int| 0 <= x < tv.len() && tv[x] != "Unrecognized"@)) by {
                    if exists|x: int| 0 <= x < tv.len() && tv[x] != "Unrecognized"@ {
                        let x = choose|x: int| 0 <= x < tv.len() && tv[x] != "Unrecognized"@;
                        assert(false);
                    }
                }
            }
            String::from_str("Unrecognized")
        },
    }
}

/// Whether the path holds one of the given marker names as a segment.
pub open spec fn in_markers(p: Seq<char>, ms: Seq<Seq<char>>) -> bool {
    exists|i: int| 0 <= i < ms.len() && spec_segments(p).contains(#[trigger] ms[i])
}

/// The files that language inference may count: those outside every marker
/// subtree of the project.
pub open spec fn counted_files(files: Seq<Seq<char>>, ms: Seq<Seq<char>>) -> Seq<Seq<char>> {
    files.filter(|f: Seq<char>| !in_markers(f, ms))
}

/// Keep exactly the files outside every marker subtree, in order.
pub fn project_files(files: &Vec<String>, markers: &Vec<String>) -> (r: Vec<String>)
    ensures
        views_of(r@) == counted_files(views_of(files@), views_of(markers@)),
{
    let ghost ms = views_of(markers@);
    let mut r: Vec<String> = Vec::new();
    let mut i: usize = 0;
    proof {
        reveal(Seq::filter);
        assert(views_of(files@).take(0) =~= Seq::<Seq<char>>::empty());
    }
    while i < files.len()
        invariant
            i <= files@.len(),
            ms == views_of(markers@),
            views_of(files@).len() == files@.len(),
            views_of(r@) == views_of(files@).take(i as int).filter(
                |f: Seq<char>| !in_markers(f, ms),
            ),
        decreases files@.len() - i,
    {
        let ghost old_r = r@;
        let segs = split_path(files[i].as_str());
        let mut excluded = false;
        let mut k: usize = 0;
        while k < markers.len()
            invariant
                k <= markers@.len(),
                ms == views_of(markers@),
                ms.len() == markers@.len(),
                views_of(segs@) == spec_segments(files@[i as int]@),
                i < files@.len(),
                excluded ==> in_markers(files@[i as int]@, ms),
                !excluded ==> forall|x: int|
                    0 <= x < k ==> !spec_segments(files@[i as int]@).contains(#[trigger] ms[x]),
            decreases markers@.len() - k,
        {
            if crate::matcher::contains_segment(&segs, markers[k].as_str()) {
                proof {
                    assert(ms[k as int] == markers@[k as int]@);
                    assert(spec_segments(files@[i as int]@).contains(ms[k as int]));
                }
                excluded = true;
            }
            k = k + 1;
        }
        proof {
            if !excluded {
                assert(!in_markers(files@[i as int]@, ms)) by {
                    if in_markers(files@[i as int]@, ms) {
                        let x = choose|x: int|
                            0 <= x < ms.len() && spec_segments(files@[i as int]@).contains(ms[x]);
                        assert(false);
                    }
                }
            }
        }
        if !excluded {
            let item = files[i].clone();
            r.push(item);
            proof {
                lemma_views_push(old_r, item);
            }
        }
        proof {
            let full = views_of(files@);
            assert(full.take(i + 1) =~= full.take(i as int).push(full[i as int]));
            assert(full[i as int] == files@[i as int]@);
            lemma_filter_push(
                full.take(i as int),
                |f: Seq<char>| !in_markers(f, ms),
                full[i as int],
            );
        }
        i = i + 1;
    }
    proof {
        assert(views_of(files@).take(files@.len() as int) =~= views_of(files@));
    }
    r
}

/// A file inside one of the project's own marker subtrees is never among
/// the counted files.
pub proof fn lemma_marker_file_not_counted(
    files: Seq<Seq<char>>,
    ms: Seq<Seq<char>>,
    i: int,
)
    requires
        0 <= i < files.len(),
        in_markers(files[i], ms),
    ensures
        !counted_files(files, ms).contains(files[i]),
{
    let pred = |f: Seq<char>| !in_markers(f, ms);
    let out = files.filter(pred);
    if out.contains(files[i]) {
        let j = choose|j: int| 0 <= j < out.len() && out[j] == files[i];
        out.lemma_filter_pred(pred, j);
    }
}

/// Infer the project's language: the dominant tag over the counted
/// files, `Unrecognized` where none of them carries a recognized tag.
pub fn get_language_in_project(files: &Vec<String>, markers: &Vec<String>) -> (r: String)
    requires
        forall|i: int| 0 <= i < files@.len() ==> normal_file_name((#[trigger] files@[i])@),
    ensures
        ({
            let tags = counted_files(views_of(files@), views_of(markers@)).map_values(
                |f: Seq<char>| tag_of(f),
            );
            &&& (exists|x: int| 0 <= x < tags.len() && tags[x] != "Unrecognized"@)
                ==> is_dominant_tag(tags, r@)
            &&& !(exists|x: int| 0 <= x < tags.len() && tags[x] != "Unrecognized"@) ==> r@
                == "Unrecognized"@
        }),
{
    let ghost fv = views_of(files@);
    let ghost ms = views_of(markers@);
    let counted = project_files(files, markers);
    proof {
        assert forall|i: int| 0 <= i < counted@.len() implies normal_file_name(
            (#[trigger] counted@[i])@,
        ) by {
            let pred = |f: Seq<char>| !in_markers(f, ms);
            let cf = counted_files(fv, ms);
            assert(views_of(counted@)[i] == counted@[i]@);
            // every counted file is one of the given files
            assert(cf.contains(counted@[i]@)) by {
                assert(cf[i] == counted@[i]@);
            }
            lemma_filter_member(fv, pred, counted@[i]@);
            let w = choose|w: int| 0 <= w < fv.len() && fv[w] == counted@[i]@;
            assert(files@[w]@ == counted@[i]@);
        }
    }
    let mut tags: Vec<String> = Vec::new();
    let ghost tag_seq = counted_files(fv, ms).map_values(|f: Seq<char>| tag_of(f));
    let mut i: usize = 0;
    proof {
        assert(views_of(tags@) =~= tag_seq.take(0));
    }
    while i < counted.len()
        invariant
            i <= counted@.len(),
            views_of(counted@) == counted_files(fv, ms),
            tag_seq == counted_files(fv, ms).map_values(|f: Seq<char>| tag_of(f)),
            tag_seq.len() == counted@.len(),
            forall|k: int| 0 <= k < counted@.len() ==> normal_file_name((#[trigger] counted@[k])@),
            views_of(tags@) == tag_seq.take(i as int),
        decreases counted@.len() - i,
    {
        let ghost old_tags = tags@;
        let segs = split_path(counted[i].as_str());
        proof {
            assert(views_of(segs@).last() == segs@[segs@.len() - 1]@);
            assert(views_of(segs@) == spec_segments(counted@[i as int]@));
        }
        let name = &segs[segs.len() - 1];
        let t = if file_has_extension(name.as_str()) {
            language_of_path(counted[i].as_str())
        } else {
            String::from_str("Unrecognized")
        };
        tags.push(t);
        proof {
            lemma_views_push(old_tags, t);
            assert(t@ == tag_of(counted@[i as int]@));
            assert(counted_files(fv, ms)[i as int] == counted@[i as int]@);
            assert(tag_seq[i as int] == tag_of(counted@[i as int]@));
            assert(views_of(tags@) =~= tag_seq.take(i + 1));
        }
        i = i + 1;
    }
    proof {
        assert(tag_seq.take(tag_seq.len() as int) =~= tag_seq);
    }
    let r = select_language(&tags);
    proof {
        assert(views_of(tags@) == tag_seq);
    }
    r
}

/// A member of a filtered sequence is a member of the original.
proof fn lemma_filter_member<A>(s: Seq<A>, pred: spec_fn(A) -> bool, x: A)
    requires
        s.filter(pred).contains(x),
    ensures
        s.contains(x),
    decreases s.len(),
{
    reveal(Seq::filter);
    if s.len() > 0 {
        let sub = s.drop_last().filter(pred);
        if pred(s.last()) && x == s.last() {
            assert(s[s.len() - 1] == x);
        } else {
            if pred(s.last()) {
                let j = choose|j: int| 0 <= j < s.filter(pred).len() && s.filter(pred)[j] == x;
                if j < sub.len() {
                    assert(sub[j] == x);
                } else {
                    assert(s.filter(pred)[j] == s.last());
                }
            }
            lemma_filter_member(s.drop_last(), pred, x);
            let w = choose|w: int| 0 <= w < s.drop_last().len() && s.drop_last()[w] == x;
            assert(s[w] == x);
        }
    }
}

} // verus!
