use vstd::prelude::*;

verus! {

/// A path segment never contains the separator.
pub open spec fn seg_ok(s: Seq<char>) -> bool {
    !s.contains('/')
}

pub open spec fn all_segs_ok(segs: Seq<Seq<char>>) -> bool {
    forall|i: int| 0 <= i < segs.len() ==> seg_ok(#[trigger] segs[i])
}

/// Joining segments with '/' between them.
pub open spec fn spec_join(segs: Seq<Seq<char>>) -> Seq<char>
    decreases segs.len(),
{
    if segs.len() == 0 {
        Seq::empty()
    } else if segs.len() == 1 {
        segs[0]
    } else {
        spec_join(segs.drop_last()) + seq!['/'] + segs.last()
    }
}

/// `segs` is the decomposition of `s` at the separator '/'.
/// For every string there is exactly one such decomposition
/// (`lemma_split_unique`).
pub open spec fn is_split_of(segs: Seq<Seq<char>>, s: Seq<char>) -> bool {
    segs.len() >= 1 && all_segs_ok(segs) && spec_join(segs) == s
}

/// The views of a sequence of strings.
pub open spec fn views_of(v: Seq<String>) -> Seq<Seq<char>> {
    v.map_values(|x: String| x@)
}

/// The segments of a path: the unique decomposition at '/'
/// (`lemma_segments_of` ties it to `is_split_of`).
pub closed spec fn spec_segments(s: Seq<char>) -> Seq<Seq<char>> {
    choose|segs: Seq<Seq<char>>| is_split_of(segs, s)
}

pub proof fn lemma_join_push(v: Seq<Seq<char>>, x: Seq<char>)
    ensures
        spec_join(v + seq![x]) == if v.len() == 0 {
            x
        } else {
            (spec_join(v) + seq!['/'] + x)
        },
{
    let w = v + seq![x];
    if v.len() == 0 {
        assert(w.len() == 1);
        assert(w[0] == x);
    } else {
        assert(w.len() >= 2);
        assert(w.drop_last() =~= v);
        assert(w.last() == x);
    }
}

/// A string has at most one decomposition into '/'-free segments.
pub proof fn lemma_split_unique(a: Seq<Seq<char>>, b: Seq<Seq<char>>, s: Seq<char>)
    requires
        is_split_of(a, s),
        is_split_of(b, s),
    ensures
        a == b,
    decreases s.len(),
{
    if a.len() == 1 && b.len() == 1 {
        assert(a[0] == s && b[0] == s);
        assert(a =~= b);
    } else if a.len() == 1 {
        // b.len() >= 2, so s holds a '/', but a[0] == s is '/'-free.
        let jb = spec_join(b.drop_last());
        assert(s == jb + seq!['/'] + b.last());
        assert(s[jb.len() as int] == '/');
        assert(a[0].contains('/'));
        assert(false);
    } else if b.len() == 1 {
        let ja = spec_join(a.drop_last());
        assert(s == ja + seq!['/'] + a.last());
        assert(s[ja.len() as int] == '/');
        assert(b[0].contains('/'));
        assert(false);
    } else {
        let ja = spec_join(a.drop_last());
        let jb = spec_join(b.drop_last());
        assert(s == ja + seq!['/'] + a.last());
        assert(s == jb + seq!['/'] + b.last());
        assert(seg_ok(a.last())) by {
            assert(a.last() == a[a.len() - 1]);
        }
        assert(seg_ok(b.last())) by {
            assert(b.last() == b[b.len() - 1]);
        }
        // The separators written by both decompositions stand at the same
        // place: a later one would fall inside the other's final segment.
        if ja.len() < jb.len() {
            assert(s[jb.len() as int] == '/');
            assert(a.last()[jb.len() - ja.len() - 1] == '/');
            assert(a.last().contains('/'));
            assert(false);
        } else if jb.len() < ja.len() {
            assert(s[ja.len() as int] == '/');
            assert(b.last()[ja.len() - jb.len() - 1] == '/');
            assert(b.last().contains('/'));
            assert(false);
        }
        assert(ja.len() == jb.len());
        assert(a.last() =~= b.last()) by {
            assert forall|i: int| 0 <= i < a.last().len() implies a.last()[i] == b.last()[i] by {
                assert(a.last()[i] == s[ja.len() + 1 + i]);
                assert(b.last()[i] == s[jb.len() + 1 + i]);
            }
        }
        assert(ja =~= jb) by {
            assert forall|i: int| 0 <= i < ja.len() implies ja[i] == jb[i] by {
                assert(ja[i] == s[i]);
                assert(jb[i] == s[i]);
            }
        }
        assert(all_segs_ok(a.drop_last())) by {
            assert forall|i: int| 0 <= i < a.drop_last().len() implies seg_ok(
                #[trigger] a.drop_last()[i],
            ) by {
                assert(a.drop_last()[i] == a[i]);
            }
        }
        assert(all_segs_ok(b.drop_last())) by {
            assert forall|i: int| 0 <= i < b.drop_last().len() implies seg_ok(
                #[trigger] b.drop_last()[i],
            ) by {
                assert(b.drop_last()[i] == b[i]);
            }
        }
        assert(ja.len() < s.len());
        lemma_split_unique(a.drop_last(), b.drop_last(), ja);
        assert(a =~= b) by {
            assert(a.drop_last() == b.drop_last());
            assert forall|i: int| 0 <= i < a.len() implies a[i] == b[i] by {
                if i < a.len() - 1 {
                    assert(a[i] == a.drop_last()[i]);
                    assert(b[i] == b.drop_last()[i]);
                }
            }
        }
    }
}

/// Any witnessed decomposition is the one `spec_segments` denotes.
pub proof fn lemma_segments_of(segs: Seq<Seq<char>>, s: Seq<char>)
    requires
        is_split_of(segs, s),
    ensures
        spec_segments(s) == segs,
{
    let c = spec_segments(s);
    assert(is_split_of(c, s)) by {
        assert(exists|x: Seq<Seq<char>>| is_split_of(x, s)) by {
            assert(is_split_of(segs, s));
        }
    }
    lemma_split_unique(c, segs, s);
}

pub proof fn lemma_views_push(v: Seq<String>, x: String)
    ensures
        views_of(v.push(x)) == views_of(v) + seq![x@],
{
    assert(views_of(v.push(x)) =~= views_of(v) + seq![x@]);
}

/// Split a path at '/' into its segments.
pub fn split_path(s: &str) -> (r: Vec<String>)
    ensures
        is_split_of(views_of(r@), s@),
        views_of(r@) == spec_segments(s@),
{
    let n = s.unicode_len();
    let mut r: Vec<String> = Vec::new();
    let mut start: usize = 0;
    let mut i: usize = 0;
    while i < n
        invariant
            n == s@.len(),
            start <= i <= n,
            all_segs_ok(views_of(r@)),
            seg_ok(s@.subrange(start as int, i as int)),
            spec_join(views_of(r@) + seq![s@.subrange(start as int, i as int)]) == s@.subrange(
                0,
                i as int,
            ),
        decreases n - i,
    {
        let c = s.get_char(i);
        let ghost old_r = r@;
        let ghost cur = s@.subrange(start as int, i as int);
        if c == '/' {
            let seg = s.substring_char(start, i).to_owned();
            r.push(seg);
            proof {
                lemma_views_push(old_r, seg);
                lemma_join_push(views_of(old_r), cur);
                lemma_join_push(views_of(r@), s@.subrange(i + 1, i + 1));
                assert(s@.subrange(i + 1, i + 1) =~= Seq::<char>::empty());
                assert(views_of(r@).len() >= 1);
                assert(spec_join(views_of(r@) + seq![s@.subrange(i + 1, i + 1)]) == spec_join(
                    views_of(r@),
                ) + seq!['/'] + s@.subrange(i + 1, i + 1));
                assert(spec_join(views_of(r@)) == s@.subrange(0, i as int)) by {
                    if views_of(old_r).len() == 0 {
                    } else {
                    }
                }
                assert(spec_join(views_of(r@)) + seq!['/'] + s@.subrange(i + 1, i + 1) =~= s
                    @.subrange(0, i + 1));
                assert(all_segs_ok(views_of(r@))) by {
                    assert forall|k: int| 0 <= k < views_of(r@).len() implies seg_ok(
                        #[trigger] views_of(r@)[k],
                    ) by {
                        if k < views_of(old_r).len() {
                            assert(views_of(r@)[k] == views_of(old_r)[k]);
                        }
                    }
                }
            }
            start = i + 1;
        } else {
            proof {
                lemma_join_push(views_of(r@), cur);
                lemma_join_push(views_of(r@), s@.subrange(start as int, i + 1));
                assert(s@.subrange(start as int, i + 1) =~= cur + seq![s@[i as int]]);
                assert(s@.subrange(0, i + 1) =~= s@.subrange(0, i as int) + seq![s@[i as int]]);
                if views_of(r@).len() == 0 {
                    assert(spec_join(views_of(r@) + seq![cur + seq![s@[i as int]]]) =~= s
                        @.subrange(0, i as int) + seq![s@[i as int]]);
                } else {
                    assert(spec_join(views_of(r@) + seq![cur + seq![s@[i as int]]]) =~= s
                        @.subrange(0, i as int) + seq![s@[i as int]]);
                }
                assert(seg_ok(s@.subrange(start as int, i + 1))) by {
                    let ext = cur + seq![s@[i as int]];
                    assert(!ext.contains('/')) by {
                        assert forall|k: int| 0 <= k < ext.len() implies ext[k] != '/' by {
                            if k < cur.len() {
                                assert(ext[k] == cur[k]);
                                assert(!cur.contains('/'));
                            } else {
                                assert(ext[k] == s@[i as int]);
                            }
                        }
                    }
                    assert(s@.subrange(start as int, i + 1) == ext);
                }
            }
        }
        i = i + 1;
    }
    let last = s.substring_char(start, n).to_owned();
    let ghost old_r = r@;
    r.push(last);
    proof {
        lemma_views_push(old_r, last);
        assert(spec_join(views_of(r@)) == s@.subrange(0, n as int));
        assert(s@.subrange(0, n as int) =~= s@);
        assert(all_segs_ok(views_of(r@))) by {
            assert forall|k: int| 0 <= k < views_of(r@).len() implies seg_ok(
                #[trigger] views_of(r@)[k],
            ) by {
                if k < views_of(old_r).len() {
                    assert(views_of(r@)[k] == views_of(old_r)[k]);
                }
            }
        }
        lemma_segments_of(views_of(r@), s@);
    }
    r
}

/// Join segments back into a path with '/' separators.
pub fn join_segments(v: &Vec<String>) -> (r: String)
    ensures
        r@ == spec_join(views_of(v@)),
{
    proof {
        reveal_strlit("/");
    }
    let mut r = String::new();
    if v.len() == 0 {
        return r;
    }
    let mut i: usize = 0;
    while i < v.len()
        invariant
            i <= v.len(),
            r@ == spec_join(views_of(v@.take(i as int))),
        decreases v.len() - i,
    {
        let ghost prefix = views_of(v@.take(i as int));
        if i > 0 {
            r.append("/");
        }
        r.append(v[i].as_str());
        proof {
            reveal_strlit("/");
            let next = views_of(v@.take(i + 1));
            assert(next =~= prefix + seq![v@[i as int]@]);
            lemma_join_push(prefix, v@[i as int]@);
            assert("/"@ =~= seq!['/']);
        }
        i = i + 1;
    }
    proof {
        assert(v@.take(v@.len() as int) =~= v@);
    }
    r
}

/// Compare two strings character by character.
pub fn str_eq(a: &str, b: &str) -> (r: bool)
    ensures
        r == (a@ == b@),
{
    let an = a.unicode_len();
    let bn = b.unicode_len();
    if an != bn {
        return false;
    }
    let mut i: usize = 0;
    while i < an
        invariant
            i <= an,
            an == a@.len(),
            bn == b@.len(),
            an == bn,
            forall|j: int| 0 <= j < i ==> a@[j] == b@[j],
        decreases an - i,
    {
        if a.get_char(i) != b.get_char(i) {
            return false;
        }
        i = i + 1;
    }
    proof {
        assert(a@ =~= b@);
    }
    true
}

/// Strict lexicographic order on character sequences, by code point.
pub open spec fn chars_lt(a: Seq<char>, b: Seq<char>) -> bool
    decreases a.len(),
{
    b.len() > 0 && (a.len() == 0 || a[0] < b[0] || (a[0] == b[0] && chars_lt(
        a.drop_first(),
        b.drop_first(),
    )))
}

pub proof fn lemma_chars_lt_trichotomy(a: Seq<char>, b: Seq<char>)
    ensures
        chars_lt(a, b) || chars_lt(b, a) || a == b,
    decreases a.len() + b.len(),
{
    if a.len() == 0 && b.len() == 0 {
        assert(a =~= b);
    } else if a.len() == 0 || b.len() == 0 {
    } else if a[0] < b[0] || b[0] < a[0] {
    } else {
        assert(a[0] == b[0]);
        lemma_chars_lt_trichotomy(a.drop_first(), b.drop_first());
        if a.drop_first() == b.drop_first() {
            assert(a =~= b) by {
                assert forall|i: int| 0 <= i < a.len() implies a[i] == b[i] by {
                    if i > 0 {
                        assert(a[i] == a.drop_first()[i - 1]);
                        assert(b[i] == b.drop_first()[i - 1]);
                    }
                }
                assert(a.len() == b.len());
            }
        }
    }
}

pub proof fn lemma_chars_lt_irrefl(a: Seq<char>)
    ensures
        !chars_lt(a, a),
    decreases a.len(),
{
    if a.len() > 0 {
        lemma_chars_lt_irrefl(a.drop_first());
    }
}

pub proof fn lemma_chars_lt_trans(a: Seq<char>, b: Seq<char>, c: Seq<char>)
    requires
        chars_lt(a, b),
        chars_lt(b, c),
    ensures
        chars_lt(a, c),
    decreases a.len() + b.len() + c.len(),
{
    if a.len() == 0 {
    } else {
        // b and c are nonempty since something is below them.
        if a[0] < b[0] {
            if b[0] < c[0] {
            } else {
                assert(b[0] == c[0]);
            }
        } else {
            assert(a[0] == b[0]);
            if b[0] < c[0] {
            } else {
                assert(b[0] == c[0]);
                lemma_chars_lt_trans(a.drop_first(), b.drop_first(), c.drop_first());
            }
        }
    }
}

/// Compare two strings in strict lexicographic order by code point.
pub fn str_lt(a: &str, b: &str) -> (r: bool)
    ensures
        r == chars_lt(a@, b@),
{
    let an = a.unicode_len();
    let bn = b.unicode_len();
    let mut i: usize = 0;
    proof {
        assert(a@.skip(0) =~= a@);
        assert(b@.skip(0) =~= b@);
    }
    while i < an && i < bn
        invariant
            i <= an,
            i <= bn,
            an == a@.len(),
            bn == b@.len(),
            chars_lt(a@, b@) == chars_lt(a@.skip(i as int), b@.skip(i as int)),
        decreases an - i,
    {
        let ca = a.get_char(i);
        let cb = b.get_char(i);
        let ghost sa = a@.skip(i as int);
        let ghost sb = b@.skip(i as int);
        proof {
            assert(sa[0] == a@[i as int]);
            assert(sb[0] == b@[i as int]);
        }
        if ca < cb {
            return true;
        }
        if cb < ca {
            proof {
                assert(!chars_lt(sa, sb));
            }
            return false;
        }
        proof {
            assert(ca == cb);
            assert(sa.drop_first() =~= a@.skip(i + 1));
            assert(sb.drop_first() =~= b@.skip(i + 1));
            assert(chars_lt(sa, sb) == chars_lt(a@.skip(i + 1), b@.skip(i + 1)));
        }
        i = i + 1;
    }
    proof {
        let sa = a@.skip(i as int);
        let sb = b@.skip(i as int);
        if i == an && an < bn {
            assert(sa.len() == 0);
            assert(sb.len() > 0);
            assert(chars_lt(sa, sb));
        } else {
            assert(sb.len() == 0 ==> !chars_lt(sa, sb));
        }
    }
    an < bn
}

} // verus!
