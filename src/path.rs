//! Paths: sequences of segments written as one string, joined by a dot.

use vstd::prelude::*;

verus! {

/// The separator between the segments of a path.
pub open spec fn separator() -> char {
    '.'
}

/// The segments written one after the other, with a dot between two.
pub open spec fn join_segments(segs: Seq<Seq<char>>) -> Seq<char>
    decreases segs.len(),
{
    if segs.len() == 0 {
        Seq::empty()
    } else if segs.len() == 1 {
        segs[0]
    } else {
        join_segments(segs.drop_last()) + seq![separator()] + segs.last()
    }
}

/// The pieces of `s` between its dots; there is always at least one.
pub open spec fn split_segments(s: Seq<char>) -> Seq<Seq<char>>
    decreases s.len(),
{
    if s.len() == 0 {
        seq![Seq::empty()]
    } else {
        let prev = split_segments(s.drop_last());
        if s.last() == separator() {
            prev.push(Seq::empty())
        } else {
            prev.update(prev.len() - 1, prev.last().push(s.last()))
        }
    }
}

pub proof fn lemma_split_nonempty(s: Seq<char>)
    ensures
        split_segments(s).len() >= 1,
    decreases s.len(),
{
    if s.len() > 0 {
        lemma_split_nonempty(s.drop_last());
    }
}

/// No segment holds a dot.
pub open spec fn dot_free(segs: Seq<Seq<char>>) -> bool {
    forall|i: int, j: int| 0 <= i < segs.len() && 0 <= j < segs[i].len() ==> segs[i][j] != separator()
}

/// A piece without dots, appended, grows the last segment.
pub proof fn lemma_split_append_plain(x: Seq<char>, y: Seq<char>)
    requires
        forall|j: int| 0 <= j < y.len() ==> y[j] != separator(),
    ensures
        split_segments(x + y) == split_segments(x).update(
            split_segments(x).len() - 1,
            split_segments(x).last() + y,
        ),
    decreases y.len(),
{
    lemma_split_nonempty(x);
    if y.len() == 0 {
        assert(x + y =~= x);
        assert(split_segments(x).last() + y =~= split_segments(x).last());
        assert(split_segments(x).update(split_segments(x).len() - 1, split_segments(x).last())
            =~= split_segments(x));
    } else {
        let y0 = y.drop_last();
        lemma_split_append_plain(x, y0);
        assert((x + y).drop_last() =~= x + y0);
        assert((x + y).last() == y.last());
        lemma_split_nonempty(x + y0);
        let s = split_segments(x);
        assert(split_segments(x + y0).len() == s.len());
        assert((s.last() + y0).push(y.last()) =~= s.last() + y);
        assert(split_segments(x + y) =~= s.update(s.len() - 1, s.last() + y));
    }
}

/// Splitting undoes joining, where no segment holds a dot.
pub proof fn lemma_split_join(segs: Seq<Seq<char>>)
    requires
        segs.len() >= 1,
        dot_free(segs),
    ensures
        split_segments(join_segments(segs)) == segs,
    decreases segs.len(),
{
    if segs.len() == 1 {
        lemma_split_append_plain(Seq::empty(), segs[0]);
        assert(Seq::<char>::empty() + segs[0] =~= segs[0]);
        assert(split_segments(Seq::<char>::empty()) =~= seq![Seq::<char>::empty()]);
        assert(split_segments(segs[0]) =~= segs);
    } else {
        let init = segs.drop_last();
        assert(dot_free(init)) by {
            assert forall|i: int, j: int| 0 <= i < init.len() && 0 <= j < init[i].len() implies init[i][j]
                != separator() by {
                assert(init[i] == segs[i]);
            }
        }
        lemma_split_join(init);
        let x = join_segments(init) + seq![separator()];
        assert(x.drop_last() =~= join_segments(init));
        assert(split_segments(x) == init.push(Seq::empty()));
        assert forall|j: int| 0 <= j < segs.last().len() implies segs.last()[j] != separator() by {
            assert(segs.last() == segs[segs.len() - 1]);
        }
        lemma_split_append_plain(x, segs.last());
        assert(Seq::<char>::empty() + segs.last() =~= segs.last());
        assert(init.push(Seq::empty()).update(init.len() as int, segs.last()) =~= segs);
    }
}

/// Joining undoes splitting.
pub proof fn lemma_join_split(s: Seq<char>)
    ensures
        join_segments(split_segments(s)) == s,
    decreases s.len(),
{
    if s.len() == 0 {
        assert(split_segments(s) =~= seq![Seq::<char>::empty()]);
    } else {
        let p = s.drop_last();
        lemma_join_split(p);
        lemma_split_nonempty(p);
        let sp = split_segments(p);
        if s.last() == separator() {
            let t = sp.push(Seq::empty());
            assert(t.drop_last() =~= sp);
            assert(join_segments(t) =~= s);
        } else {
            let t = sp.update(sp.len() - 1, sp.last().push(s.last()));
            if sp.len() == 1 {
                assert(join_segments(t) == t[0]);
                assert(t[0] =~= s);
            } else {
                assert(t.drop_last() =~= sp.drop_last());
                assert(join_segments(sp) == join_segments(sp.drop_last()) + seq![separator()] + sp.last());
                assert(join_segments(t) == join_segments(sp.drop_last()) + seq![separator()] + sp.last().push(s.last()));
                assert(join_segments(t) =~= p.push(s.last()));
                assert(s =~= p.push(s.last()));
            }
        }
    }
}

/// The segments of a split hold no dot.
pub proof fn lemma_split_dot_free(s: Seq<char>)
    ensures
        dot_free(split_segments(s)),
    decreases s.len(),
{
    if s.len() > 0 {
        let p = s.drop_last();
        lemma_split_dot_free(p);
        lemma_split_nonempty(p);
        let sp = split_segments(p);
        let t = split_segments(s);
        if s.last() != separator() {
            assert forall|i: int, j: int| 0 <= i < t.len() && 0 <= j < t[i].len() implies t[i][j]
                != separator() by {
                if i == sp.len() - 1 && j == sp.last().len() {
                } else if i == sp.len() - 1 {
                    assert(t[i][j] == sp[i][j]);
                } else {
                    assert(t[i] == sp[i]);
                }
            }
        } else {
            assert forall|i: int, j: int| 0 <= i < t.len() && 0 <= j < t[i].len() implies t[i][j]
                != separator() by {
                if i < sp.len() {
                    assert(t[i] == sp[i]);
                }
            }
        }
    }
}

/// The views of the strings, in order.
pub open spec fn string_views(v: Seq<String>) -> Seq<Seq<char>> {
    v.map_values(|s: String| s@)
}

/// Joins the segments with dots.
pub fn join_path(segs: &Vec<String>) -> (r: String)
    ensures
        r@ == join_segments(string_views(segs@)),
{
    let mut out = String::new();
    let mut i: usize = 0;
    while i < segs.len()
        invariant
            i <= segs.len(),
            out@ == join_segments(string_views(segs@.subrange(0, i as int))),
        decreases segs.len() - i,
    {
        proof {
            let pre = string_views(segs@.subrange(0, i as int));
            let post = string_views(segs@.subrange(0, i + 1));
            assert(post.drop_last() =~= pre);
            assert(post.last() == segs@[i as int]@);
        }
        proof {
            reveal_strlit(".");
        }
        if i > 0 {
            out.append(".");
        }
        out.append(segs[i].as_str());
        proof {
            let post = string_views(segs@.subrange(0, i + 1));
            assert(out@ == join_segments(post));
        }
        i = i + 1;
    }
    assert(segs@.subrange(0, segs.len() as int) =~= segs@);
    out
}

/// Splits `s` at each dot.
pub fn split_path(s: &str) -> (r: Vec<String>)
    ensures
        string_views(r@) == split_segments(s@),
{
    let n = s.unicode_len();
    let mut segs: Vec<String> = Vec::new();
    let mut start: usize = 0;
    proof {
        assert(s@.subrange(0, 0) =~= Seq::<char>::empty());
        assert(string_views(segs@) =~= Seq::<Seq<char>>::empty());
        assert(string_views(segs@).push(s@.subrange(0, 0)) =~= split_segments(s@.subrange(0, 0)));
    }
    let mut i: usize = 0;
    for c in it: s.chars()
        invariant
            it.seq() == s@,
            i == it.index(),
            n == s@.len(),
            start <= i <= s@.len(),
            string_views(segs@).push(s@.subrange(start as int, i as int))
                == split_segments(s@.subrange(0, i as int)),
    {
        proof {
            let pre = s@.subrange(0, i as int);
            let post = s@.subrange(0, i + 1);
            assert(post.drop_last() =~= pre);
            assert(s@.subrange(start as int, i + 1) =~= s@.subrange(start as int, i as int).push(c));
        }
        if c == '.' {
            segs.push(s.substring_char(start, i).to_owned());
            start = i + 1;
            proof {
                assert(s@.subrange(start as int, i + 1) =~= Seq::<char>::empty());
            }
        }
        i = i + 1;
    }
    segs.push(s.substring_char(start, i).to_owned());
    assert(s@.subrange(0, i as int) =~= s@);
    segs
}

} // verus!
