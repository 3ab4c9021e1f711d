//! The order of strings: lexicographic over their characters.

use vstd::prelude::*;
use vstd::std_specs::iter::IteratorSpec;

verus! {

/// `a` comes strictly before `b`.
pub open spec fn text_less(a: Seq<char>, b: Seq<char>) -> bool
    decreases a.len(),
{
    if a.len() == 0 {
        b.len() > 0
    } else if b.len() == 0 {
        false
    } else if a[0] != b[0] {
        a[0] < b[0]
    } else {
        text_less(a.drop_first(), b.drop_first())
    }
}

pub proof fn lemma_text_less_irreflexive(a: Seq<char>)
    ensures
        !text_less(a, a),
    decreases a.len(),
{
    if a.len() > 0 {
        lemma_text_less_irreflexive(a.drop_first());
    }
}

pub proof fn lemma_text_less_total(a: Seq<char>, b: Seq<char>)
    ensures
        a != b ==> text_less(a, b) || text_less(b, a),
        !(text_less(a, b) && text_less(b, a)),
    decreases a.len(),
{
    if a.len() > 0 && b.len() > 0 {
        lemma_text_less_total(a.drop_first(), b.drop_first());
        if a[0] == b[0] && a != b {
            assert(a =~= seq![a[0]] + a.drop_first());
            assert(b =~= seq![b[0]] + b.drop_first());
        }
    } else if a.len() == 0 && b.len() == 0 {
        assert(a =~= b);
    }
}

pub proof fn lemma_text_less_transitive(a: Seq<char>, b: Seq<char>, c: Seq<char>)
    requires
        text_less(a, b),
        text_less(b, c),
    ensures
        text_less(a, c),
    decreases a.len(),
{
    if a.len() > 0 && a[0] == b[0] && b[0] == c[0] {
        lemma_text_less_transitive(a.drop_first(), b.drop_first(), c.drop_first());
    }
}

/// Compares two strings: less, equal or greater.
pub fn text_cmp(a: &str, b: &str) -> (r: core::cmp::Ordering)
    ensures
        (r == core::cmp::Ordering::Less) <==> text_less(a@, b@),
        (r == core::cmp::Ordering::Equal) <==> a@ == b@,
        (r == core::cmp::Ordering::Greater) <==> text_less(b@, a@),
{
    broadcast use vstd::string::group_string_axioms;
    let mut ia = a.chars();
    let mut ib = b.chars();
    proof {
        lemma_text_less_total(a@, b@);
        lemma_text_less_irreflexive(a@);
    }
    loop
        invariant
            ia.obeys_prophetic_iter_laws(),
            ia.decrease() is Some,
            ib.obeys_prophetic_iter_laws(),
            text_less(a@, b@) == text_less(ia.remaining(), ib.remaining()),
            text_less(b@, a@) == text_less(ib.remaining(), ia.remaining()),
            (a@ == b@) == (ia.remaining() == ib.remaining()),
        decreases ia.decrease()->0,
    {
        let ghost ra = ia.remaining();
        let ghost rb = ib.remaining();
        let x = ia.next();
        let y = ib.next();
        match x {
            None => {
                match y {
                    None => {
                        assert(ra =~= rb);
                        return core::cmp::Ordering::Equal;
                    },
                    Some(_) => {
                        return core::cmp::Ordering::Less;
                    },
                }
            },
            Some(cx) => {
                match y {
                    None => {
                        return core::cmp::Ordering::Greater;
                    },
                    Some(cy) => {
                        if cx != cy {
                            if cx < cy {
                                return core::cmp::Ordering::Less;
                            } else {
                                return core::cmp::Ordering::Greater;
                            }
                        }
                        proof {
                            assert(ra =~= seq![cx] + ia.remaining());
                            assert(rb =~= seq![cy] + ib.remaining());
                        }
                    },
                }
            },
        }
    }
}

} // verus!
