//! Flat mappings: entries of a path and a value, kept in ascending order of
//! their paths, each path at most once.

use vstd::prelude::*;
use crate::text_order::{lemma_text_less_irreflexive, lemma_text_less_transitive, text_cmp, text_less};
use crate::tree::{Tree, Value};

verus! {

/// The models of the entries, in order.
pub open spec fn entry_views(es: Seq<(String, Value)>) -> Seq<(Seq<char>, Tree)> {
    es.map_values(|e: (String, Value)| (e.0@, e.1@))
}

/// Every path comes strictly before the next one.
pub open spec fn paths_ascending(es: Seq<(String, Value)>) -> bool {
    forall|i: int, j: int| 0 <= i < j < es.len() ==> text_less(#[trigger] es[i].0@, #[trigger] es[j].0@)
}

/// No path occurs twice.
pub open spec fn paths_distinct(s: Seq<(Seq<char>, Tree)>) -> bool {
    forall|i: int, j: int| 0 <= i < j < s.len() ==> #[trigger] s[i].0 != #[trigger] s[j].0
}

/// `m` after inserting the entries one after another: where a path occurs
/// twice, the later value wins.
pub open spec fn insert_all(m: Map<Seq<char>, Tree>, s: Seq<(Seq<char>, Tree)>) -> Map<Seq<char>, Tree>
    decreases s.len(),
{
    if s.len() == 0 {
        m
    } else {
        insert_all(m, s.drop_last()).insert(s.last().0, s.last().1)
    }
}

/// The map that the entries build, starting from nothing.
pub open spec fn to_map(s: Seq<(Seq<char>, Tree)>) -> Map<Seq<char>, Tree> {
    insert_all(Map::empty(), s)
}

pub proof fn lemma_insert_all_concat(m: Map<Seq<char>, Tree>, a: Seq<(Seq<char>, Tree)>, b: Seq<(Seq<char>, Tree)>)
    ensures
        insert_all(m, a + b) == insert_all(insert_all(m, a), b),
    decreases b.len(),
{
    if b.len() == 0 {
        assert(a + b =~= a);
    } else {
        lemma_insert_all_concat(m, a, b.drop_last());
        assert((a + b).drop_last() =~= a + b.drop_last());
    }
}

pub proof fn lemma_to_map_keys(s: Seq<(Seq<char>, Tree)>)
    ensures
        forall|k: Seq<char>|
            #[trigger] to_map(s).contains_key(k) <==> exists|i: int| 0 <= i < s.len() && s[i].0 == k,
    decreases s.len(),
{
    if s.len() > 0 {
        let p = s.drop_last();
        lemma_to_map_keys(p);
        assert(to_map(s) == to_map(p).insert(s.last().0, s.last().1)) by {
            reveal_with_fuel(insert_all, 1);
        }
        assert forall|k: Seq<char>|
            #[trigger] to_map(s).contains_key(k) <==> exists|i: int| 0 <= i < s.len() && s[i].0 == k by {
            if to_map(s).contains_key(k) && k != s.last().0 {
                assert(to_map(p).contains_key(k));
                let i = choose|i: int| 0 <= i < p.len() && p[i].0 == k;
                assert(s[i].0 == k);
            }
            if k == s.last().0 {
                assert(s[s.len() - 1].0 == k);
            }
            if exists|i: int| 0 <= i < s.len() && s[i].0 == k {
                let i = choose|i: int| 0 <= i < s.len() && s[i].0 == k;
                if i < s.len() - 1 {
                    assert(p[i].0 == k);
                    assert(to_map(p).contains_key(k));
                }
            }
        }
    }
}

pub proof fn lemma_to_map_distinct(s: Seq<(Seq<char>, Tree)>)
    requires
        paths_distinct(s),
    ensures
        forall|k: Seq<char>|
            #[trigger] to_map(s).contains_key(k) <==> exists|i: int| 0 <= i < s.len() && s[i].0 == k,
        forall|i: int| 0 <= i < s.len() ==> #[trigger] to_map(s)[s[i].0] == s[i].1,
    decreases s.len(),
{
    lemma_to_map_keys(s);
    if s.len() > 0 {
        let p = s.drop_last();
        assert(paths_distinct(p)) by {
            assert forall|i: int, j: int| 0 <= i < j < p.len() implies #[trigger] p[i].0 != #[trigger] p[j].0 by {
                assert(p[i] == s[i] && p[j] == s[j]);
            }
        }
        lemma_to_map_distinct(p);
        assert(to_map(s) == to_map(p).insert(s.last().0, s.last().1)) by {
            reveal_with_fuel(insert_all, 1);
        }
        assert forall|i: int| 0 <= i < s.len() implies #[trigger] to_map(s)[s[i].0] == s[i].1 by {
            if i < s.len() - 1 {
                assert(p[i] == s[i]);
                assert(s[i].0 != s[s.len() - 1].0);
                assert(to_map(p)[p[i].0] == p[i].1);
            }
        }
    }
}

pub proof fn lemma_ascending_distinct(es: Seq<(String, Value)>)
    requires
        paths_ascending(es),
    ensures
        paths_distinct(entry_views(es)),
{
    let s = entry_views(es);
    assert forall|i: int, j: int| 0 <= i < j < s.len() implies #[trigger] s[i].0 != #[trigger] s[j].0 by {
        assert(text_less(es[i].0@, es[j].0@));
        lemma_text_less_irreflexive(es[i].0@);
    }
}

/// Puts `value` under `key`: the entry with an equal path takes the new
/// value, or a new entry goes where the order puts it.
pub fn insert_entry(es: &mut Vec<(String, Value)>, key: String, value: Value)
    requires
        paths_ascending(old(es)@),
    ensures
        paths_ascending(final(es)@),
        to_map(entry_views(final(es)@)) == to_map(entry_views(old(es)@)).insert(key@, value@),
{
    let ghost e0 = es@;
    let mut lo: usize = 0;
    let mut hi: usize = es.len();
    while lo < hi
        invariant
            es@ == e0,
            old(es)@ == e0,
            paths_ascending(e0),
            0 <= lo <= hi <= e0.len(),
            forall|i: int| 0 <= i < lo ==> text_less(#[trigger] e0[i].0@, key@),
            forall|i: int| hi <= i < e0.len() ==> text_less(key@, #[trigger] e0[i].0@),
        decreases hi - lo,
    {
        let mid = lo + (hi - lo) / 2;
        match text_cmp(es[mid].0.as_str(), key.as_str()) {
            core::cmp::Ordering::Less => {
                proof {
                    assert forall|i: int| 0 <= i <= mid implies text_less(#[trigger] e0[i].0@, key@) by {
                        if i < mid {
                            lemma_text_less_transitive(e0[i].0@, e0[mid as int].0@, key@);
                        }
                    }
                }
                lo = mid + 1;
            },
            core::cmp::Ordering::Greater => {
                proof {
                    assert forall|i: int| mid <= i < e0.len() implies text_less(key@, #[trigger] e0[i].0@) by {
                        if i > mid {
                            lemma_text_less_transitive(key@, e0[mid as int].0@, e0[i].0@);
                        }
                    }
                }
                hi = mid;
            },
            core::cmp::Ordering::Equal => {
                es[mid].1 = value;
                proof {
                    let e1 = es@;
                    assert(e1 == e0.update(mid as int, (e0[mid as int].0, value)));
                    assert forall|i: int, j: int| 0 <= i < j < e1.len() implies text_less(#[trigger] e1[i].0@, #[trigger] e1[j].0@) by {
                        assert(e1[i].0 == e0[i].0 && e1[j].0 == e0[j].0);
                    }
                    lemma_ascending_distinct(e0);
                    lemma_ascending_distinct(e1);
                    let s0 = entry_views(e0);
                    let s1 = entry_views(e1);
                    lemma_to_map_distinct(s0);
                    lemma_to_map_distinct(s1);
                    assert(s1 == s0.update(mid as int, (key@, value@)));
                    assert forall|k: Seq<char>| #[trigger] to_map(s1).contains_key(k)
                        <==> to_map(s0).insert(key@, value@).contains_key(k) by {
                        if to_map(s0).contains_key(k) {
                            let i = choose|i: int| 0 <= i < s0.len() && s0[i].0 == k;
                            assert(s1[i].0 == k);
                        }
                        if k == key@ {
                            assert(s0[mid as int].0 == k);
                            assert(s1[mid as int].0 == k);
                        }
                        if to_map(s1).contains_key(k) {
                            let i = choose|i: int| 0 <= i < s1.len() && s1[i].0 == k;
                            assert(s0[i].0 == k);
                        }
                    }
                    assert forall|k: Seq<char>| #[trigger] to_map(s1).contains_key(k)
                        implies to_map(s1)[k] == to_map(s0).insert(key@, value@)[k] by {
                        let i = choose|i: int| 0 <= i < s1.len() && s1[i].0 == k;
                        assert(to_map(s1)[s1[i].0] == s1[i].1);
                        if i != mid {
                            assert(to_map(s0)[s0[i].0] == s0[i].1);
                        }
                    }
                    assert(to_map(s1) =~= to_map(s0).insert(key@, value@));
                    assert(to_map(entry_views(es@)) == to_map(entry_views(e0)).insert(key@, value@));
                }
                return;
            },
        }
    }
    es.insert(lo, (key, value));
    proof {
        lemma_text_less_irreflexive(key@);
        let e1 = es@;
        assert(e1 == e0.insert(lo as int, (key, value)));
        assert forall|i: int, j: int| 0 <= i < j < e1.len() implies text_less(#[trigger] e1[i].0@, #[trigger] e1[j].0@) by {
            if j < lo {
                assert(e1[i] == e0[i] && e1[j] == e0[j]);
            } else if j == lo {
                assert(e1[i] == e0[i]);
            } else if i == lo {
                assert(e1[j] == e0[j - 1]);
            } else if i < lo {
                assert(e1[i] == e0[i] && e1[j] == e0[j - 1]);
                lemma_text_less_transitive(e0[i].0@, key@, e0[j - 1].0@);
            } else {
                assert(e1[i] == e0[i - 1] && e1[j] == e0[j - 1]);
            }
        }
        lemma_ascending_distinct(e0);
        lemma_ascending_distinct(e1);
        let s0 = entry_views(e0);
        let s1 = entry_views(e1);
        lemma_to_map_distinct(s0);
        lemma_to_map_distinct(s1);
        assert(s1 == s0.insert(lo as int, (key@, value@)));
        assert forall|k: Seq<char>| #[trigger] to_map(s1).contains_key(k)
            <==> to_map(s0).insert(key@, value@).contains_key(k) by {
            if to_map(s0).contains_key(k) {
                let i = choose|i: int| 0 <= i < s0.len() && s0[i].0 == k;
                if i < lo {
                    assert(s1[i].0 == k);
                } else {
                    assert(s1[i + 1].0 == k);
                }
            }
            if k == key@ {
                assert(s1[lo as int].0 == k);
            }
            if to_map(s1).contains_key(k) {
                let i = choose|i: int| 0 <= i < s1.len() && s1[i].0 == k;
                if i < lo {
                    assert(s0[i].0 == k);
                } else if i > lo {
                    assert(s0[i - 1].0 == k);
                }
            }
        }
        assert forall|k: Seq<char>| #[trigger] to_map(s1).contains_key(k)
            implies to_map(s1)[k] == to_map(s0).insert(key@, value@)[k] by {
            let i = choose|i: int| 0 <= i < s1.len() && s1[i].0 == k;
            assert(to_map(s1)[s1[i].0] == s1[i].1);
            if i < lo {
                assert(to_map(s0)[s0[i].0] == s0[i].1);
            } else if i > lo {
                assert(to_map(s0)[s0[i - 1].0] == s0[i - 1].1);
            }
        }
        assert(to_map(s1) =~= to_map(s0).insert(key@, value@));
    }
}

} // verus!
