//! What the conversions guarantee together: flattening a tree and
//! rebuilding it, and flattening trees that differ only in the order of
//! their entries.

use vstd::prelude::*;
use crate::conversion::{
    flatten_model, key_index, key_segment, leaves, leaves_of_entries, lemma_key_index, place,
    unflatten_model, unflatten_tree,
};
use crate::flat::{
    entry_views, lemma_ascending_distinct, lemma_to_map_distinct, paths_ascending, paths_distinct, to_map,
};
use crate::path::{
    dot_free, join_segments, lemma_join_split, lemma_split_dot_free, lemma_split_join, lemma_split_nonempty,
    separator, split_segments,
};
use crate::tree::{KeyModel, Tree, Value};

verus! {

/// What a path of segments leads to in a tree.
pub enum Node {
    /// A value that is not a mapping.
    Leaf(Tree),
    /// A mapping.
    Branch,
}

/// Where the path `p` leads from `t`, following string keys.
pub open spec fn node_at(t: Tree, p: Seq<Seq<char>>) -> Option<Node>
    decreases p.len(),
{
    if p.len() == 0 {
        match t {
            Tree::Mapping(_) => Some(Node::Branch),
            _ => Some(Node::Leaf(t)),
        }
    } else {
        match t {
            Tree::Mapping(es) => {
                let j = key_index(es, KeyModel::Text(p[0]));
                if j >= 0 {
                    node_at(es[j].1, p.drop_first())
                } else {
                    None
                }
            },
            _ => None,
        }
    }
}

/// A string key without a dot.
pub open spec fn plain_key(k: KeyModel) -> bool {
    &&& k is Text
    &&& forall|j: int| 0 <= j < k->Text_0.len() ==> k->Text_0[j] != separator()
}

/// Every mapping key in `t` is a string without a dot, and no mapping holds a
/// key twice.
pub open spec fn simple_keys(t: Tree) -> bool
    decreases t,
{
    match t {
        Tree::Mapping(es) => {
            &&& forall|i: int| 0 <= i < es.len() ==> plain_key(#[trigger] es[i].0)
            &&& forall|i: int, j: int| 0 <= i < j < es.len() ==> #[trigger] es[i].0 != #[trigger] es[j].0
            &&& forall|i: int| 0 <= i < es.len() ==> simple_keys(#[trigger] es[i].1)
        },
        _ => true,
    }
}

/// `a` and `b` lead every path to the same place: with simple keys, they are
/// the same tree up to the order of the entries in each mapping.
pub open spec fn same_tree(a: Tree, b: Tree) -> bool {
    forall|p: Seq<Seq<char>>| #[trigger] node_at(a, p) == node_at(b, p)
}

/// The path `p` leads to a leaf.
pub open spec fn leads_to_leaf(t: Tree, p: Seq<Seq<char>>) -> bool {
    node_at(t, p) is Some && node_at(t, p)->Some_0 is Leaf
}

/// On a tree with simple keys, `flatten` yields under each path the leaf
/// that its segments lead to, and nothing else.
pub proof fn lemma_flatten_leaf_paths(t: Tree)
    requires
        simple_keys(t),
    ensures
        forall|k: Seq<char>|
            #[trigger] flatten_model(t).contains_key(k) <==> leads_to_leaf(t, split_segments(k)),
        forall|k: Seq<char>|
            #[trigger] flatten_model(t).contains_key(k) ==> node_at(t, split_segments(k)) == Some(
                Node::Leaf(flatten_model(t)[k]),
            ),
{
    let pre = Seq::<Seq<char>>::empty();
    let l = leaves(t, pre);
    lemma_leaves(t, pre);
    lemma_to_map_distinct(l);
    assert forall|k: Seq<char>|
        #[trigger] flatten_model(t).contains_key(k) implies leads_to_leaf(t, split_segments(k))
        && node_at(t, split_segments(k)) == Some(Node::Leaf(flatten_model(t)[k])) by {
        let i = choose|i: int| 0 <= i < l.len() && l[i].0 == k;
        assert(leaf_entry(t, pre, l[i]));
        assert(split_segments(k).skip(0) =~= split_segments(k));
        assert(to_map(l)[l[i].0] == l[i].1);
    }
    assert forall|k: Seq<char>|
        leads_to_leaf(t, split_segments(k)) implies #[trigger] flatten_model(t).contains_key(k) by {
        let q = split_segments(k);
        crate::path::lemma_split_nonempty(k);
        assert(node_at(t, q) is Some && node_at(t, q)->Some_0 is Leaf);
        lemma_join_split(k);
        assert(pre + q =~= q);
        let i = choose|i: int| 0 <= i < l.len() && l[i].0 == join_segments(pre + q);
        assert(l[i].0 == k);
    }
}

/// Flattening does not depend on the order of the entries within mappings:
/// trees with simple keys that are the same up to that order flatten to the
/// same paths with the same values.
pub proof fn law_flatten_ignores_entry_order(a: Tree, b: Tree)
    requires
        simple_keys(a),
        simple_keys(b),
        same_tree(a, b),
    ensures
        flatten_model(a) == flatten_model(b),
{
    lemma_flatten_leaf_paths(a);
    lemma_flatten_leaf_paths(b);
    assert forall|k: Seq<char>| #[trigger] flatten_model(a).contains_key(k) <==> flatten_model(b).contains_key(k) by {
        assert(node_at(a, split_segments(k)) == node_at(b, split_segments(k)));
    }
    assert forall|k: Seq<char>| #[trigger] flatten_model(a).contains_key(k) implies flatten_model(a)[k]
        == flatten_model(b)[k] by {
        assert(node_at(a, split_segments(k)) == node_at(b, split_segments(k)));
    }
    assert(flatten_model(a) =~= flatten_model(b));
}

/// The entry `e` of a flattening below `pre` stands for a leaf of `s`.
pub open spec fn leaf_entry(s: Tree, pre: Seq<Seq<char>>, e: (Seq<char>, Tree)) -> bool {
    let segs = split_segments(e.0);
    &&& segs.len() >= 1
    &&& segs.len() >= pre.len()
    &&& segs.take(pre.len() as int) == pre
    &&& node_at(s, segs.skip(pre.len() as int)) == Some(Node::Leaf(e.1))
}

/// The leaves of `s` below `pre` are its leaves under their paths, each once.
proof fn lemma_leaves(s: Tree, pre: Seq<Seq<char>>)
    requires
        simple_keys(s),
        dot_free(pre),
    ensures
        forall|i: int| 0 <= i < leaves(s, pre).len() ==> leaf_entry(s, pre, #[trigger] leaves(s, pre)[i]),
        forall|q: Seq<Seq<char>>|
            pre.len() + q.len() >= 1 && #[trigger] node_at(s, q) is Some && node_at(s, q)->Some_0 is Leaf
                ==> exists|i: int| 0 <= i < leaves(s, pre).len() && leaves(s, pre)[i].0 == join_segments(pre + q),
        paths_distinct(leaves(s, pre)),
    decreases s, 0int,
{
    match s {
        Tree::Mapping(es) => {
            lemma_leaves_entries(es, pre, es.len() as int);
            let l = leaves(s, pre);
            assert(l == leaves_of_entries(es, pre, es.len() as int));
            assert forall|i: int| 0 <= i < l.len() implies leaf_entry(s, pre, #[trigger] l[i]) by {
                let segs = split_segments(l[i].0);
                let rest = segs.skip(pre.len() as int);
                assert(rest[0] == segs[pre.len() as int]);
                assert(rest.drop_first() =~= segs.skip(pre.len() as int + 1));
            }
            assert forall|q: Seq<Seq<char>>|
                pre.len() + q.len() >= 1 && #[trigger] node_at(s, q) is Some && node_at(s, q)->Some_0 is Leaf
                implies exists|i: int| 0 <= i < l.len() && l[i].0 == join_segments(pre + q) by {
                lemma_key_index(es, KeyModel::Text(q[0]));
            }
        },
        _ => {
            let l = leaves(s, pre);
            if pre.len() > 0 {
                lemma_split_join(pre);
                assert(pre.take(pre.len() as int) =~= pre);
                assert(pre.skip(pre.len() as int) =~= Seq::<Seq<char>>::empty());
                assert(leaf_entry(s, pre, l[0]));
                assert forall|q: Seq<Seq<char>>|
                    pre.len() + q.len() >= 1 && #[trigger] node_at(s, q) is Some && node_at(s, q)->Some_0 is Leaf
                    implies exists|i: int| 0 <= i < l.len() && l[i].0 == join_segments(pre + q) by {
                    assert(q.len() == 0);
                    assert(pre + q =~= pre);
                    assert(l[0].0 == join_segments(pre + q));
                }
            }
        },
    }
}

/// The leaves below the first `n` entries of a mapping, as `lemma_leaves`
/// states them, with the entry each comes from.
#[verifier::rlimit(60)]
proof fn lemma_leaves_entries(es: Seq<(KeyModel, Tree)>, pre: Seq<Seq<char>>, n: int)
    requires
        simple_keys(Tree::Mapping(es)),
        dot_free(pre),
        0 <= n <= es.len(),
    ensures
        forall|i: int| 0 <= i < leaves_of_entries(es, pre, n).len() ==> {
            let e = #[trigger] leaves_of_entries(es, pre, n)[i];
            let segs = split_segments(e.0);
            let j = key_index(es, KeyModel::Text(segs[pre.len() as int]));
            &&& segs.len() > pre.len()
            &&& segs.take(pre.len() as int) == pre
            &&& 0 <= j < n
            &&& node_at(es[j].1, segs.skip(pre.len() as int + 1)) == Some(Node::Leaf(e.1))
        },
        forall|q: Seq<Seq<char>>|
            q.len() >= 1 && 0 <= key_index(es, KeyModel::Text(q[0])) < n
                && #[trigger] node_at(Tree::Mapping(es), q) is Some
                && node_at(Tree::Mapping(es), q)->Some_0 is Leaf
                ==> exists|i: int| 0 <= i < leaves_of_entries(es, pre, n).len()
                    && leaves_of_entries(es, pre, n)[i].0 == join_segments(pre + q),
        paths_distinct(leaves_of_entries(es, pre, n)),
    decreases es, n,
{
    if n > 0 {
        lemma_leaves_entries(es, pre, n - 1);
        let k = es[n - 1].0;
        let sub = es[n - 1].1;
        let t = Tree::Mapping(es);
        assert(t->Mapping_0 == es);
        assert(forall|i: int| 0 <= i < es.len() ==> plain_key(#[trigger] es[i].0));
        assert(plain_key(es[n - 1].0));
        assert(simple_keys(sub));
        let pre2 = pre.push(key_segment(k));
        assert(key_segment(k) == k->Text_0);
        assert(dot_free(pre2)) by {
            assert forall|i: int, j: int| 0 <= i < pre2.len() && 0 <= j < pre2[i].len() implies pre2[i][j]
                != separator() by {
                if i < pre.len() {
                    assert(pre2[i] == pre[i]);
                }
            }
        }
        assert(decreases_to!(es => es[n - 1])) by {
            broadcast use vstd::seq::axiom_seq_index_decreases;
        }
        lemma_leaves(sub, pre2);
        lemma_key_index(es, k);
        assert(key_index(es, k) == n - 1) by {
            if key_index(es, k) != n - 1 {
                assert(es[key_index(es, k)].0 == k);
            }
        }
        let a = leaves_of_entries(es, pre, n - 1);
        let b = leaves(sub, pre2);
        let l = leaves_of_entries(es, pre, n);
        assert(l == a + b);
        assert forall|i: int| 0 <= i < l.len() implies {
            let e = #[trigger] l[i];
            let segs = split_segments(e.0);
            let j = key_index(es, KeyModel::Text(segs[pre.len() as int]));
            &&& segs.len() > pre.len()
            &&& segs.take(pre.len() as int) == pre
            &&& 0 <= j < n
            &&& node_at(es[j].1, segs.skip(pre.len() as int + 1)) == Some(Node::Leaf(e.1))
        } by {
            if i < a.len() {
                assert(l[i] == a[i]);
            } else {
                let e = b[i - a.len()];
                assert(l[i] == e);
                assert(leaf_entry(sub, pre2, e));
                let segs = split_segments(e.0);
                assert(segs.take(pre2.len() as int) == pre2);
                assert(segs[pre.len() as int] == segs.take(pre2.len() as int)[pre.len() as int]);
                assert(segs.take(pre.len() as int) =~= pre2.take(pre.len() as int));
                assert(pre2.take(pre.len() as int) =~= pre);
                assert(segs.skip(pre.len() as int + 1) =~= segs.skip(pre2.len() as int));
            }
        }
        assert forall|q: Seq<Seq<char>>|
            q.len() >= 1 && 0 <= key_index(es, KeyModel::Text(q[0])) < n
                && #[trigger] node_at(Tree::Mapping(es), q) is Some
                && node_at(Tree::Mapping(es), q)->Some_0 is Leaf
            implies exists|i: int| 0 <= i < l.len() && l[i].0 == join_segments(pre + q) by {
            if key_index(es, KeyModel::Text(q[0])) < n - 1 {
                let i = choose|i: int| 0 <= i < a.len() && a[i].0 == join_segments(pre + q);
                assert(l[i] == a[i]);
            } else {
                lemma_key_index(es, KeyModel::Text(q[0]));
                let q2 = q.drop_first();
                assert(node_at(sub, q2) == node_at(Tree::Mapping(es), q));
                assert(pre2 + q2 =~= pre + q);
                let i = choose|i: int| 0 <= i < b.len() && b[i].0 == join_segments(pre2 + q2);
                assert(l[a.len() + i] == b[i]);
            }
        }
        assert forall|i: int, j: int| 0 <= i < j < l.len() implies #[trigger] l[i].0 != #[trigger] l[j].0 by {
            if j < a.len() {
                assert(l[i] == a[i] && l[j] == a[j]);
            } else if i >= a.len() {
                assert(l[i] == b[i - a.len()] && l[j] == b[j - a.len()]);
            } else {
                assert(l[i] == a[i]);
                let e = b[j - a.len()];
                assert(l[j] == e);
                assert(leaf_entry(sub, pre2, e));
                let segs = split_segments(e.0);
                assert(segs[pre.len() as int] == segs.take(pre2.len() as int)[pre.len() as int]);
                assert(segs[pre.len() as int] == k->Text_0);
            }
        }
    }
}

/// `p` is `s` or a path above it.
pub open spec fn is_prefix(p: Seq<Seq<char>>, s: Seq<Seq<char>>) -> bool {
    p.len() <= s.len() && s.take(p.len() as int) == p
}

/// `p` is a path strictly above `s`.
pub open spec fn is_proper_prefix(p: Seq<Seq<char>>, s: Seq<Seq<char>>) -> bool {
    p.len() < s.len() && s.take(p.len() as int) == p
}

/// No mapping below the root of `t` is empty.
pub open spec fn full_branches(t: Tree) -> bool
    decreases t,
{
    match t {
        Tree::Mapping(es) => forall|i: int|
            0 <= i < es.len() ==> {
                &&& (#[trigger] es[i].1 is Mapping ==> es[i].1->Mapping_0.len() > 0)
                &&& full_branches(es[i].1)
            },
        _ => true,
    }
}

/// What a path leads to is a leaf only if it is not a mapping.
proof fn lemma_leaf_not_mapping(t: Tree, q: Seq<Seq<char>>)
    requires
        leads_to_leaf(t, q),
    ensures
        !(node_at(t, q)->Some_0->Leaf_0 is Mapping),
    decreases q.len(),
{
    if q.len() > 0 {
        let es = t->Mapping_0;
        let j = key_index(es, KeyModel::Text(q[0]));
        lemma_key_index(es, KeyModel::Text(q[0]));
        lemma_leaf_not_mapping(es[j].1, q.drop_first());
    }
}

/// Whatever lies below a path, the path itself leads to a mapping.
proof fn lemma_above_is_branch(t: Tree, p: Seq<Seq<char>>, r: Seq<Seq<char>>)
    requires
        r.len() > 0,
        node_at(t, p + r) is Some,
    ensures
        node_at(t, p) == Some(Node::Branch),
    decreases p.len(),
{
    if p.len() == 0 {
        assert(p + r =~= r);
    } else {
        let es = t->Mapping_0;
        let j = key_index(es, KeyModel::Text(p[0]));
        assert((p + r)[0] == p[0]);
        assert((p + r).drop_first() =~= p.drop_first() + r);
        lemma_key_index(es, KeyModel::Text(p[0]));
        lemma_above_is_branch(es[j].1, p.drop_first(), r);
    }
}

/// A path leads somewhere in a tree with simple keys only through keys
/// without dots.
proof fn lemma_path_dot_free(t: Tree, p: Seq<Seq<char>>)
    requires
        simple_keys(t),
        node_at(t, p) is Some,
    ensures
        dot_free(p),
    decreases p.len(),
{
    if p.len() > 0 {
        let es = t->Mapping_0;
        let k = KeyModel::Text(p[0]);
        let j = key_index(es, k);
        lemma_key_index(es, k);
        assert(plain_key(es[j].0));
        assert(simple_keys(es[j].1));
        lemma_path_dot_free(es[j].1, p.drop_first());
        assert forall|a: int, b: int| 0 <= a < p.len() && 0 <= b < p[a].len() implies p[a][b]
            != separator() by {
            if a > 0 {
                assert(p[a] == p.drop_first()[a - 1]);
            } else {
                assert(es[j].0 == k);
                assert(p[0] == es[j].0->Text_0);
            }
        }
    }
}

/// A non-empty mapping with full branches has a leaf below it.
proof fn lemma_some_leaf_below(s: Tree)
    requires
        s is Mapping,
        s->Mapping_0.len() > 0,
        simple_keys(s),
        full_branches(s),
    ensures
        exists|q: Seq<Seq<char>>| q.len() > 0 && #[trigger] leads_to_leaf(s, q),
    decreases s,
{
    let es = s->Mapping_0;
    let k = es[0].0;
    assert(plain_key(k));
    lemma_key_index(es, k);
    assert(key_index(es, k) == 0);
    let sub = es[0].1;
    assert(KeyModel::Text(k->Text_0) == k);
    assert(decreases_to!(s => sub)) by {
        broadcast use vstd::seq::axiom_seq_index_decreases;
        assert(decreases_to!(es => es[0]));
    }
    if sub is Mapping {
        assert(simple_keys(sub));
        assert(full_branches(sub));
        lemma_some_leaf_below(sub);
        let q2 = choose|q: Seq<Seq<char>>| q.len() > 0 && #[trigger] leads_to_leaf(sub, q);
        let q = seq![k->Text_0] + q2;
        assert(q.drop_first() =~= q2);
        assert(leads_to_leaf(s, q));
    } else {
        let q = seq![k->Text_0];
        assert(q.drop_first() =~= Seq::<Seq<char>>::empty());
        assert(node_at(sub, q.drop_first()) == Some(Node::Leaf(sub)));
        assert(node_at(s, q) == node_at(sub, q.drop_first()));
        assert(leads_to_leaf(s, q));
    }
}

/// Below a mapping other than the root, a tree with full branches has a leaf.
proof fn lemma_branch_has_leaf(t: Tree, p: Seq<Seq<char>>)
    requires
        simple_keys(t),
        full_branches(t),
        p.len() > 0,
        node_at(t, p) == Some(Node::Branch),
    ensures
        exists|q: Seq<Seq<char>>| is_proper_prefix(p, q) && #[trigger] leads_to_leaf(t, q),
    decreases p.len(),
{
    let es = t->Mapping_0;
    let k = KeyModel::Text(p[0]);
    let j = key_index(es, k);
    lemma_key_index(es, k);
    let sub = es[j].1;
    assert(simple_keys(sub));
    assert(full_branches(sub));
    if p.len() == 1 {
        assert(p.drop_first() =~= Seq::<Seq<char>>::empty());
        lemma_some_leaf_below(sub);
        let q2 = choose|q: Seq<Seq<char>>| q.len() > 0 && #[trigger] leads_to_leaf(sub, q);
        let q = seq![p[0]] + q2;
        assert(q.drop_first() =~= q2);
        assert(leads_to_leaf(t, q));
        assert(q.take(1) =~= p);
    } else {
        lemma_branch_has_leaf(sub, p.drop_first());
        let q2 = choose|q: Seq<Seq<char>>| is_proper_prefix(p.drop_first(), q) && #[trigger] leads_to_leaf(sub, q);
        let q = seq![p[0]] + q2;
        assert(q.drop_first() =~= q2);
        assert(leads_to_leaf(t, q));
        assert(q.take(p.len() as int) =~= seq![p[0]] + q2.take(p.len() - 1));
        assert(p =~= seq![p[0]] + p.drop_first());
    }
}

/// Stepping through the first segment of a path.
proof fn lemma_node_at_cons(es: Seq<(KeyModel, Tree)>, s0: Seq<char>, rest: Seq<Seq<char>>)
    ensures
        node_at(Tree::Mapping(es), seq![s0] + rest) == if key_index(es, KeyModel::Text(s0)) >= 0 {
            node_at(es[key_index(es, KeyModel::Text(s0))].1, rest)
        } else {
            None
        },
{
    let p = seq![s0] + rest;
    assert(p[0] == s0);
    assert(p.drop_first() =~= rest);
}

/// Where the keys agree, so do the positions of the keys.
proof fn lemma_key_index_same_keys(a: Seq<(KeyModel, Tree)>, b: Seq<(KeyModel, Tree)>, k: KeyModel)
    requires
        a.len() == b.len(),
        forall|i: int| 0 <= i < a.len() ==> #[trigger] a[i].0 == b[i].0,
    ensures
        key_index(a, k) == key_index(b, k),
    decreases a.len(),
{
    if a.len() > 0 {
        lemma_key_index_same_keys(a.drop_last(), b.drop_last(), k);
    }
}

/// The facts that `simple_keys` states of a mapping's entries.
proof fn lemma_simple_keys_entries(es: Seq<(KeyModel, Tree)>)
    requires
        simple_keys(Tree::Mapping(es)),
    ensures
        forall|i: int| 0 <= i < es.len() ==> plain_key(#[trigger] es[i].0),
        forall|i: int, j: int| 0 <= i < j < es.len() ==> #[trigger] es[i].0 != #[trigger] es[j].0,
        forall|i: int| 0 <= i < es.len() ==> simple_keys(#[trigger] es[i].1),
{
    let t = Tree::Mapping(es);
    assert(t->Mapping_0 == es);
}

/// Replacing the value of an entry keeps the keys simple.
proof fn lemma_simple_update(es: Seq<(KeyModel, Tree)>, j: int, x: Tree)
    requires
        simple_keys(Tree::Mapping(es)),
        0 <= j < es.len(),
        simple_keys(x),
    ensures
        simple_keys(Tree::Mapping(es.update(j, (es[j].0, x)))),
{
    lemma_simple_keys_entries(es);
    let e2 = es.update(j, (es[j].0, x));
    assert forall|i: int| 0 <= i < e2.len() implies plain_key(#[trigger] e2[i].0) by {
        assert(plain_key(es[i].0));
    }
    assert forall|a: int, b: int| 0 <= a < b < e2.len() implies #[trigger] e2[a].0 != #[trigger] e2[b].0 by {
        assert(es[a].0 != es[b].0);
    }
    assert forall|i: int| 0 <= i < e2.len() implies simple_keys(#[trigger] e2[i].1) by {
        if i != j {
            assert(simple_keys(es[i].1));
        }
    }
}

/// Adding an entry under a new plain key keeps the keys simple.
proof fn lemma_simple_push(es: Seq<(KeyModel, Tree)>, k: KeyModel, x: Tree)
    requires
        simple_keys(Tree::Mapping(es)),
        plain_key(k),
        key_index(es, k) == -1,
        simple_keys(x),
    ensures
        simple_keys(Tree::Mapping(es.push((k, x)))),
{
    lemma_simple_keys_entries(es);
    let e2 = es.push((k, x));
    lemma_key_index(es, k);
    assert forall|i: int| 0 <= i < e2.len() implies plain_key(#[trigger] e2[i].0) by {
        if i < es.len() {
            assert(plain_key(es[i].0));
        }
    }
    assert forall|a: int, b: int| 0 <= a < b < e2.len() implies #[trigger] e2[a].0 != #[trigger] e2[b].0 by {
        if b < es.len() {
            assert(es[a].0 != es[b].0);
        }
    }
    assert forall|i: int| 0 <= i < e2.len() implies simple_keys(#[trigger] e2[i].1) by {
        if i < es.len() {
            assert(simple_keys(es[i].1));
        }
    }
}

/// A path that starts with the first segment of `segs` is above or at
/// `segs` exactly when the rest of it is above or at the rest of `segs`.
proof fn lemma_prefix_cons(segs: Seq<Seq<char>>, p: Seq<Seq<char>>)
    requires
        segs.len() > 0,
        p.len() > 0,
        p[0] == segs[0],
    ensures
        is_prefix(p, segs) <==> is_prefix(p.drop_first(), segs.drop_first()),
        is_proper_prefix(p, segs) <==> is_proper_prefix(p.drop_first(), segs.drop_first()),
        p == seq![p[0]] + p.drop_first(),
{
    let rest = segs.drop_first();
    assert(p =~= seq![p[0]] + p.drop_first());
    if p.len() <= segs.len() {
        assert(segs.take(p.len() as int) =~= seq![segs[0]] + rest.take(p.len() - 1));
        if segs.take(p.len() as int) == p {
            assert(rest.take(p.len() - 1) =~= p.drop_first());
        }
    }
}

/// The conditions under which `lemma_place` places a leaf.
pub open spec fn can_place(es: Seq<(KeyModel, Tree)>, segs: Seq<Seq<char>>, v: Tree) -> bool {
    &&& simple_keys(Tree::Mapping(es))
    &&& segs.len() >= 1
    &&& dot_free(segs)
    &&& !(v is Mapping)
    &&& forall|p: Seq<Seq<char>>| #[trigger] is_proper_prefix(p, segs) ==> !leads_to_leaf(Tree::Mapping(es), p)
    &&& node_at(Tree::Mapping(es), segs) is None
}

/// What holds once a leaf is placed: see `lemma_place`.
pub open spec fn placed_well(es: Seq<(KeyModel, Tree)>, segs: Seq<Seq<char>>, v: Tree, e2: Seq<(KeyModel, Tree)>) -> bool {
    &&& simple_keys(Tree::Mapping(e2))
    &&& node_at(Tree::Mapping(e2), segs) == Some(Node::Leaf(v))
    &&& forall|p: Seq<Seq<char>>| !is_prefix(p, segs) ==> #[trigger] node_at(Tree::Mapping(e2), p)
        == node_at(Tree::Mapping(es), p)
    &&& forall|p: Seq<Seq<char>>| is_proper_prefix(p, segs) ==> #[trigger] node_at(Tree::Mapping(e2), p)
        == Some(Node::Branch)
}

/// The first segment of `segs` holds no dot, nor do the others.
proof fn lemma_split_first(segs: Seq<Seq<char>>)
    requires
        segs.len() >= 1,
        dot_free(segs),
    ensures
        plain_key(KeyModel::Text(segs[0])),
        dot_free(segs.drop_first()),
        segs == seq![segs[0]] + segs.drop_first(),
{
    let rest = segs.drop_first();
    assert(segs =~= seq![segs[0]] + rest);
    assert forall|b: int| 0 <= b < segs[0].len() implies segs[0][b] != separator() by {}
    assert forall|a: int, b: int| 0 <= a < rest.len() && 0 <= b < rest[a].len() implies rest[a][b]
        != separator() by {
        assert(rest[a] == segs[a + 1]);
    }
}

/// Placing a leaf at a path that is free, and above which no leaf stands,
/// succeeds: the path then leads to the leaf, the paths above it to
/// mappings, and every other path where it led before.
proof fn lemma_place(es: Seq<(KeyModel, Tree)>, segs: Seq<Seq<char>>, v: Tree)
    requires
        can_place(es, segs, v),
    ensures
        place(es, segs, v) is Ok,
        placed_well(es, segs, v, place(es, segs, v)->Ok_0),
    decreases segs.len(), 1int,
{
    let k = KeyModel::Text(segs[0]);
    lemma_key_index(es, k);
    if key_index(es, k) >= 0 {
        lemma_place_below(es, segs, v);
    } else if segs.len() == 1 {
        lemma_place_new_leaf(es, segs, v);
    } else {
        lemma_place_new_branch(es, segs, v);
    }
}

/// `lemma_place` where the first segment is a key of the mapping already.
#[verifier::rlimit(40)]
proof fn lemma_place_below(es: Seq<(KeyModel, Tree)>, segs: Seq<Seq<char>>, v: Tree)
    requires
        can_place(es, segs, v),
        key_index(es, KeyModel::Text(segs[0])) >= 0,
    ensures
        place(es, segs, v) is Ok,
        placed_well(es, segs, v, place(es, segs, v)->Ok_0),
    decreases segs.len(), 0int,
{
    let m = Tree::Mapping(es);
    let s0 = segs[0];
    let k = KeyModel::Text(s0);
    let rest = segs.drop_first();
    let j = key_index(es, k);
    lemma_split_first(segs);
    lemma_key_index(es, k);
    lemma_simple_keys_entries(es);
    lemma_node_at_cons(es, s0, rest);
    let empty = Seq::<Seq<char>>::empty();
    let sub = es[j].1;
    assert(rest.len() > 0) by {
        if rest.len() == 0 {
            assert(node_at(sub, rest) is Some);
        }
    }
    let first = seq![s0];
    assert(is_proper_prefix(first, segs)) by {
        assert(segs.take(1) =~= first);
    }
    lemma_node_at_cons(es, s0, empty);
    assert(first + empty =~= first);
    assert(sub is Mapping);
    let inner = sub->Mapping_0;
    assert(simple_keys(sub));
    assert forall|p: Seq<Seq<char>>| #[trigger] is_proper_prefix(p, rest) implies !leads_to_leaf(sub, p) by {
        lemma_node_at_cons(es, s0, p);
        let full = seq![s0] + p;
        assert(full[0] == s0);
        assert(full.drop_first() =~= p);
        lemma_prefix_cons(segs, full);
        assert(is_proper_prefix(full, segs));
    }
    lemma_place(inner, rest, v);
    let placed = place(inner, rest, v)->Ok_0;
    let e2 = es.update(j, (k, Tree::Mapping(placed)));
    assert(place(es, segs, v) == Ok::<Seq<(KeyModel, Tree)>, Seq<char>>(e2));
    assert(es[j].0 == k);
    lemma_simple_update(es, j, Tree::Mapping(placed));
    assert forall|kk: KeyModel| #[trigger] key_index(e2, kk) == key_index(es, kk) by {
        lemma_key_index_same_keys(e2, es, kk);
    }
    let m2 = Tree::Mapping(e2);
    lemma_node_at_cons(e2, s0, rest);
    assert forall|p: Seq<Seq<char>>| !is_prefix(p, segs) implies #[trigger] node_at(m2, p) == node_at(m, p) by {
        if p.len() > 0 {
            let kp = KeyModel::Text(p[0]);
            lemma_key_index(es, kp);
            lemma_node_at_cons(es, p[0], p.drop_first());
            lemma_node_at_cons(e2, p[0], p.drop_first());
            assert(p =~= seq![p[0]] + p.drop_first());
            if p[0] == s0 {
                lemma_prefix_cons(segs, p);
            } else if key_index(es, kp) >= 0 {
                assert(es[key_index(es, kp)].0 == kp);
            }
        } else {
            assert(segs.take(0) =~= p);
        }
    }
    assert forall|p: Seq<Seq<char>>| is_proper_prefix(p, segs) implies #[trigger] node_at(m2, p) == Some(Node::Branch) by {
        if p.len() > 0 {
            assert(p[0] == segs.take(p.len() as int)[0]);
            lemma_node_at_cons(e2, p[0], p.drop_first());
            lemma_prefix_cons(segs, p);
            if p.len() == 1 {
                assert(p.drop_first() =~= empty);
            }
        }
    }
}

/// `lemma_place` where the path is one new key.
proof fn lemma_place_new_leaf(es: Seq<(KeyModel, Tree)>, segs: Seq<Seq<char>>, v: Tree)
    requires
        can_place(es, segs, v),
        key_index(es, KeyModel::Text(segs[0])) < 0,
        segs.len() == 1,
    ensures
        place(es, segs, v) is Ok,
        placed_well(es, segs, v, place(es, segs, v)->Ok_0),
    decreases segs.len(), 0int,
{
    let m = Tree::Mapping(es);
    let s0 = segs[0];
    let k = KeyModel::Text(s0);
    let rest = segs.drop_first();
    lemma_split_first(segs);
    lemma_key_index(es, k);
    let e2 = es.push((k, v));
    assert(place(es, segs, v) == Ok::<Seq<(KeyModel, Tree)>, Seq<char>>(e2));
    lemma_simple_push(es, k, v);
    let m2 = Tree::Mapping(e2);
    assert(e2.drop_last() =~= es);
    assert(key_index(e2, k) == es.len());
    lemma_node_at_cons(e2, s0, rest);
    assert forall|p: Seq<Seq<char>>| !is_prefix(p, segs) implies #[trigger] node_at(m2, p) == node_at(m, p) by {
        if p.len() > 0 {
            let kp = KeyModel::Text(p[0]);
            lemma_key_index(es, kp);
            lemma_node_at_cons(es, p[0], p.drop_first());
            lemma_node_at_cons(e2, p[0], p.drop_first());
            assert(p =~= seq![p[0]] + p.drop_first());
            if p[0] == s0 {
                assert(p.len() > 1) by {
                    if p.len() == 1 {
                        assert(segs.take(1) =~= p);
                    }
                }
            } else if key_index(es, kp) >= 0 {
                assert(e2[key_index(es, kp)] == es[key_index(es, kp)]);
            }
        } else {
            assert(segs.take(0) =~= p);
        }
    }
}

/// `lemma_place` where the path starts with a new key and goes further.
#[verifier::rlimit(40)]
proof fn lemma_place_new_branch(es: Seq<(KeyModel, Tree)>, segs: Seq<Seq<char>>, v: Tree)
    requires
        can_place(es, segs, v),
        key_index(es, KeyModel::Text(segs[0])) < 0,
        segs.len() > 1,
    ensures
        place(es, segs, v) is Ok,
        placed_well(es, segs, v, place(es, segs, v)->Ok_0),
    decreases segs.len(), 0int,
{
    let m = Tree::Mapping(es);
    let s0 = segs[0];
    let k = KeyModel::Text(s0);
    let rest = segs.drop_first();
    lemma_split_first(segs);
    lemma_key_index(es, k);
    let empty = Seq::<Seq<char>>::empty();
    let none = Seq::<(KeyModel, Tree)>::empty();
    assert(simple_keys(Tree::Mapping(none)));
    assert forall|p: Seq<Seq<char>>| #[trigger] is_proper_prefix(p, rest) implies !leads_to_leaf(Tree::Mapping(none), p) by {
        if p.len() > 0 {
            assert(key_index(none, KeyModel::Text(p[0])) == -1);
        }
    }
    assert(key_index(none, KeyModel::Text(rest[0])) == -1);
    lemma_place(none, rest, v);
    let placed = place(none, rest, v)->Ok_0;
    let e2 = es.push((k, Tree::Mapping(placed)));
    assert(place(es, segs, v) == Ok::<Seq<(KeyModel, Tree)>, Seq<char>>(e2));
    lemma_simple_push(es, k, Tree::Mapping(placed));
    let m2 = Tree::Mapping(e2);
    assert(e2.drop_last() =~= es);
    assert(key_index(e2, k) == es.len());
    lemma_node_at_cons(e2, s0, rest);
    assert forall|p: Seq<Seq<char>>| !is_prefix(p, segs) implies #[trigger] node_at(m2, p) == node_at(m, p) by {
        if p.len() > 0 {
            let kp = KeyModel::Text(p[0]);
            lemma_key_index(es, kp);
            lemma_node_at_cons(es, p[0], p.drop_first());
            lemma_node_at_cons(e2, p[0], p.drop_first());
            assert(p =~= seq![p[0]] + p.drop_first());
            if p[0] == s0 {
                lemma_prefix_cons(segs, p);
                assert(p.drop_first().len() > 0) by {
                    if p.drop_first().len() == 0 {
                        assert(rest.take(0) =~= p.drop_first());
                    }
                }
                assert(key_index(none, KeyModel::Text(p.drop_first()[0])) == -1);
            } else if key_index(es, kp) >= 0 {
                assert(e2[key_index(es, kp)] == es[key_index(es, kp)]);
            }
        } else {
            assert(segs.take(0) =~= p);
        }
    }
    assert forall|p: Seq<Seq<char>>| is_proper_prefix(p, segs) implies #[trigger] node_at(m2, p) == Some(Node::Branch) by {
        if p.len() > 0 {
            assert(p[0] == segs.take(p.len() as int)[0]);
            lemma_node_at_cons(e2, p[0], p.drop_first());
            lemma_prefix_cons(segs, p);
            if p.len() == 1 {
                assert(p.drop_first() =~= empty);
            }
        }
    }
}

/// The paths of the pairs, split into segments.
pub open spec fn pair_segments(pairs: Seq<(Seq<char>, Tree)>, i: int) -> Seq<Seq<char>> {
    split_segments(pairs[i].0)
}

/// No value is a mapping, and no path is another's or above it.
pub open spec fn pairs_apart(pairs: Seq<(Seq<char>, Tree)>) -> bool {
    &&& forall|i: int| 0 <= i < pairs.len() ==> !(#[trigger] pairs[i].1 is Mapping)
    &&& forall|i: int, j: int|
        0 <= i < pairs.len() && 0 <= j < pairs.len() && i != j ==> !is_prefix(
            #[trigger] pair_segments(pairs, i),
            #[trigger] pair_segments(pairs, j),
        )
}

/// Rebuilding from the first `m` of such pairs succeeds, and each path
/// leads to its value, the paths above them to mappings, nothing else
/// anywhere.
proof fn lemma_unflatten_apart(pairs: Seq<(Seq<char>, Tree)>, m: int)
    requires
        0 <= m <= pairs.len(),
        pairs_apart(pairs),
    ensures
        unflatten_model(pairs.take(m)) is Ok,
        ({
            let u = Tree::Mapping(unflatten_model(pairs.take(m))->Ok_0);
            &&& simple_keys(u)
            &&& forall|i: int| 0 <= i < m ==> #[trigger] node_at(u, pair_segments(pairs, i)) == Some(
                Node::Leaf(pairs[i].1),
            )
            &&& forall|p: Seq<Seq<char>>| #[trigger] node_at(u, p) == Some(Node::Branch) ==> p.len() == 0
                || exists|i: int| 0 <= i < m && is_proper_prefix(p, #[trigger] pair_segments(pairs, i))
            &&& forall|p: Seq<Seq<char>>| #[trigger] leads_to_leaf(u, p) ==> exists|i: int|
                0 <= i < m && p == #[trigger] pair_segments(pairs, i)
        }),
    decreases m,
{
    if m == 0 {
        let none = Seq::<(KeyModel, Tree)>::empty();
        assert(pairs.take(0) =~= Seq::<(Seq<char>, Tree)>::empty());
        let u = Tree::Mapping(none);
        assert forall|p: Seq<Seq<char>>| #[trigger] node_at(u, p) is Some implies p.len() == 0 by {
            if p.len() > 0 {
                assert(key_index(none, KeyModel::Text(p[0])) == -1);
            }
        }
    } else {
        lemma_unflatten_apart(pairs, m - 1);
        let es = unflatten_model(pairs.take(m - 1))->Ok_0;
        let u = Tree::Mapping(es);
        let segs = pair_segments(pairs, m - 1);
        let v = pairs[m - 1].1;
        lemma_split_nonempty(pairs[m - 1].0);
        lemma_split_dot_free(pairs[m - 1].0);
        assert forall|p: Seq<Seq<char>>| #[trigger] is_proper_prefix(p, segs) implies !leads_to_leaf(u, p) by {
            if leads_to_leaf(u, p) {
                let i = choose|i: int| 0 <= i < m - 1 && p == #[trigger] pair_segments(pairs, i);
                assert(!is_prefix(pair_segments(pairs, i), pair_segments(pairs, m - 1)));
            }
        }
        assert(node_at(u, segs) is None) by {
            if node_at(u, segs) is Some {
                if leads_to_leaf(u, segs) {
                    let i = choose|i: int| 0 <= i < m - 1 && segs == #[trigger] pair_segments(pairs, i);
                    assert(!is_prefix(pair_segments(pairs, i), pair_segments(pairs, m - 1)));
                    assert(segs.take(segs.len() as int) =~= segs);
                } else {
                    let i = choose|i: int| 0 <= i < m - 1 && is_proper_prefix(segs, #[trigger] pair_segments(pairs, i));
                    assert(!is_prefix(pair_segments(pairs, m - 1), pair_segments(pairs, i)));
                }
            }
        }
        assert(can_place(es, segs, v));
        lemma_place(es, segs, v);
        let e2 = place(es, segs, v)->Ok_0;
        let u2 = Tree::Mapping(e2);
        assert(pairs.take(m).drop_last() =~= pairs.take(m - 1));
        assert(pairs.take(m).last() == pairs[m - 1]);
        assert(unflatten_model(pairs.take(m)) == Ok::<Seq<(KeyModel, Tree)>, (Seq<char>, Seq<char>)>(e2));
        assert forall|i: int| 0 <= i < m implies #[trigger] node_at(u2, pair_segments(pairs, i)) == Some(
            Node::Leaf(pairs[i].1),
        ) by {
            if i < m - 1 {
                assert(!is_prefix(pair_segments(pairs, i), pair_segments(pairs, m - 1)));
                assert(node_at(u, pair_segments(pairs, i)) == Some(Node::Leaf(pairs[i].1)));
            }
        }
        assert forall|p: Seq<Seq<char>>| #[trigger] node_at(u2, p) == Some(Node::Branch) implies p.len() == 0
            || exists|i: int| 0 <= i < m && is_proper_prefix(p, #[trigger] pair_segments(pairs, i)) by {
            if is_proper_prefix(p, segs) {
                assert(is_proper_prefix(p, pair_segments(pairs, m - 1)));
            } else if is_prefix(p, segs) {
                assert(p.len() == segs.len());
                assert(segs.take(p.len() as int) =~= segs);
            } else {
                assert(node_at(u, p) == Some(Node::Branch));
            }
        }
        assert forall|p: Seq<Seq<char>>| #[trigger] leads_to_leaf(u2, p) implies exists|i: int|
            0 <= i < m && p == #[trigger] pair_segments(pairs, i) by {
            if is_proper_prefix(p, segs) {
            } else if is_prefix(p, segs) {
                assert(p.len() == segs.len());
                assert(segs.take(p.len() as int) =~= segs);
                assert(p == pair_segments(pairs, m - 1));
            } else {
                assert(leads_to_leaf(u, p));
                let i = choose|i: int| 0 <= i < m - 1 && p == #[trigger] pair_segments(pairs, i);
                assert(p == pair_segments(pairs, i));
            }
        }
    }
}

/// Rebuilding what `flatten` yields gives the tree back, up to the order of
/// the entries within each mapping. This holds of a tree that is a mapping,
/// whose keys are strings without dots, each at most once per mapping, and
/// whose inner mappings are not empty: other trees lose their key kinds,
/// their dotted keys or their empty mappings on the way.
pub proof fn law_round_trip(t: Tree, flat: Seq<(String, Value)>)
    requires
        t is Mapping,
        simple_keys(t),
        full_branches(t),
        paths_ascending(flat),
        to_map(entry_views(flat)) == flatten_model(t),
    ensures
        unflatten_tree(entry_views(flat)) is Ok,
        simple_keys(unflatten_tree(entry_views(flat))->Ok_0),
        same_tree(unflatten_tree(entry_views(flat))->Ok_0, t),
{
    let pairs = entry_views(flat);
    lemma_ascending_distinct(flat);
    lemma_to_map_distinct(pairs);
    lemma_flatten_leaf_paths(t);
    assert forall|i: int| 0 <= i < pairs.len() implies #[trigger] node_at(t, pair_segments(pairs, i))
        == Some(Node::Leaf(pairs[i].1)) by {
        assert(to_map(pairs)[pairs[i].0] == pairs[i].1);
        assert(flatten_model(t).contains_key(pairs[i].0));
    }
    assert forall|i: int| 0 <= i < pairs.len() implies !(#[trigger] pairs[i].1 is Mapping) by {
        assert(node_at(t, pair_segments(pairs, i)) == Some(Node::Leaf(pairs[i].1)));
        lemma_leaf_not_mapping(t, pair_segments(pairs, i));
    }
    assert forall|i: int, j: int|
        0 <= i < pairs.len() && 0 <= j < pairs.len() && i != j implies !is_prefix(
        #[trigger] pair_segments(pairs, i),
        #[trigger] pair_segments(pairs, j),
    ) by {
        let a = pair_segments(pairs, i);
        let b = pair_segments(pairs, j);
        if is_prefix(a, b) {
            assert(node_at(t, a) == Some(Node::Leaf(pairs[i].1)));
            assert(node_at(t, b) == Some(Node::Leaf(pairs[j].1)));
            if a.len() == b.len() {
                assert(b.take(b.len() as int) =~= b);
                lemma_join_split(pairs[i].0);
                lemma_join_split(pairs[j].0);
                if i < j {
                    assert(pairs[i].0 != pairs[j].0);
                } else {
                    assert(pairs[j].0 != pairs[i].0);
                }
            } else {
                let r = b.skip(a.len() as int);
                assert(a + r =~= b);
                lemma_above_is_branch(t, a, r);
            }
        }
    }
    assert(pairs_apart(pairs));
    lemma_unflatten_apart(pairs, pairs.len() as int);
    assert(pairs.take(pairs.len() as int) =~= pairs);
    let u = Tree::Mapping(unflatten_model(pairs)->Ok_0);
    assert(unflatten_tree(pairs) == Ok::<Tree, (Seq<char>, Seq<char>)>(u));
    assert forall|p: Seq<Seq<char>>| #[trigger] node_at(u, p) == node_at(t, p) by {
        if leads_to_leaf(t, p) {
            lemma_path_dot_free(t, p);
            lemma_split_join(p);
            let k = join_segments(p);
            assert(flatten_model(t).contains_key(k));
            let i = choose|i: int| 0 <= i < pairs.len() && pairs[i].0 == k;
            assert(pair_segments(pairs, i) == p);
        } else if leads_to_leaf(u, p) {
            let i = choose|i: int| 0 <= i < pairs.len() && p == #[trigger] pair_segments(pairs, i);
            assert(node_at(t, pair_segments(pairs, i)) == Some(Node::Leaf(pairs[i].1)));
        } else if node_at(t, p) == Some(Node::Branch) {
            if p.len() > 0 {
                lemma_branch_has_leaf(t, p);
                let q = choose|q: Seq<Seq<char>>| is_proper_prefix(p, q) && #[trigger] leads_to_leaf(t, q);
                lemma_path_dot_free(t, q);
                lemma_split_join(q);
                let k = join_segments(q);
                assert(flatten_model(t).contains_key(k));
                let i = choose|i: int| 0 <= i < pairs.len() && pairs[i].0 == k;
                assert(pair_segments(pairs, i) == q);
                let r = q.skip(p.len() as int);
                assert(p + r =~= q);
                lemma_above_is_branch(u, p, r);
            }
        } else if node_at(u, p) == Some(Node::Branch) {
            if p.len() > 0 {
                let i = choose|i: int| 0 <= i < pairs.len() && is_proper_prefix(p, #[trigger] pair_segments(pairs, i));
                let q = pair_segments(pairs, i);
                let r = q.skip(p.len() as int);
                assert(p + r =~= q);
                lemma_above_is_branch(t, p, r);
            }
        }
    }
}

} // verus!
