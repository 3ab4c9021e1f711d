//! `flatten` and `unflatten`: the conversions between nested YAML trees and
//! flat mappings from dot-joined paths to values.

use vstd::prelude::*;
use crate::flat::{entry_views, insert_all, insert_entry, lemma_insert_all_concat, paths_ascending, to_map};
use crate::path::{join_path, join_segments, lemma_split_nonempty, split_path, split_segments, string_views};
use crate::tree::{entries_view, lemma_entries_view, lemma_views_of_entries, number_text, number_to_text, views_of_entries, Key, KeyModel, Tree, Value};

verus! {

/// The path segment that a mapping key stands for.
pub open spec fn key_segment(k: KeyModel) -> Seq<char> {
    match k {
        KeyModel::Bool(b) => if b {
            seq!['t', 'r', 'u', 'e']
        } else {
            seq!['f', 'a', 'l', 's', 'e']
        },
        KeyModel::Number(n) => number_text(n),
        KeyModel::Text(s) => s,
    }
}

/// The leaves of `t`, depth first and in the order of each mapping, each
/// with its path below `path`. A leaf at the root has no path and is left out.
pub open spec fn leaves(t: Tree, path: Seq<Seq<char>>) -> Seq<(Seq<char>, Tree)>
    decreases t, 0int,
{
    match t {
        Tree::Mapping(es) => leaves_of_entries(es, path, es.len() as int),
        _ => if path.len() > 0 {
            seq![(join_segments(path), t)]
        } else {
            Seq::empty()
        },
    }
}

/// The leaves below the first `n` entries of a mapping at `path`.
pub open spec fn leaves_of_entries(es: Seq<(KeyModel, Tree)>, path: Seq<Seq<char>>, n: int) -> Seq<
    (Seq<char>, Tree),
>
    decreases es, n,
{
    if n <= 0 || n > es.len() {
        Seq::empty()
    } else {
        leaves_of_entries(es, path, n - 1) + leaves(es[n - 1].1, path.push(key_segment(es[n - 1].0)))
    }
}

/// What `flatten` returns, as a map from paths to values: each leaf under
/// its path, a later leaf replacing an earlier one with the same path.
pub open spec fn flatten_model(t: Tree) -> Map<Seq<char>, Tree> {
    to_map(leaves(t, Seq::empty()))
}

/// Flattens `input`: each leaf (a scalar or a sequence) reachable through
/// mappings appears once, under the dot-joined keys that lead to it. Paths
/// come in ascending order; where two leaves share a path, the one met later
/// in the walk wins.
pub fn flatten(input: Value) -> (r: Vec<(String, Value)>)
    ensures
        paths_ascending(r@),
        to_map(entry_views(r@)) == flatten_model(input@),
{
    let mut output: Vec<(String, Value)> = Vec::new();
    let mut path: Vec<String> = Vec::new();
    proof {
        assert(string_views(path@) =~= Seq::<Seq<char>>::empty());
        assert(entry_views(output@) =~= Seq::<(Seq<char>, Tree)>::empty());
    }
    flatten_into(&mut output, &mut path, input);
    output
}

/// The text of a mapping key as a path segment.
fn key_to_segment(key: Key) -> (r: String)
    ensures
        r@ == key_segment(key@),
{
    match key {
        Key::Bool(b) => {
            proof {
                reveal_strlit("true");
                reveal_strlit("false");
            }
            if b {
                String::from_str("true")
            } else {
                String::from_str("false")
            }
        },
        Key::Number(n) => number_to_text(&n),
        Key::String(s) => s,
    }
}

/// Adds the leaves of `input` below `path` to `output`.
fn flatten_into(output: &mut Vec<(String, Value)>, path: &mut Vec<String>, input: Value)
    requires
        paths_ascending(old(output)@),
    ensures
        paths_ascending(final(output)@),
        final(path)@ == old(path)@,
        to_map(entry_views(final(output)@)) == insert_all(
            to_map(entry_views(old(output)@)),
            leaves(input@, string_views(old(path)@)),
        ),
    decreases input,
{
    let ghost t = input@;
    let ghost path0 = path@;
    match input {
        Value::Mapping(entries) => {
            let ghost es = entries@;
            let ghost p = string_views(path@);
            let ghost m0 = to_map(entry_views(output@));
            let ghost pairs = t->Mapping_0;
            assert(pairs == views_of_entries(es, es.len() as int));
            proof {
                lemma_views_of_entries(es, es.len() as int);
                broadcast use vstd::std_specs::vec::axiom_vec_decreases_to_view;
                assert(decreases_to!(input => entries));
                assert(decreases_to!(entries => es));
                assert(decreases_to!(input => es));
            }
            for entry in it: entries.into_iter()
                invariant
                    it.seq() == es,
                    decreases_to!(input => es),
                    t == Tree::Mapping(pairs),
                    pairs == views_of_entries(es, es.len() as int),
                    paths_ascending(output@),
                    path@ == path0,
                    old(path)@ == path0,
                    p == string_views(path0),
                    to_map(entry_views(output@)) == insert_all(
                        m0,
                        leaves_of_entries(pairs, p, it.index() as int),
                    ),
            {
                let ghost i = it.index() as int;
                proof {
                    lemma_views_of_entries(es, es.len() as int);
                }
                assert(entry == es[i]);
                let (key, value) = entry;
                let segment = key_to_segment(key);
                path.push(segment);
                assert(string_views(path@) =~= p.push(key_segment(pairs[i].0)));
                proof {
                    broadcast use vstd::std_specs::vec::axiom_vec_decreases_to_view,
                        vstd::seq::axiom_seq_index_decreases;
                    assert(decreases_to!(es => es[i]));
                    assert(decreases_to!(es[i] => es[i].1));
                    assert(value == es[i].1);
                    assert(decreases_to!(input => value));
                }
                flatten_into(output, path, value);
                path.pop();
                proof {
                    assert(path@ =~= path0);
                    lemma_insert_all_concat(
                        m0,
                        leaves_of_entries(pairs, p, i),
                        leaves(pairs[i].1, p.push(key_segment(pairs[i].0))),
                    );
                }
            }
        },
        _ => {
            if path.len() > 0 {
                let full_path = join_path(path);
                insert_entry(output, full_path, input);
                proof {
                    assert(leaves(t, string_views(path@)) == seq![(join_segments(string_views(path@)), t)]);
                    reveal_with_fuel(insert_all, 2);
                }
            } else {
                proof {
                    assert(leaves(t, string_views(path@)) =~= Seq::<(Seq<char>, Tree)>::empty());
                }
            }
        },
    }
}

/// The errors of `unflatten`.
#[derive(Debug, PartialEq, Eq, Clone)]
pub enum Error {
    /// Two paths claim one place: while placing `key`, the segment `token`
    /// already held a value, or a leaf where `key` had to go further.
    DuplicateValue { key: String, token: String },
}

impl Error {
    /// A sentence that describes the error.
    pub fn message(&self) -> (r: String)
        ensures
            match self {
                Error::DuplicateValue { key, token } => r@ == "while handling key '"@ + key@
                    + "', found a token '"@ + token@ + "' that has at least 2 values"@,
            },
    {
        match self {
            Error::DuplicateValue { key, token } => {
                let mut out = String::from_str("while handling key '");
                out.append(key.as_str());
                out.append("', found a token '");
                out.append(token.as_str());
                out.append("' that has at least 2 values");
                out
            },
        }
    }
}

/// The index of the first entry under `k`, or -1 where there is none.
pub open spec fn key_index(es: Seq<(KeyModel, Tree)>, k: KeyModel) -> int
    decreases es.len(),
{
    if es.len() == 0 {
        -1
    } else {
        let j = key_index(es.drop_last(), k);
        if j >= 0 {
            j
        } else if es.last().0 == k {
            es.len() - 1
        } else {
            -1
        }
    }
}

pub proof fn lemma_key_index(es: Seq<(KeyModel, Tree)>, k: KeyModel)
    ensures
        -1 <= key_index(es, k) < es.len(),
        key_index(es, k) >= 0 ==> es[key_index(es, k)].0 == k,
        key_index(es, k) >= 0 ==> forall|i: int| 0 <= i < key_index(es, k) ==> es[i].0 != k,
        key_index(es, k) == -1 ==> forall|i: int| 0 <= i < es.len() ==> es[i].0 != k,
    decreases es.len(),
{
    if es.len() > 0 {
        let p = es.drop_last();
        lemma_key_index(p, k);
        assert forall|i: int| 0 <= i < p.len() implies p[i] == es[i] by {}
    }
}

/// The entries after the value `v` is placed at the path `segs`; on a
/// conflict, the segment where it was found.
pub open spec fn place(es: Seq<(KeyModel, Tree)>, segs: Seq<Seq<char>>, v: Tree) -> Result<
    Seq<(KeyModel, Tree)>,
    Seq<char>,
>
    decreases segs.len(),
{
    if segs.len() == 0 {
        Ok(es)
    } else {
        let k = KeyModel::Text(segs[0]);
        let j = key_index(es, k);
        if j >= 0 {
            if segs.len() == 1 {
                Err(segs[0])
            } else {
                match es[j].1 {
                    Tree::Mapping(inner) => match place(inner, segs.drop_first(), v) {
                        Ok(placed) => Ok(es.update(j, (k, Tree::Mapping(placed)))),
                        Err(t) => Err(t),
                    },
                    _ => Err(segs[0]),
                }
            }
        } else if segs.len() == 1 {
            Ok(es.push((k, v)))
        } else {
            match place(Seq::empty(), segs.drop_first(), v) {
                Ok(placed) => Ok(es.push((k, Tree::Mapping(placed)))),
                Err(t) => Err(t),
            }
        }
    }
}

/// What `unflatten` returns for the pairs, taken in order: the tree, or the
/// key and the segment of the first conflict.
pub open spec fn unflatten_model(pairs: Seq<(Seq<char>, Tree)>) -> Result<
    Seq<(KeyModel, Tree)>,
    (Seq<char>, Seq<char>),
>
    decreases pairs.len(),
{
    if pairs.len() == 0 {
        Ok(Seq::empty())
    } else {
        match unflatten_model(pairs.drop_last()) {
            Ok(es) => match place(es, split_segments(pairs.last().0), pairs.last().1) {
                Ok(placed) => Ok(placed),
                Err(t) => Err((pairs.last().0, t)),
            },
            Err(e) => Err(e),
        }
    }
}

/// Once a prefix of the pairs fails, every longer prefix fails the same way.
pub proof fn lemma_unflatten_error_stays(pairs: Seq<(Seq<char>, Tree)>, m: int, n: int)
    requires
        0 <= m <= n <= pairs.len(),
        unflatten_model(pairs.take(m)) is Err,
    ensures
        unflatten_model(pairs.take(n)) == unflatten_model(pairs.take(m)),
    decreases n - m,
{
    if m < n {
        lemma_unflatten_error_stays(pairs, m, n - 1);
        assert(pairs.take(n).drop_last() =~= pairs.take(n - 1));
    }
}

/// The model of what `unflatten` returns.
pub open spec fn unflatten_result_view(r: Result<Value, Error>) -> Result<Tree, (Seq<char>, Seq<char>)> {
    match r {
        Ok(v) => Ok(v@),
        Err(Error::DuplicateValue { key, token }) => Err((key@, token@)),
    }
}

/// `unflatten_model` with the entries wrapped as a mapping.
pub open spec fn unflatten_tree(pairs: Seq<(Seq<char>, Tree)>) -> Result<Tree, (Seq<char>, Seq<char>)> {
    match unflatten_model(pairs) {
        Ok(es) => Ok(Tree::Mapping(es)),
        Err(e) => Err(e),
    }
}

/// Rebuilds a tree from `(path, value)` pairs, taken in order: each path is
/// split at its dots and the value placed at the end of it, creating the
/// mappings on the way. A path whose place, or one of whose prefixes, already
/// holds a leaf, or whose place already holds anything, gives
/// `DuplicateValue` with that path and the segment where the conflict was met.
pub fn unflatten(input: Vec<(String, Value)>) -> (r: Result<Value, Error>)
    ensures
        unflatten_result_view(r) == unflatten_tree(entry_views(input@)),
{
    let ghost input0 = input@;
    let ghost pairs = entry_views(input0);
    let mut mapping: Vec<(Key, Value)> = Vec::new();
    proof {
        assert(pairs.take(0) =~= Seq::<(Seq<char>, Tree)>::empty());
        assert(entries_view(mapping@) =~= Seq::<(KeyModel, Tree)>::empty());
    }
    for entry in it: input.into_iter()
        invariant
            it.seq() == input0,
            pairs == entry_views(input0),
            unflatten_model(pairs.take(it.index() as int)) == Ok::<
                Seq<(KeyModel, Tree)>,
                (Seq<char>, Seq<char>),
            >(entries_view(mapping@)),
    {
        let ghost i = it.index() as int;
        assert(entry == input0[i]);
        let (key, value) = entry;
        let segs = split_path(key.as_str());
        proof {
            lemma_split_nonempty(key@);
            assert(string_views(segs@).skip(0) =~= split_segments(key@));
            assert(pairs.take(i + 1).drop_last() =~= pairs.take(i));
            assert(pairs.take(i + 1).last() == pairs[i]);
            assert(pairs[i] == (key@, value@));
        }
        match place_value(&mut mapping, &segs, 0, value) {
            Ok(()) => {},
            Err(t) => {
                let token = segs[t].clone();
                proof {
                    lemma_unflatten_error_stays(pairs, i + 1, pairs.len() as int);
                    assert(pairs.take(pairs.len() as int) =~= pairs);
                }
                return Err(Error::DuplicateValue { key, token });
            },
        }
    }
    proof {
        assert(pairs.take(input0.len() as int) =~= pairs);
    }
    Ok(Value::Mapping(mapping))
}

/// The index of the entry whose key is the string `seg`.
fn find_segment(es: &Vec<(Key, Value)>, seg: &String) -> (r: Option<usize>)
    ensures
        match r {
            Some(j) => key_index(entries_view(es@), KeyModel::Text(seg@)) == j,
            None => key_index(entries_view(es@), KeyModel::Text(seg@)) == -1,
        },
{
    let ghost k = KeyModel::Text(seg@);
    proof {
        lemma_entries_view(es@);
        lemma_key_index(entries_view(es@), k);
    }
    let mut j: usize = 0;
    while j < es.len()
        invariant
            j <= es.len(),
            k == KeyModel::Text(seg@),
            entries_view(es@).len() == es.len(),
            forall|i: int| 0 <= i < es.len() ==> #[trigger] entries_view(es@)[i] == (es@[i].0@, es@[i].1@),
            -1 <= key_index(entries_view(es@), k) < es.len(),
            key_index(entries_view(es@), k) >= 0 ==> entries_view(es@)[key_index(entries_view(es@), k)].0 == k,
            key_index(entries_view(es@), k) >= 0 ==> forall|i: int| 0 <= i < key_index(entries_view(es@), k) ==> entries_view(es@)[i].0 != k,
            key_index(entries_view(es@), k) == -1 ==> forall|i: int| 0 <= i < es.len() ==> entries_view(es@)[i].0 != k,
            forall|i: int| 0 <= i < j ==> entries_view(es@)[i].0 != k,
        decreases es.len() - j,
    {
        assert(entries_view(es@)[j as int] == (es@[j as int].0@, es@[j as int].1@));
        match &es[j].0 {
            Key::String(s) => {
                assert(es@[j as int].0@ == KeyModel::Text(s@));
                if s.eq(seg) {
                    assert(entries_view(es@)[j as int].0 == k);
                    return Some(j);
                }
            },
            _ => {},
        }
        j = j + 1;
    }
    None
}

/// Places `value` at the path `segs[i..]` below the mapping `es`; on a
/// conflict, returns the index of the segment where it was found.
fn place_value(es: &mut Vec<(Key, Value)>, segs: &Vec<String>, i: usize, value: Value) -> (r: Result<(), usize>)
    requires
        i < segs.len(),
    ensures
        match place(entries_view(old(es)@), string_views(segs@).skip(i as int), value@) {
            Ok(placed) => r is Ok && entries_view(final(es)@) == placed,
            Err(t) => r is Err && i <= r->Err_0 < segs.len() && segs@[r->Err_0 as int]@ == t,
        },
    decreases segs.len() - i,
{
    let ghost rest = string_views(segs@).skip(i as int);
    let ghost e0 = entries_view(es@);
    let ghost k = KeyModel::Text(segs@[i as int]@);
    proof {
        assert(rest[0] == segs@[i as int]@);
        assert(rest.drop_first() =~= string_views(segs@).skip(i + 1));
        lemma_entries_view(es@);
    }
    let last = i + 1 == segs.len();
    match find_segment(es, &segs[i]) {
        Some(j) => {
            if last {
                return Err(i);
            }
            proof {
                lemma_key_index(e0, k);
            }
            let ghost old_es = es@;
            match &mut es[j].1 {
                Value::Mapping(inner) => {
                    let ghost before = *inner;
                    let r = place_value(inner, segs, i + 1, value);
                    let ghost after = *inner;
                    proof {
                        assert(old_es[j as int].1 == Value::Mapping(before));
                        assert(es@ =~= old_es.update(j as int, (old_es[j as int].0, Value::Mapping(after))));
                        lemma_entries_view(es@);
                        assert(entries_view(es@) =~= e0.update(
                            j as int,
                            (k, Tree::Mapping(entries_view(after@))),
                        ));
                    }
                    r
                },
                _ => Err(i),
            }
        },
        None => {
            let key = Key::String(segs[i].clone());
            if last {
                es.push((key, value));
                proof {
                    lemma_entries_view(es@);
                    assert(entries_view(es@) =~= e0.push((k, value@)));
                }
                Ok(())
            } else {
                let mut inner: Vec<(Key, Value)> = Vec::new();
                proof {
                    assert(entries_view(inner@) =~= Seq::<(KeyModel, Tree)>::empty());
                }
                match place_value(&mut inner, segs, i + 1, value) {
                    Ok(()) => {
                        let ghost placed = entries_view(inner@);
                        es.push((key, Value::Mapping(inner)));
                        proof {
                            lemma_entries_view(es@);
                            assert(entries_view(es@) =~= e0.push((k, Tree::Mapping(placed))));
                        }
                        Ok(())
                    },
                    Err(t) => Err(t),
                }
            }
        },
    }
}

} // verus!
