use vstd::multiset::Multiset;
use vstd::prelude::*;

use crate::diff::{
    below_level, child_path, classify, concat, descends, diff, diff_of, left_level, no_paths,
    right_level, Buckets, KeyClass,
};
use crate::document::{document_root, lemma_document_root_wf, parsed_yaml};
use crate::value::{
    first_index, has_key, is_first_index, keys_unique, lemma_tree_eq_reflexive,
    lemma_tree_eq_symmetric,
    lemma_tree_eq_transitive, lemma_unique_has_key, lemma_unique_lookup, tree_eq, tree_wf, value_at,
    Entries, Tree,
};

verus! {

broadcast use {
    vstd::seq_lib::group_to_multiset_ensures,
    vstd::seq_lib::lemma_multiset_commutative,
    vstd::multiset::group_multiset_axioms,
};

/// The paths of the first `n` keys of `xs` below `prefix`, in order.
pub open spec fn key_paths(prefix: Seq<char>, xs: Entries, n: nat) -> Seq<Seq<char>>
    decreases n,
{
    if n == 0 {
        Seq::empty()
    } else {
        key_paths(prefix, xs, (n - 1) as nat).push(child_path(prefix, xs[n - 1].0))
    }
}

/// The paths of the keys among the first `n` of `xs` that are compared one
/// level down.
pub open spec fn descended_paths(prefix: Seq<char>, xs: Entries, ys: Entries, n: nat) -> Seq<
    Seq<char>,
>
    decreases n,
{
    if n == 0 {
        Seq::empty()
    } else {
        let prev = descended_paths(prefix, xs, ys, (n - 1) as nat);
        if descends(xs, ys, xs[n - 1].0, xs[n - 1].1) {
            prev.push(child_path(prefix, xs[n - 1].0))
        } else {
            prev
        }
    }
}

/// Where the level classification of the first `n` keys of `xs` puts their
/// paths: `left_only`, `same`, `changed` and the keys compared one level
/// down, all together.
pub open spec fn placed_at_level(prefix: Seq<char>, xs: Entries, ys: Entries, n: nat) -> Multiset<
    Seq<char>,
> {
    let lv = left_level(prefix, xs, ys, n);
    lv.left_only.to_multiset().add(lv.same.to_multiset()).add(lv.changed.to_multiset()).add(
        descended_paths(prefix, xs, ys, n).to_multiset(),
    )
}

/// Distinct keys have distinct paths below the same prefix.
pub proof fn lemma_child_path_injective(prefix: Seq<char>, k1: Seq<char>, k2: Seq<char>)
    requires
        child_path(prefix, k1) == child_path(prefix, k2),
    ensures
        k1 == k2,
{
    let n = prefix.len() + 1;
    assert(k1.len() == k2.len()) by {
        assert(child_path(prefix, k1).len() == n + k1.len());
        assert(child_path(prefix, k2).len() == n + k2.len());
    }
    assert forall|i: int| 0 <= i < k1.len() implies k1[i] == k2[i] by {
        assert(child_path(prefix, k1)[n + i] == k1[i]);
        assert(child_path(prefix, k2)[n + i] == k2[i]);
    }
    assert(k1 =~= k2);
}

proof fn lemma_placed_at_level(prefix: Seq<char>, xs: Entries, ys: Entries, n: nat)
    requires
        n <= xs.len(),
    ensures
        placed_at_level(prefix, xs, ys, n) == key_paths(prefix, xs, n).to_multiset(),
    decreases n,
{
    if n == 0 {
        let lv = left_level(prefix, xs, ys, 0);
        assert(lv.left_only.to_multiset() =~= Multiset::empty());
        assert(lv.same.to_multiset() =~= Multiset::empty());
        assert(lv.changed.to_multiset() =~= Multiset::empty());
        assert(descended_paths(prefix, xs, ys, 0).to_multiset() =~= Multiset::empty());
        assert(key_paths(prefix, xs, 0).to_multiset() =~= Multiset::empty());
        assert(placed_at_level(prefix, xs, ys, n) =~= key_paths(prefix, xs, n).to_multiset());
    } else {
        let m = (n - 1) as nat;
        lemma_placed_at_level(prefix, xs, ys, m);
        let path = child_path(prefix, xs[m as int].0);
        assert(key_paths(prefix, xs, n).to_multiset() =~= key_paths(prefix, xs, m).to_multiset().insert(path));
        assert(placed_at_level(prefix, xs, ys, n) =~= placed_at_level(prefix, xs, ys, m).insert(path));
    }
}

proof fn lemma_key_paths_count(prefix: Seq<char>, xs: Entries, n: nat, i: int)
    requires
        keys_unique(xs),
        n <= xs.len(),
        0 <= i < xs.len(),
    ensures
        key_paths(prefix, xs, n).to_multiset().count(child_path(prefix, xs[i].0)) == if i < n {
            1nat
        } else {
            0nat
        },
    decreases n,
{
    if n > 0 {
        let m = (n - 1) as nat;
        lemma_key_paths_count(prefix, xs, m, i);
        let path = child_path(prefix, xs[m as int].0);
        assert(key_paths(prefix, xs, n).to_multiset() =~= key_paths(prefix, xs, m).to_multiset().insert(path));
        if path == child_path(prefix, xs[i].0) {
            lemma_child_path_injective(prefix, xs[m as int].0, xs[i].0);
        }
    } else {
        assert(key_paths(prefix, xs, 0).to_multiset() =~= Multiset::empty());
    }
}

proof fn lemma_right_level_members(prefix: Seq<char>, xs: Entries, ys: Entries, n: nat)
    requires
        n <= ys.len(),
    ensures
        forall|j: int|
            0 <= j < n && !has_key(xs, ys[j].0) ==> right_level(prefix, xs, ys, n).contains(
                child_path(prefix, ys[j].0),
            ),
        forall|q: Seq<char>|
            right_level(prefix, xs, ys, n).contains(q) ==> exists|j: int|
                0 <= j < n && !has_key(xs, ys[j].0) && q == child_path(prefix, ys[j].0),
    decreases n,
{
    if n > 0 {
        let m = (n - 1) as nat;
        lemma_right_level_members(prefix, xs, ys, m);
        let prev = right_level(prefix, xs, ys, m);
        let cur = right_level(prefix, xs, ys, n);
        assert forall|j: int| 0 <= j < n && !has_key(xs, ys[j].0) implies cur.contains(
            child_path(prefix, ys[j].0),
        ) by {
            if j < m {
                let w = choose|w: int| 0 <= w < prev.len() && prev[w] == child_path(prefix, ys[j].0);
                assert(cur[w] == prev[w]);
            } else {
                assert(cur[cur.len() - 1] == child_path(prefix, ys[j].0));
            }
        }
        assert forall|q: Seq<char>| cur.contains(q) implies exists|j: int|
            0 <= j < n && !has_key(xs, ys[j].0) && q == child_path(prefix, ys[j].0) by {
            let w = choose|w: int| 0 <= w < cur.len() && cur[w] == q;
            if w < prev.len() {
                assert(prev[w] == q);
                assert(prev.contains(q));
            } else {
                assert(!has_key(xs, ys[m as int].0) && q == child_path(prefix, ys[m as int].0));
            }
        }
    }
}

/// At every level, each key of `xs` is placed exactly once (counted with
/// multiplicity over the paths): in `left_only`, `same`, `changed`, or among
/// the keys compared one level down; where the keys of `xs` are unique, the
/// path of each appears exactly once among those four. The keys of `ys` that
/// `xs` lacks, and only those, are placed in `right_only`.
pub proof fn lemma_level_partition(prefix: Seq<char>, xs: Entries, ys: Entries)
    ensures
        placed_at_level(prefix, xs, ys, xs.len()) == key_paths(prefix, xs, xs.len()).to_multiset(),
        keys_unique(xs) ==> forall|i: int|
            0 <= i < xs.len() ==> placed_at_level(prefix, xs, ys, xs.len()).count(
                #[trigger] child_path(prefix, xs[i].0),
            ) == 1,
        forall|j: int|
            0 <= j < ys.len() && !has_key(xs, ys[j].0) ==> right_level(
                prefix,
                xs,
                ys,
                ys.len(),
            ).contains(#[trigger] child_path(prefix, ys[j].0)),
        forall|q: Seq<char>|
            right_level(prefix, xs, ys, ys.len()).contains(q) ==> exists|j: int|
                0 <= j < ys.len() && !has_key(xs, ys[j].0) && q == child_path(prefix, ys[j].0),
{
    lemma_placed_at_level(prefix, xs, ys, xs.len());
    if keys_unique(xs) {
        assert forall|i: int| 0 <= i < xs.len() implies placed_at_level(
            prefix,
            xs,
            ys,
            xs.len(),
        ).count(#[trigger] child_path(prefix, xs[i].0)) == 1 by {
            lemma_key_paths_count(prefix, xs, xs.len(), i);
        }
    }
    lemma_right_level_members(prefix, xs, ys, ys.len());
}

/// Comparing a YAML text with itself, where it parses, reports nothing on
/// one side only and nothing changed, and every leaf path as the same.
pub proof fn lemma_document_diff_reflexive(text: Seq<char>)
    requires
        document_root(text) is Some,
    ensures
        diff(document_root(text)->Some_0, document_root(text)->Some_0) == (Buckets {
            left_only: Seq::empty(),
            right_only: Seq::empty(),
            same: leaf_paths(Seq::empty(), document_root(text)->Some_0),
            changed: Seq::empty(),
        }),
{
    lemma_document_root_wf(parsed_yaml(text)->Some_0);
    lemma_diff_reflexive(Seq::empty(), document_root(text)->Some_0);
}

/// A value that is compared one level down when met on both sides: a
/// non-empty map.
pub open spec fn is_branch(v: Tree) -> bool {
    v matches Tree::Mapping(es) && es.len() > 0
}

/// The paths of the keys among the first `n` of `xs` whose values are not
/// non-empty maps.
pub open spec fn leaf_level(prefix: Seq<char>, xs: Entries, n: nat) -> Seq<Seq<char>>
    decreases n,
{
    if n == 0 {
        Seq::empty()
    } else {
        let prev = leaf_level(prefix, xs, (n - 1) as nat);
        if is_branch(xs[n - 1].1) {
            prev
        } else {
            prev.push(child_path(prefix, xs[n - 1].0))
        }
    }
}

/// The leaf paths of the non-empty maps under the first `n` keys of `xs`.
pub open spec fn leaf_below(prefix: Seq<char>, xs: Entries, n: nat) -> Seq<Seq<char>>
    decreases xs, n,
{
    if n == 0 || n > xs.len() {
        Seq::empty()
    } else {
        let prev = leaf_below(prefix, xs, (n - 1) as nat);
        let e = xs[n - 1];
        if is_branch(e.1) {
            proof {
                assert(decreases_to!(xs => xs[n - 1]));
                assert(decreases_to!(xs[n - 1] => xs[n - 1].1));
                assert(decreases_to!(xs[n - 1].1 => xs[n - 1].1->Mapping_0));
            }
            prev + leaf_paths(child_path(prefix, e.0), e.1->Mapping_0)
        } else {
            prev
        }
    }
}

/// The paths, at any depth below `prefix`, of the keys whose values are not
/// non-empty maps (scalars, lists and empty maps), level by level in the
/// order in which the comparison lists them.
pub open spec fn leaf_paths(prefix: Seq<char>, xs: Entries) -> Seq<Seq<char>>
    decreases xs, xs.len() + 1,
{
    leaf_level(prefix, xs, xs.len()) + leaf_below(prefix, xs, xs.len())
}

proof fn lemma_left_level_reflexive(prefix: Seq<char>, xs: Entries, n: nat)
    requires
        tree_wf(Tree::Mapping(xs)),
        n <= xs.len(),
    ensures
        left_level(prefix, xs, xs, n) == (Buckets {
            left_only: Seq::empty(),
            right_only: Seq::empty(),
            same: leaf_level(prefix, xs, n),
            changed: Seq::empty(),
        }),
    decreases n,
{
    if n > 0 {
        let m = (n - 1) as nat;
        lemma_left_level_reflexive(prefix, xs, m);
        lemma_unique_lookup(xs, m as int);
        let v = xs[m as int].1;
        assert(tree_wf(v));
        lemma_tree_eq_reflexive(v);
        assert(classify(v, v) == KeyClass::Descend <==> is_branch(v));
        assert(classify(v, v) != KeyClass::Changed);
    }
}

proof fn lemma_right_level_reflexive(prefix: Seq<char>, xs: Entries, n: nat)
    requires
        n <= xs.len(),
    ensures
        right_level(prefix, xs, xs, n) == Seq::<Seq<char>>::empty(),
    decreases n,
{
    if n > 0 {
        let m = (n - 1) as nat;
        lemma_right_level_reflexive(prefix, xs, m);
        assert(0 <= m < xs.len() && xs[m as int].0 == xs[m as int].0);
    }
}

proof fn lemma_below_level_reflexive(prefix: Seq<char>, xs: Entries, n: nat)
    requires
        tree_wf(Tree::Mapping(xs)),
        n <= xs.len(),
    ensures
        below_level(prefix, xs, xs, n) == (Buckets {
            left_only: Seq::empty(),
            right_only: Seq::empty(),
            same: leaf_below(prefix, xs, n),
            changed: Seq::empty(),
        }),
    decreases xs, n,
{
    if n > 0 {
        let m = (n - 1) as nat;
        lemma_below_level_reflexive(prefix, xs, m);
        lemma_unique_lookup(xs, m as int);
        let e = xs[m as int];
        assert(tree_wf(e.1));
        assert(descends(xs, xs, e.0, e.1) <==> is_branch(e.1));
        let prev = below_level(prefix, xs, xs, m);
        if is_branch(e.1) {
            let es = e.1->Mapping_0;
            assert(decreases_to!(xs => xs[m as int]));
            assert(decreases_to!(xs[m as int] => xs[m as int].1));
            assert(decreases_to!(xs[m as int].1 => xs[m as int].1->Mapping_0));
            lemma_diff_reflexive(child_path(prefix, e.0), es);
            let d = diff_of(child_path(prefix, e.0), es, es);
            let cur = below_level(prefix, xs, xs, n);
            assert(cur == concat(prev, d));
            assert(cur.left_only =~= Seq::<Seq<char>>::empty());
            assert(cur.right_only =~= Seq::<Seq<char>>::empty());
            assert(cur.changed =~= Seq::<Seq<char>>::empty());
        }
    }
}

/// Comparing a well-formed map with itself leaves `left_only`, `right_only`
/// and `changed` empty, and puts in `same` the path of every key, at any
/// depth, whose value is a scalar, a list or an empty map; a non-empty map is
/// entered, not listed.
pub proof fn lemma_diff_reflexive(prefix: Seq<char>, xs: Entries)
    requires
        tree_wf(Tree::Mapping(xs)),
    ensures
        diff_of(prefix, xs, xs) == (Buckets {
            left_only: Seq::empty(),
            right_only: Seq::empty(),
            same: leaf_paths(prefix, xs),
            changed: Seq::empty(),
        }),
    decreases xs, xs.len() + 1,
{
    lemma_left_level_reflexive(prefix, xs, xs.len());
    lemma_right_level_reflexive(prefix, xs, xs.len());
    lemma_below_level_reflexive(prefix, xs, xs.len());
    let d = diff_of(prefix, xs, xs);
    assert(d.left_only =~= Seq::<Seq<char>>::empty());
    assert(d.right_only =~= Seq::<Seq<char>>::empty());
    assert(d.changed =~= Seq::<Seq<char>>::empty());
}

/// The comparison of two one-key maps that hold `a` and `b` under the same
/// key.
proof fn lemma_single_key(prefix: Seq<char>, k: Seq<char>, a: Tree, b: Tree)
    requires
        classify(a, b) != KeyClass::Descend,
    ensures
        ({
            let xs = seq![(k, a)];
            let ys = seq![(k, b)];
            let path = child_path(prefix, k);
            let d = diff_of(prefix, xs, ys);
            &&& d.left_only == Seq::<Seq<char>>::empty()
            &&& d.right_only == Seq::<Seq<char>>::empty()
            &&& classify(a, b) == KeyClass::Same ==> d.same == seq![path] && d.changed == Seq::<
                Seq<char>,
            >::empty()
            &&& classify(a, b) == KeyClass::Changed ==> d.changed == seq![path] && d.same == Seq::<
                Seq<char>,
            >::empty()
        }),
{
    let xs = seq![(k, a)];
    let ys = seq![(k, b)];
    let path = child_path(prefix, k);
    lemma_unique_lookup(xs, 0);
    lemma_unique_lookup(ys, 0);
    assert(left_level(prefix, xs, ys, 0) == no_paths());
    assert(right_level(prefix, xs, ys, 0) == Seq::<Seq<char>>::empty());
    assert(below_level(prefix, xs, ys, 0) == no_paths());
    let lv = left_level(prefix, xs, ys, 1);
    let d = diff_of(prefix, xs, ys);
    assert(right_level(prefix, xs, ys, 1) == Seq::<Seq<char>>::empty());
    assert(below_level(prefix, xs, ys, 1) == no_paths());
    assert(d.left_only =~= Seq::<Seq<char>>::empty());
    assert(d.right_only =~= Seq::<Seq<char>>::empty());
    if classify(a, b) == KeyClass::Same {
        assert(d.same =~= seq![path]);
        assert(d.changed =~= Seq::<Seq<char>>::empty());
    } else {
        assert(d.changed =~= seq![path]);
        assert(d.same =~= Seq::<Seq<char>>::empty());
    }
}

/// Two lists holding the same elements, in orders under which some position
/// holds unequal values, are `changed`, not `same`: comparing `{k: xs}` with
/// `{k: ys}` gives exactly the path of `k` in `changed`.
pub proof fn lemma_list_order_matters(prefix: Seq<char>, k: Seq<char>, xs: Seq<Tree>, ys: Seq<Tree>)
    requires
        xs.to_multiset() == ys.to_multiset(),
        exists|i: int| 0 <= i < xs.len() && !tree_eq(xs[i], ys[i]),
    ensures
        classify(Tree::List(xs), Tree::List(ys)) == KeyClass::Changed,
        diff_of(prefix, seq![(k, Tree::List(xs))], seq![(k, Tree::List(ys))]) == (Buckets {
            left_only: Seq::empty(),
            right_only: Seq::empty(),
            same: Seq::empty(),
            changed: seq![child_path(prefix, k)],
        }),
{
    let i = choose|i: int| 0 <= i < xs.len() && !tree_eq(xs[i], ys[i]);
    assert(!tree_eq(Tree::List(xs), Tree::List(ys)));
    lemma_single_key(prefix, k, Tree::List(xs), Tree::List(ys));
}

proof fn lemma_same_stays(prefix: Seq<char>, xs: Entries, ys: Entries, n: nat, i: int)
    requires
        0 <= i < n <= xs.len(),
        has_key(ys, xs[i].0),
        classify(xs[i].1, value_at(ys, xs[i].0)) == KeyClass::Same,
    ensures
        left_level(prefix, xs, ys, n).same.contains(child_path(prefix, xs[i].0)),
    decreases n,
{
    let path = child_path(prefix, xs[i].0);
    let cur = left_level(prefix, xs, ys, n).same;
    if n == i + 1 {
        assert(cur[cur.len() - 1] == path);
    } else {
        let m = (n - 1) as nat;
        lemma_same_stays(prefix, xs, ys, m, i);
        let prev = left_level(prefix, xs, ys, m).same;
        let w = choose|w: int| 0 <= w < prev.len() && prev[w] == path;
        assert(cur[w] == prev[w]);
    }
}

/// Where both sides hold an empty map under a key, the key's path is in
/// `same` and nothing below it is compared; in particular comparing `{k: {}}`
/// with `{k: {}}` gives exactly the path of `k` in `same`.
pub proof fn lemma_empty_maps_same(prefix: Seq<char>, xs: Entries, ys: Entries, i: int, k: Seq<char>)
    requires
        0 <= i < xs.len(),
        has_key(ys, xs[i].0),
        xs[i].1 == Tree::Mapping(Seq::empty()),
        value_at(ys, xs[i].0) == Tree::Mapping(Seq::empty()),
    ensures
        classify(xs[i].1, value_at(ys, xs[i].0)) == KeyClass::Same,
        !descends(xs, ys, xs[i].0, xs[i].1),
        left_level(prefix, xs, ys, xs.len()).same.contains(child_path(prefix, xs[i].0)),
        diff_of(
            prefix,
            seq![(k, Tree::Mapping(Seq::empty()))],
            seq![(k, Tree::Mapping(Seq::empty()))],
        ) == (Buckets {
            left_only: Seq::empty(),
            right_only: Seq::empty(),
            same: seq![child_path(prefix, k)],
            changed: Seq::empty(),
        }),
{
    lemma_same_stays(prefix, xs, ys, xs.len(), i);
    lemma_single_key(prefix, k, Tree::Mapping(Seq::empty()), Tree::Mapping(Seq::empty()));
}

/// One of the four path sequences of a comparison: `0` selects `left_only`,
/// `1` `right_only`, `2` `same`, any other `changed`.
pub open spec fn bucket(b: Buckets, w: int) -> Seq<Seq<char>> {
    if w == 0 {
        b.left_only
    } else if w == 1 {
        b.right_only
    } else if w == 2 {
        b.same
    } else {
        b.changed
    }
}

/// Whether the level classification puts key `k` of the left map, with value
/// `v`, in the sequence that `w` selects (`w != 1`).
pub open spec fn placed_in(ys: Entries, k: Seq<char>, v: Tree, w: int) -> bool {
    if w == 0 {
        !has_key(ys, k)
    } else if w == 2 {
        has_key(ys, k) && classify(v, value_at(ys, k)) == KeyClass::Same
    } else {
        has_key(ys, k) && classify(v, value_at(ys, k)) == KeyClass::Changed
    }
}

/// The comparison of the pair of maps under the `i`-th key of `xs`.
pub open spec fn child_diff(prefix: Seq<char>, xs: Entries, ys: Entries, i: int) -> Buckets {
    diff_of(child_path(prefix, xs[i].0), xs[i].1->Mapping_0, value_at(ys, xs[i].0)->Mapping_0)
}

proof fn lemma_concat_contains(s: Seq<Seq<char>>, t: Seq<Seq<char>>, q: Seq<char>)
    ensures
        (s + t).contains(q) <==> s.contains(q) || t.contains(q),
{
    if s.contains(q) {
        let w = choose|w: int| 0 <= w < s.len() && s[w] == q;
        assert((s + t)[w] == q);
    }
    if t.contains(q) {
        let w = choose|w: int| 0 <= w < t.len() && t[w] == q;
        assert((s + t)[s.len() + w] == q);
    }
    if (s + t).contains(q) {
        let w = choose|w: int| 0 <= w < (s + t).len() && (s + t)[w] == q;
        if w < s.len() {
            assert(s[w] == q);
        } else {
            assert(t[w - s.len()] == q);
        }
    }
}

proof fn lemma_left_level_members(prefix: Seq<char>, xs: Entries, ys: Entries, n: nat, w: int)
    requires
        n <= xs.len(),
        w != 1,
    ensures
        forall|q: Seq<char>|
            bucket(left_level(prefix, xs, ys, n), w).contains(q) <==> exists|i: int|
                0 <= i < n && q == child_path(prefix, xs[i].0) && placed_in(ys, xs[i].0, xs[i].1, w),
    decreases n,
{
    if n > 0 {
        let m = (n - 1) as nat;
        lemma_left_level_members(prefix, xs, ys, m, w);
        let prev = bucket(left_level(prefix, xs, ys, m), w);
        let cur = bucket(left_level(prefix, xs, ys, n), w);
        let path = child_path(prefix, xs[m as int].0);
        let hit = placed_in(ys, xs[m as int].0, xs[m as int].1, w);
        assert(cur == if hit {
            prev.push(path)
        } else {
            prev
        });
        assert forall|q: Seq<char>| cur.contains(q) <==> exists|i: int|
            0 <= i < n && q == child_path(prefix, xs[i].0) && placed_in(ys, xs[i].0, xs[i].1, w) by {
            if cur.contains(q) {
                let v = choose|v: int| 0 <= v < cur.len() && cur[v] == q;
                if v < prev.len() {
                    assert(prev[v] == q);
                    assert(prev.contains(q));
                } else {
                    assert(q == path && hit);
                }
            }
            if exists|i: int|
                0 <= i < n && q == child_path(prefix, xs[i].0) && placed_in(ys, xs[i].0, xs[i].1, w) {
                let i = choose|i: int|
                    0 <= i < n && q == child_path(prefix, xs[i].0) && placed_in(
                        ys,
                        xs[i].0,
                        xs[i].1,
                        w,
                    );
                if i < m {
                    assert(prev.contains(q));
                    let v = choose|v: int| 0 <= v < prev.len() && prev[v] == q;
                    assert(cur[v] == q);
                } else {
                    assert(cur[cur.len() - 1] == q);
                }
            }
        }
    }
}

proof fn lemma_below_level_members(prefix: Seq<char>, xs: Entries, ys: Entries, n: nat, w: int)
    requires
        n <= xs.len(),
    ensures
        forall|q: Seq<char>|
            bucket(below_level(prefix, xs, ys, n), w).contains(q) <==> exists|i: int|
                0 <= i < n && descends(xs, ys, xs[i].0, xs[i].1) && bucket(
                    child_diff(prefix, xs, ys, i),
                    w,
                ).contains(q),
    decreases n,
{
    if n > 0 {
        let m = (n - 1) as nat;
        lemma_below_level_members(prefix, xs, ys, m, w);
        let prev = bucket(below_level(prefix, xs, ys, m), w);
        let cur = bucket(below_level(prefix, xs, ys, n), w);
        let hit = descends(xs, ys, xs[m as int].0, xs[m as int].1);
        let c = bucket(child_diff(prefix, xs, ys, m as int), w);
        assert(cur == if hit {
            prev + c
        } else {
            prev
        });
        assert forall|q: Seq<char>| cur.contains(q) <==> exists|i: int|
            0 <= i < n && descends(xs, ys, xs[i].0, xs[i].1) && bucket(
                child_diff(prefix, xs, ys, i),
                w,
            ).contains(q) by {
            lemma_concat_contains(prev, c, q);
        }
    } else {
        assert forall|q: Seq<char>| !bucket(below_level(prefix, xs, ys, n), w).contains(q) by {}
    }
}

/// Where a comparison puts a path: at the map's own level, or in the
/// comparison of a pair of maps below it.
proof fn lemma_diff_members(prefix: Seq<char>, xs: Entries, ys: Entries, w: int, q: Seq<char>)
    ensures
        bucket(diff_of(prefix, xs, ys), w).contains(q) <==> {
            ||| w == 1 && exists|j: int|
                0 <= j < ys.len() && !has_key(xs, ys[j].0) && q == child_path(prefix, ys[j].0)
            ||| w != 1 && exists|i: int|
                0 <= i < xs.len() && q == child_path(prefix, xs[i].0) && placed_in(
                    ys,
                    xs[i].0,
                    xs[i].1,
                    w,
                )
            ||| exists|i: int|
                0 <= i < xs.len() && descends(xs, ys, xs[i].0, xs[i].1) && bucket(
                    child_diff(prefix, xs, ys, i),
                    w,
                ).contains(q)
        },
{
    let lv = left_level(prefix, xs, ys, xs.len());
    let rv = right_level(prefix, xs, ys, ys.len());
    let level = Buckets { right_only: rv, ..lv };
    let below = below_level(prefix, xs, ys, xs.len());
    assert(bucket(diff_of(prefix, xs, ys), w) == bucket(level, w) + bucket(below, w));
    lemma_concat_contains(bucket(level, w), bucket(below, w), q);
    lemma_below_level_members(prefix, xs, ys, xs.len(), w);
    if w == 1 {
        lemma_right_level_members(prefix, xs, ys, ys.len());
        assert(bucket(level, w) == rv);
        if exists|j: int|
            0 <= j < ys.len() && !has_key(xs, ys[j].0) && q == child_path(prefix, ys[j].0) {
            let j = choose|j: int|
                0 <= j < ys.len() && !has_key(xs, ys[j].0) && q == child_path(prefix, ys[j].0);
            assert(rv.contains(child_path(prefix, ys[j].0)));
        }
    } else {
        lemma_left_level_members(prefix, xs, ys, xs.len(), w);
        assert(bucket(level, w) == bucket(lv, w));
    }
}

/// Replacing each value by a structurally equal one keeps a key's
/// classification.
pub proof fn lemma_classify_respects_eq(x1: Tree, y1: Tree, x2: Tree, y2: Tree)
    requires
        tree_wf(x1),
        tree_wf(y1),
        tree_wf(x2),
        tree_wf(y2),
        tree_eq(x1, x2),
        tree_eq(y1, y2),
    ensures
        classify(x1, y1) == classify(x2, y2),
{
    if x1 is List && y1 is List {
        lemma_tree_eq_symmetric(x1, x2);
        lemma_tree_eq_symmetric(y1, y2);
        if tree_eq(x1, y1) {
            lemma_tree_eq_transitive(x2, x1, y1);
            lemma_tree_eq_transitive(x2, y1, y2);
        }
        if tree_eq(x2, y2) {
            lemma_tree_eq_transitive(x1, x2, y2);
            lemma_tree_eq_transitive(x1, y2, y1);
        }
    }
}

/// Facts on two maps with the same contents: the same keys, and
/// structurally equal values under each.
proof fn lemma_eq_maps(a1: Entries, a2: Entries)
    requires
        tree_wf(Tree::Mapping(a1)),
        tree_wf(Tree::Mapping(a2)),
        tree_eq(Tree::Mapping(a1), Tree::Mapping(a2)),
    ensures
        forall|k: Seq<char>| has_key(a1, k) <==> has_key(a2, k),
        forall|k: Seq<char>|
            has_key(a1, k) ==> tree_eq(value_at(a1, k), value_at(a2, k)) && tree_wf(value_at(a1, k))
                && tree_wf(value_at(a2, k)) && is_first_index(a1, k, first_index(a1, k))
                && is_first_index(a2, k, first_index(a2, k)),
{
    lemma_tree_eq_symmetric(Tree::Mapping(a1), Tree::Mapping(a2));
    assert forall|k: Seq<char>| has_key(a1, k) <==> has_key(a2, k) by {
        if has_key(a1, k) {
            let i = choose|i: int| 0 <= i < a1.len() && a1[i].0 == k;
            assert(has_key(a2, a1[i].0));
        }
        if has_key(a2, k) {
            let j = choose|j: int| 0 <= j < a2.len() && a2[j].0 == k;
            assert(has_key(a1, a2[j].0));
        }
    }
    assert forall|k: Seq<char>| has_key(a1, k) implies tree_eq(value_at(a1, k), value_at(a2, k))
        && tree_wf(value_at(a1, k)) && tree_wf(value_at(a2, k)) && is_first_index(
        a1,
        k,
        first_index(a1, k),
    ) && is_first_index(a2, k, first_index(a2, k)) by {
        lemma_unique_has_key(a1, k);
        lemma_unique_has_key(a2, k);
        let i = first_index(a1, k);
        assert(tree_eq(a1[i].1, value_at(a2, a1[i].0)));
    }
}

proof fn lemma_members_transfer(
    prefix: Seq<char>,
    a1: Entries,
    b1: Entries,
    a2: Entries,
    b2: Entries,
    w: int,
    q: Seq<char>,
)
    requires
        tree_wf(Tree::Mapping(a1)),
        tree_wf(Tree::Mapping(b1)),
        tree_wf(Tree::Mapping(a2)),
        tree_wf(Tree::Mapping(b2)),
        tree_eq(Tree::Mapping(a1), Tree::Mapping(a2)),
        tree_eq(Tree::Mapping(b1), Tree::Mapping(b2)),
        bucket(diff_of(prefix, a1, b1), w).contains(q),
    ensures
        bucket(diff_of(prefix, a2, b2), w).contains(q),
    decreases a1,
{
    lemma_eq_maps(a1, a2);
    lemma_eq_maps(b1, b2);
    lemma_diff_members(prefix, a1, b1, w, q);
    lemma_diff_members(prefix, a2, b2, w, q);
    if w == 1 && exists|j: int|
        0 <= j < b1.len() && !has_key(a1, b1[j].0) && q == child_path(prefix, b1[j].0) {
        let j = choose|j: int|
            0 <= j < b1.len() && !has_key(a1, b1[j].0) && q == child_path(prefix, b1[j].0);
        let k = b1[j].0;
        assert(has_key(b1, k));
        let j2 = first_index(b2, k);
        assert(0 <= j2 < b2.len() && !has_key(a2, b2[j2].0) && q == child_path(prefix, b2[j2].0));
    } else if w != 1 && exists|i: int|
        0 <= i < a1.len() && q == child_path(prefix, a1[i].0) && placed_in(b1, a1[i].0, a1[i].1, w) {
        let i = choose|i: int|
            0 <= i < a1.len() && q == child_path(prefix, a1[i].0) && placed_in(
                b1,
                a1[i].0,
                a1[i].1,
                w,
            );
        let k = a1[i].0;
        assert(has_key(a1, k));
        lemma_unique_lookup(a1, i);
        let i2 = first_index(a2, k);
        lemma_unique_lookup(a2, i2);
        if has_key(b1, k) {
            lemma_classify_respects_eq(a1[i].1, value_at(b1, k), a2[i2].1, value_at(b2, k));
        }
        assert(0 <= i2 < a2.len() && q == child_path(prefix, a2[i2].0) && placed_in(
            b2,
            a2[i2].0,
            a2[i2].1,
            w,
        ));
    } else {
        let i = choose|i: int|
            0 <= i < a1.len() && descends(a1, b1, a1[i].0, a1[i].1) && bucket(
                child_diff(prefix, a1, b1, i),
                w,
            ).contains(q);
        let k = a1[i].0;
        assert(has_key(a1, k));
        lemma_unique_lookup(a1, i);
        let i2 = first_index(a2, k);
        lemma_unique_lookup(a2, i2);
        let v1 = a1[i].1;
        let v2 = a2[i2].1;
        let u1 = value_at(b1, k);
        let u2 = value_at(b2, k);
        lemma_classify_respects_eq(v1, u1, v2, u2);
        assert(descends(a2, b2, a2[i2].0, a2[i2].1));
        assert(decreases_to!(a1 => a1[i]));
        assert(decreases_to!(a1[i] => a1[i].1));
        assert(decreases_to!(a1[i].1 => a1[i].1->Mapping_0));
        lemma_members_transfer(
            child_path(prefix, k),
            v1->Mapping_0,
            u1->Mapping_0,
            v2->Mapping_0,
            u2->Mapping_0,
            w,
            q,
        );
        assert(bucket(child_diff(prefix, a2, b2, i2), w).contains(q));
    }
}

/// Comparing maps with the same contents gives the same paths in each of
/// the four places, whatever the order of the entries at any depth: which
/// paths a comparison reports depends on the keys and values alone, only
/// their order in each sequence follows the order of the entries.
pub proof fn lemma_membership_independent_of_order(
    prefix: Seq<char>,
    a1: Entries,
    b1: Entries,
    a2: Entries,
    b2: Entries,
)
    requires
        tree_wf(Tree::Mapping(a1)),
        tree_wf(Tree::Mapping(b1)),
        tree_wf(Tree::Mapping(a2)),
        tree_wf(Tree::Mapping(b2)),
        tree_eq(Tree::Mapping(a1), Tree::Mapping(a2)),
        tree_eq(Tree::Mapping(b1), Tree::Mapping(b2)),
    ensures
        forall|w: int, q: Seq<char>|
            #[trigger] bucket(diff_of(prefix, a1, b1), w).contains(q) <==> bucket(
                diff_of(prefix, a2, b2),
                w,
            ).contains(q),
{
    lemma_tree_eq_symmetric(Tree::Mapping(a1), Tree::Mapping(a2));
    lemma_tree_eq_symmetric(Tree::Mapping(b1), Tree::Mapping(b2));
    assert forall|w: int, q: Seq<char>| #[trigger]
        bucket(diff_of(prefix, a1, b1), w).contains(q) <==> bucket(
            diff_of(prefix, a2, b2),
            w,
        ).contains(q) by {
        if bucket(diff_of(prefix, a1, b1), w).contains(q) {
            lemma_members_transfer(prefix, a1, b1, a2, b2, w, q);
        }
        if bucket(diff_of(prefix, a2, b2), w).contains(q) {
            lemma_members_transfer(prefix, a2, b2, a1, b1, w, q);
        }
    }
}

} // verus!
