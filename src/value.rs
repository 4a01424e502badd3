use vstd::prelude::*;

verus! {

/// The mathematical model of a normalized document value.
///
/// A map is modelled by its entries in insertion order; a well-formed map
/// (see `tree_wf`) holds each key once.
pub enum Tree {
    Scalar(Seq<char>),
    Mapping(Seq<(Seq<char>, Tree)>),
    List(Seq<Tree>),
}

/// The entries of a map, in insertion order.
pub type Entries = Seq<(Seq<char>, Tree)>;

/// `es` holds an entry under key `k`.
pub open spec fn has_key(es: Entries, k: Seq<char>) -> bool {
    exists|i: int| 0 <= i < es.len() && es[i].0 == k
}

/// `i` is the position of the first entry of `es` under key `k`.
pub open spec fn is_first_index(es: Entries, k: Seq<char>, i: int) -> bool {
    &&& 0 <= i < es.len()
    &&& es[i].0 == k
    &&& forall|j: int| 0 <= j < i ==> es[j].0 != k
}

/// The position of the entry under key `k` (meaningful where `has_key(es, k)`).
pub open spec fn first_index(es: Entries, k: Seq<char>) -> int {
    choose|i: int| is_first_index(es, k, i)
}

/// The value stored under key `k` (meaningful where `has_key(es, k)`).
pub open spec fn value_at(es: Entries, k: Seq<char>) -> Tree {
    es[first_index(es, k)].1
}

/// No two entries of `es` share a key.
pub open spec fn keys_unique(es: Entries) -> bool {
    forall|i: int, j: int| 0 <= i < es.len() && 0 <= j < es.len() && i != j ==> es[i].0 != es[j].0
}

/// The entries after storing `v` under `k`: an existing entry keeps its
/// place and takes the new value, a new key goes to the end.
pub open spec fn insert_entry(es: Entries, k: Seq<char>, v: Tree) -> Entries {
    if has_key(es, k) {
        es.update(first_index(es, k), (k, v))
    } else {
        es.push((k, v))
    }
}

/// Every map in `t`, at any depth, holds each key once.
pub open spec fn tree_wf(t: Tree) -> bool
    decreases t,
{
    match t {
        Tree::Scalar(_) => true,
        Tree::Mapping(es) => keys_unique(es) && forall|i: int| 0 <= i < es.len() ==> tree_wf(#[trigger] es[i].1),
        Tree::List(xs) => forall|i: int| 0 <= i < xs.len() ==> tree_wf(#[trigger] xs[i]),
    }
}

/// Structural equality of two values: scalars by text, lists element by
/// element in order, maps by their sets of keys and the values under them
/// (the order of entries is not significant).
pub open spec fn tree_eq(a: Tree, b: Tree) -> bool
    decreases a,
{
    match a {
        Tree::Scalar(x) => b matches Tree::Scalar(y) && x == y,
        Tree::List(xs) => match b {
            Tree::List(ys) => xs.len() == ys.len() && forall|i: int|
                0 <= i < xs.len() ==> tree_eq(#[trigger] xs[i], ys[i]),
            _ => false,
        },
        Tree::Mapping(xs) => match b {
            Tree::Mapping(ys) => xs.len() == ys.len() && forall|i: int|
                0 <= i < xs.len() ==> has_key(ys, #[trigger] xs[i].0) && tree_eq(
                    xs[i].1,
                    value_at(ys, xs[i].0),
                ),
            _ => false,
        },
    }
}

/// A normalized document value: a scalar's canonical text, a map from keys
/// to values, or an ordered list of values.
#[derive(Debug)]
pub enum NestedValue {
    Value(String),
    Mapping(NestedHashMap),
    List(Vec<NestedValue>),
}

/// A map from string keys to values that holds each key once and keeps
/// entries in insertion order.
#[derive(Debug)]
pub struct NestedHashMap {
    entries: Vec<(String, NestedValue)>,
}

/// The model of a value.
pub open spec fn tree_of(v: NestedValue) -> Tree
    decreases v,
{
    match v {
        NestedValue::Value(s) => Tree::Scalar(s@),
        NestedValue::Mapping(m) => Tree::Mapping(map_view(m)),
        NestedValue::List(xs) => Tree::List(trees_of(xs@)),
    }
}

/// The models of a sequence of values.
pub open spec fn trees_of(xs: Seq<NestedValue>) -> Seq<Tree>
    decreases xs,
{
    if xs.len() == 0 {
        Seq::empty()
    } else {
        trees_of(xs.drop_last()).push(tree_of(xs.last()))
    }
}

/// The model of a map: its entries, in insertion order.
pub closed spec fn map_view(m: NestedHashMap) -> Entries
    decreases m,
{
    entries_of(m.entries@)
}

/// The models of a sequence of entries.
pub open spec fn entries_of(es: Seq<(String, NestedValue)>) -> Entries
    decreases es,
{
    if es.len() == 0 {
        Seq::empty()
    } else {
        entries_of(es.drop_last()).push((es.last().0@, tree_of(es.last().1)))
    }
}

impl View for NestedValue {
    type V = Tree;

    open spec fn view(&self) -> Tree {
        tree_of(*self)
    }
}

impl View for NestedHashMap {
    type V = Entries;

    open spec fn view(&self) -> Entries {
        map_view(*self)
    }
}

/// Facts on the view of a sequence of entries: one model entry per entry.
pub broadcast proof fn lemma_entries_of(es: Seq<(String, NestedValue)>)
    ensures
        #[trigger] entries_of(es).len() == es.len(),
        forall|i: int| 0 <= i < es.len() ==> #[trigger] entries_of(es)[i] == (es[i].0@, tree_of(es[i].1)),
    decreases es.len(),
{
    if es.len() > 0 {
        lemma_entries_of(es.drop_last());
    }
}

/// Facts on the view of a sequence of values: one model per value.
pub broadcast proof fn lemma_trees_of(xs: Seq<NestedValue>)
    ensures
        #[trigger] trees_of(xs).len() == xs.len(),
        forall|i: int| 0 <= i < xs.len() ==> #[trigger] trees_of(xs)[i] == tree_of(xs[i]),
    decreases xs.len(),
{
    if xs.len() > 0 {
        lemma_trees_of(xs.drop_last());
    }
}

/// A first index under a key is the one `first_index` picks.
pub proof fn lemma_first_index(es: Entries, k: Seq<char>, i: int)
    requires
        is_first_index(es, k, i),
    ensures
        has_key(es, k),
        first_index(es, k) == i,
        value_at(es, k) == es[i].1,
{
    let j = first_index(es, k);
    assert(is_first_index(es, k, j));
    if j < i {
        assert(es[j].0 != k);
    } else if i < j {
        assert(es[i].0 != k);
    }
}

/// In a map whose keys are unique, each entry is the first under its key.
pub proof fn lemma_unique_lookup(es: Entries, i: int)
    requires
        keys_unique(es),
        0 <= i < es.len(),
    ensures
        has_key(es, es[i].0),
        first_index(es, es[i].0) == i,
        value_at(es, es[i].0) == es[i].1,
{
    assert(is_first_index(es, es[i].0, i));
    lemma_first_index(es, es[i].0, i);
}

/// In a map whose keys are unique, a key it holds has a first position.
pub proof fn lemma_unique_has_key(es: Entries, k: Seq<char>)
    requires
        keys_unique(es),
        has_key(es, k),
    ensures
        is_first_index(es, k, first_index(es, k)),
{
    let w = choose|i: int| 0 <= i < es.len() && es[i].0 == k;
    assert(is_first_index(es, k, w)) by {
        assert forall|j: int| 0 <= j < w implies es[j].0 != k by {
            assert(j != w);
        }
    }
    lemma_first_index(es, k, w);
}

/// Storing a value keeps the keys of a map unique.
pub proof fn lemma_insert_entry_unique(es: Entries, k: Seq<char>, v: Tree)
    requires
        keys_unique(es),
    ensures
        keys_unique(insert_entry(es, k, v)),
{
    if has_key(es, k) {
        let w = choose|i: int| 0 <= i < es.len() && es[i].0 == k;
        assert(is_first_index(es, k, w)) by {
            assert forall|j: int| 0 <= j < w implies es[j].0 != k by {
                assert(j != w);
            }
        }
        lemma_first_index(es, k, w);
    }
}

/// Structural equality is reflexive on well-formed values.
pub proof fn lemma_tree_eq_reflexive(t: Tree)
    requires
        tree_wf(t),
    ensures
        tree_eq(t, t),
    decreases t,
{
    match t {
        Tree::Scalar(_) => {},
        Tree::List(xs) => {
            assert forall|i: int| 0 <= i < xs.len() implies tree_eq(#[trigger] xs[i], xs[i]) by {
                assert(decreases_to!(t => t->List_0));
                assert(decreases_to!(xs => xs[i]));
                lemma_tree_eq_reflexive(xs[i]);
            }
        },
        Tree::Mapping(es) => {
            assert forall|i: int| 0 <= i < es.len() implies has_key(es, #[trigger] es[i].0)
                && tree_eq(es[i].1, value_at(es, es[i].0)) by {
                lemma_unique_lookup(es, i);
                assert(decreases_to!(t => t->Mapping_0));
                assert(decreases_to!(es => es[i]));
                assert(decreases_to!(es[i] => es[i].1));
                lemma_tree_eq_reflexive(es[i].1);
            }
        },
    }
}

/// The keys of a map, in entry order.
pub open spec fn keys_of(es: Entries) -> Seq<Seq<char>> {
    es.map_values(|e: (Seq<char>, Tree)| e.0)
}

/// Two maps with unique keys and as many entries, the keys of the first
/// all held by the second, hold the same keys.
pub proof fn lemma_same_keys(xs: Entries, ys: Entries)
    requires
        keys_unique(xs),
        keys_unique(ys),
        xs.len() == ys.len(),
        forall|i: int| 0 <= i < xs.len() ==> has_key(ys, #[trigger] xs[i].0),
    ensures
        forall|j: int| 0 <= j < ys.len() ==> has_key(xs, #[trigger] ys[j].0),
{
    broadcast use vstd::set::group_set_axioms, vstd::seq_lib::seq_to_set_is_finite;

    let kx = keys_of(xs);
    let ky = keys_of(ys);
    assert(kx.no_duplicates());
    assert(ky.no_duplicates());
    kx.unique_seq_to_set();
    ky.unique_seq_to_set();
    assert(kx.to_set().subset_of(ky.to_set())) by {
        assert forall|k: Seq<char>| kx.to_set().contains(k) implies ky.to_set().contains(k) by {
            assert(kx.contains(k));
            let i = choose|i: int| 0 <= i < kx.len() && kx[i] == k;
            assert(has_key(ys, xs[i].0));
            let j = choose|j: int| 0 <= j < ys.len() && ys[j].0 == xs[i].0;
            assert(ky[j] == k);
            assert(ky.contains(k));
        }
    }
    vstd::set_lib::lemma_subset_equality(kx.to_set(), ky.to_set());
    assert forall|j: int| 0 <= j < ys.len() implies has_key(xs, #[trigger] ys[j].0) by {
        assert(ky[j] == ys[j].0);
        assert(ky.contains(ys[j].0));
        assert(kx.to_set().contains(ys[j].0));
        assert(kx.contains(ys[j].0));
        let i = choose|i: int| 0 <= i < kx.len() && kx[i] == ys[j].0;
        assert(xs[i].0 == ys[j].0);
    }
}

/// Structural equality is symmetric on well-formed values.
pub proof fn lemma_tree_eq_symmetric(a: Tree, b: Tree)
    requires
        tree_wf(a),
        tree_wf(b),
        tree_eq(a, b),
    ensures
        tree_eq(b, a),
    decreases a,
{
    match a {
        Tree::Scalar(_) => {},
        Tree::List(xs) => {
            let ys = b->List_0;
            assert forall|i: int| 0 <= i < ys.len() implies tree_eq(#[trigger] ys[i], xs[i]) by {
                assert(decreases_to!(a => a->List_0));
                assert(decreases_to!(xs => xs[i]));
                lemma_tree_eq_symmetric(xs[i], ys[i]);
            }
        },
        Tree::Mapping(xs) => {
            let ys = b->Mapping_0;
            lemma_same_keys(xs, ys);
            assert forall|j: int| 0 <= j < ys.len() implies has_key(xs, #[trigger] ys[j].0)
                && tree_eq(ys[j].1, value_at(xs, ys[j].0)) by {
                let k = ys[j].0;
                lemma_unique_has_key(xs, k);
                let i = first_index(xs, k);
                lemma_unique_lookup(xs, i);
                lemma_unique_lookup(ys, j);
                assert(tree_eq(xs[i].1, value_at(ys, xs[i].0)));
                assert(decreases_to!(a => a->Mapping_0));
                assert(decreases_to!(xs => xs[i]));
                assert(decreases_to!(xs[i] => xs[i].1));
                lemma_tree_eq_symmetric(xs[i].1, ys[j].1);
            }
        },
    }
}

/// Structural equality is transitive on well-formed values.
pub proof fn lemma_tree_eq_transitive(a: Tree, b: Tree, c: Tree)
    requires
        tree_wf(a),
        tree_wf(b),
        tree_wf(c),
        tree_eq(a, b),
        tree_eq(b, c),
    ensures
        tree_eq(a, c),
    decreases a,
{
    match a {
        Tree::Scalar(_) => {},
        Tree::List(xs) => {
            let ys = b->List_0;
            let zs = c->List_0;
            assert forall|i: int| 0 <= i < xs.len() implies tree_eq(#[trigger] xs[i], zs[i]) by {
                assert(decreases_to!(a => a->List_0));
                assert(decreases_to!(xs => xs[i]));
                lemma_tree_eq_transitive(xs[i], ys[i], zs[i]);
            }
        },
        Tree::Mapping(xs) => {
            let ys = b->Mapping_0;
            let zs = c->Mapping_0;
            assert forall|i: int| 0 <= i < xs.len() implies has_key(zs, #[trigger] xs[i].0)
                && tree_eq(xs[i].1, value_at(zs, xs[i].0)) by {
                let k = xs[i].0;
                lemma_unique_has_key(ys, k);
                let j = first_index(ys, k);
                assert(has_key(zs, ys[j].0) && tree_eq(ys[j].1, value_at(zs, ys[j].0)));
                lemma_unique_has_key(zs, k);
                assert(tree_wf(value_at(zs, k)));
                assert(decreases_to!(a => a->Mapping_0));
                assert(decreases_to!(xs => xs[i]));
                assert(decreases_to!(xs[i] => xs[i].1));
                lemma_tree_eq_transitive(xs[i].1, ys[j].1, value_at(zs, k));
            }
        },
    }
}

impl NestedHashMap {
    /// The map holds each key once.
    pub open spec fn wf(&self) -> bool {
        keys_unique(self@)
    }

    /// An empty map.
    pub fn new() -> (r: NestedHashMap)
        ensures
            r@ == Seq::<(Seq<char>, Tree)>::empty(),
            r.wf(),
    {
        let r = NestedHashMap { entries: Vec::new() };
        r
    }

    /// The number of entries.
    pub fn len(&self) -> (n: usize)
        ensures
            n == self@.len(),
    {
        proof {
            lemma_entries_of(self.entries@);
        }
        self.entries.len()
    }

    /// Whether the map has no entry.
    pub fn is_empty(&self) -> (b: bool)
        ensures
            b == (self@.len() == 0),
    {
        self.len() == 0
    }

    /// The key and value of the `i`-th entry in insertion order.
    pub fn entry(&self, i: usize) -> (r: (&String, &NestedValue))
        requires
            i < self@.len(),
        ensures
            r.0@ == self@[i as int].0,
            r.1@ == self@[i as int].1,
    {
        proof {
            lemma_entries_of(self.entries@);
        }
        let e = &self.entries[i];
        (&e.0, &e.1)
    }

    /// The value stored under `key`, if any.
    pub fn get(&self, key: &String) -> (r: Option<&NestedValue>)
        ensures
            match r {
                Some(v) => has_key(self@, key@) && v@ == value_at(self@, key@),
                None => !has_key(self@, key@),
            },
    {
        proof {
            lemma_entries_of(self.entries@);
        }
        let mut i: usize = 0;
        while i < self.entries.len()
            invariant
                i <= self.entries@.len(),
                self@.len() == self.entries@.len(),
                forall|j: int| 0 <= j < self@.len() ==> #[trigger] self@[j] == (self.entries@[j].0@, tree_of(self.entries@[j].1)),
                forall|j: int| 0 <= j < i ==> self@[j].0 != key@,
            decreases self.entries@.len() - i,
        {
            if self.entries[i].0 == *key {
                proof {
                    assert(is_first_index(self@, key@, i as int));
                    lemma_first_index(self@, key@, i as int);
                }
                return Some(&self.entries[i].1);
            }
            i += 1;
        }
        None
    }

    /// Whether an entry is stored under `key`.
    pub fn contains_key(&self, key: &String) -> (b: bool)
        ensures
            b == has_key(self@, key@),
    {
        self.get(key).is_some()
    }

    /// Stores `value` under `key`: an entry already under `key` keeps its
    /// place and takes the new value; otherwise the entry is appended.
    pub fn insert(&mut self, key: String, value: NestedValue)
        ensures
            final(self)@ == insert_entry(old(self)@, key@, value@),
            old(self).wf() ==> final(self).wf(),
    {
        proof {
            lemma_entries_of(self.entries@);
            if old(self).wf() {
                lemma_insert_entry_unique(old(self)@, key@, value@);
            }
        }
        let ghost k = key@;
        let ghost v = value@;
        let mut i: usize = 0;
        while i < self.entries.len()
            invariant
                *self == *old(self),
                k == key@,
                v == value@,
                i <= self.entries@.len(),
                self@.len() == self.entries@.len(),
                forall|j: int| 0 <= j < self@.len() ==> #[trigger] self@[j] == (self.entries@[j].0@, tree_of(self.entries@[j].1)),
                forall|j: int| 0 <= j < i ==> self@[j].0 != k,
            decreases self.entries@.len() - i,
        {
            if self.entries[i].0 == key {
                proof {
                    assert(is_first_index(self@, k, i as int));
                    lemma_first_index(self@, k, i as int);
                }
                self.entries[i] = (key, value);
                proof {
                    lemma_entries_of(self.entries@);
                    assert(self@ =~= old(self)@.update(i as int, (k, v)));
                }
                return;
            }
            i += 1;
        }
        proof {
            assert(!has_key(self@, k));
        }
        self.entries.push((key, value));
        proof {
            lemma_entries_of(self.entries@);
            assert(self@ =~= old(self)@.push((k, v)));
        }
    }
}

/// Structural equality of two values, as `tree_eq` states it on their models.
pub fn values_equal(a: &NestedValue, b: &NestedValue) -> (r: bool)
    ensures
        r == tree_eq(a@, b@),
    decreases a@,
{
    match (a, b) {
        (NestedValue::Value(x), NestedValue::Value(y)) => *x == *y,
        (NestedValue::List(xs), NestedValue::List(ys)) => {
            proof {
                lemma_trees_of(xs@);
                lemma_trees_of(ys@);
            }
            if xs.len() != ys.len() {
                return false;
            }
            let ghost txs = trees_of(xs@);
            let ghost tys = trees_of(ys@);
            let mut i: usize = 0;
            while i < xs.len()
                invariant
                    i <= xs@.len(),
                    xs@.len() == ys@.len(),
                    a@ == Tree::List(txs),
                    b@ == Tree::List(tys),
                    txs.len() == xs@.len(),
                    tys.len() == ys@.len(),
                    forall|j: int| 0 <= j < xs@.len() ==> #[trigger] txs[j] == xs@[j]@,
                    forall|j: int| 0 <= j < ys@.len() ==> #[trigger] tys[j] == ys@[j]@,
                    forall|j: int| 0 <= j < i ==> tree_eq(#[trigger] txs[j], tys[j]),
                decreases xs@.len() - i,
            {
                proof {
                    assert(decreases_to!(a@ => a@->List_0));
                    assert(decreases_to!(txs => txs[i as int]));
                }
                if !values_equal(&xs[i], &ys[i]) {
                    assert(!tree_eq(txs[i as int], tys[i as int]));
                    return false;
                }
                i += 1;
            }
            true
        },
        (NestedValue::Mapping(ma), NestedValue::Mapping(mb)) => {
            if ma.len() != mb.len() {
                return false;
            }
            let mut i: usize = 0;
            while i < ma.len()
                invariant
                    i <= ma@.len(),
                    ma@.len() == mb@.len(),
                    a@ == Tree::Mapping(ma@),
                    b@ == Tree::Mapping(mb@),
                    forall|j: int|
                        0 <= j < i ==> has_key(mb@, #[trigger] ma@[j].0) && tree_eq(
                            ma@[j].1,
                            value_at(mb@, ma@[j].0),
                        ),
                decreases ma@.len() - i,
            {
                let (k, va) = ma.entry(i);
                proof {
                    assert(decreases_to!(a@ => a@->Mapping_0));
                    assert(decreases_to!(ma@ => ma@[i as int]));
                    assert(decreases_to!(ma@[i as int] => ma@[i as int].1));
                }
                match mb.get(k) {
                    None => {
                        return false;
                    },
                    Some(vb) => {
                        if !values_equal(va, vb) {
                            return false;
                        }
                    },
                }
                i += 1;
            }
            true
        },
        _ => false,
    }
}

/// A copy of `v` with the same model.
pub fn copy_value(v: &NestedValue) -> (r: NestedValue)
    ensures
        r@ == v@,
    decreases v@,
{
    match v {
        NestedValue::Value(s) => NestedValue::Value(s.clone()),
        NestedValue::List(xs) => {
            proof {
                lemma_trees_of(xs@);
            }
            let ghost txs = trees_of(xs@);
            let mut out: Vec<NestedValue> = Vec::new();
            let mut i: usize = 0;
            while i < xs.len()
                invariant
                    i <= xs@.len(),
                    out@.len() == i,
                    v@ == Tree::List(txs),
                    txs.len() == xs@.len(),
                    forall|j: int| 0 <= j < xs@.len() ==> #[trigger] txs[j] == xs@[j]@,
                    forall|j: int| 0 <= j < i ==> #[trigger] out@[j]@ == txs[j],
                decreases xs@.len() - i,
            {
                proof {
                    assert(decreases_to!(v@ => v@->List_0));
                    assert(decreases_to!(txs => txs[i as int]));
                }
                out.push(copy_value(&xs[i]));
                i += 1;
            }
            proof {
                lemma_trees_of(out@);
                assert forall|j: int| 0 <= j < txs.len() implies trees_of(out@)[j] == txs[j] by {
                    assert(out@[j]@ == txs[j]);
                }
                assert(trees_of(out@) =~= txs);
            }
            NestedValue::List(out)
        },
        NestedValue::Mapping(m) => {
            proof {
                assert(decreases_to!(v@ => v@->Mapping_0));
            }
            NestedValue::Mapping(copy_map(m))
        },
    }
}

/// A copy of `m` with the same model.
pub fn copy_map(m: &NestedHashMap) -> (r: NestedHashMap)
    ensures
        r@ == m@,
    decreases m@,
{
    proof {
        lemma_entries_of(m.entries@);
    }
    let mut out: Vec<(String, NestedValue)> = Vec::new();
    let mut i: usize = 0;
    while i < m.entries.len()
        invariant
            i <= m.entries@.len(),
            out@.len() == i,
            m@.len() == m.entries@.len(),
            forall|j: int| 0 <= j < m@.len() ==> #[trigger] m@[j] == (m.entries@[j].0@, tree_of(m.entries@[j].1)),
            forall|j: int| 0 <= j < i ==> (#[trigger] out@[j]).0@ == m@[j].0 && tree_of(out@[j].1) == m@[j].1,
        decreases m.entries@.len() - i,
    {
        let e = &m.entries[i];
        proof {
            assert(decreases_to!(m@ => m@[i as int]));
            assert(decreases_to!(m@[i as int] => m@[i as int].1));
        }
        out.push((e.0.clone(), copy_value(&e.1)));
        i += 1;
    }
    proof {
        lemma_entries_of(out@);
        assert(entries_of(out@) =~= m@);
    }
    NestedHashMap { entries: out }
}

impl Clone for NestedValue {
    fn clone(&self) -> (r: NestedValue)
        ensures
            r@ == self@,
    {
        copy_value(self)
    }
}

impl Clone for NestedHashMap {
    fn clone(&self) -> (r: NestedHashMap)
        ensures
            r@ == self@,
    {
        copy_map(self)
    }
}

} // verus!
