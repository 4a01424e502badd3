use vstd::prelude::*;

use crate::document::{document_root, yaml_string_to_nested_hash_map, YamlError};
use crate::value::{
    has_key, tree_eq, value_at, values_equal, Entries, NestedHashMap, NestedValue, Tree,
};

verus! {

/// Where a key present on both sides goes at its level.
#[derive(PartialEq, Eq, Structural)]
pub enum KeyClass {
    /// Equal values, or two empty maps.
    Same,
    /// Different values, or values of different kinds.
    Changed,
    /// Two maps, not both empty: compared key by key one level down.
    Descend,
}

/// The four path sequences of a comparison.
pub struct Buckets {
    pub left_only: Seq<Seq<char>>,
    pub right_only: Seq<Seq<char>>,
    pub same: Seq<Seq<char>>,
    pub changed: Seq<Seq<char>>,
}

pub open spec fn no_paths() -> Buckets {
    Buckets {
        left_only: Seq::empty(),
        right_only: Seq::empty(),
        same: Seq::empty(),
        changed: Seq::empty(),
    }
}

/// Each sequence of `x` followed by the matching sequence of `y`.
pub open spec fn concat(x: Buckets, y: Buckets) -> Buckets {
    Buckets {
        left_only: x.left_only + y.left_only,
        right_only: x.right_only + y.right_only,
        same: x.same + y.same,
        changed: x.changed + y.changed,
    }
}

/// The path of key `k` below `prefix`; the root's prefix is empty.
pub open spec fn child_path(prefix: Seq<char>, k: Seq<char>) -> Seq<char> {
    prefix + seq!['/'] + k
}

/// How a key present on both sides, with values `a` and `b`, is classified.
pub open spec fn classify(a: Tree, b: Tree) -> KeyClass {
    match a {
        Tree::Mapping(x) => match b {
            Tree::Mapping(y) => if x.len() == 0 && y.len() == 0 {
                KeyClass::Same
            } else {
                KeyClass::Descend
            },
            _ => KeyClass::Changed,
        },
        Tree::List(_) => if b is List && tree_eq(a, b) {
            KeyClass::Same
        } else {
            KeyClass::Changed
        },
        Tree::Scalar(x) => if b matches Tree::Scalar(y) && x == y {
            KeyClass::Same
        } else {
            KeyClass::Changed
        },
    }
}

/// The level classification of the first `n` keys of `xs` against `ys`:
/// their paths in `left_only`, `same` and `changed`, in the order of `xs`.
pub open spec fn left_level(prefix: Seq<char>, xs: Entries, ys: Entries, n: nat) -> Buckets
    decreases n,
{
    if n == 0 {
        no_paths()
    } else {
        let prev = left_level(prefix, xs, ys, (n - 1) as nat);
        let k = xs[n - 1].0;
        let path = child_path(prefix, k);
        if !has_key(ys, k) {
            Buckets { left_only: prev.left_only.push(path), ..prev }
        } else {
            match classify(xs[n - 1].1, value_at(ys, k)) {
                KeyClass::Same => Buckets { same: prev.same.push(path), ..prev },
                KeyClass::Changed => Buckets { changed: prev.changed.push(path), ..prev },
                KeyClass::Descend => prev,
            }
        }
    }
}

/// The paths of the keys among the first `n` of `ys` that `xs` lacks, in the
/// order of `ys`.
pub open spec fn right_level(prefix: Seq<char>, xs: Entries, ys: Entries, n: nat) -> Seq<Seq<char>>
    decreases n,
{
    if n == 0 {
        Seq::empty()
    } else {
        let prev = right_level(prefix, xs, ys, (n - 1) as nat);
        let k = ys[n - 1].0;
        if has_key(xs, k) {
            prev
        } else {
            prev.push(child_path(prefix, k))
        }
    }
}

/// Whether key `k` of `xs` (with value `v`) is compared one level down.
pub open spec fn descends(xs: Entries, ys: Entries, k: Seq<char>, v: Tree) -> bool {
    has_key(ys, k) && classify(v, value_at(ys, k)) == KeyClass::Descend
}

/// The results of comparing, in the order of `xs`, the pairs of maps under
/// the first `n` keys of `xs` that descend.
pub open spec fn below_level(prefix: Seq<char>, xs: Entries, ys: Entries, n: nat) -> Buckets
    decreases xs, n,
{
    if n == 0 || n > xs.len() {
        no_paths()
    } else {
        let prev = below_level(prefix, xs, ys, (n - 1) as nat);
        let e = xs[n - 1];
        if descends(xs, ys, e.0, e.1) {
            proof {
                assert(decreases_to!(xs => xs[n - 1]));
                assert(decreases_to!(xs[n - 1] => xs[n - 1].1));
                assert(decreases_to!(xs[n - 1].1 => xs[n - 1].1->Mapping_0));
            }
            concat(
                prev,
                diff_of(child_path(prefix, e.0), e.1->Mapping_0, value_at(ys, e.0)->Mapping_0),
            )
        } else {
            prev
        }
    }
}

/// The comparison of the maps with entries `xs` and `ys` found at path
/// `prefix`: first the classification of this level's keys (with the keys of
/// `ys` that `xs` lacks in `right_only`), then the comparisons of the pairs
/// of non-empty maps found under shared keys, in the order of `xs`.
pub open spec fn diff_of(prefix: Seq<char>, xs: Entries, ys: Entries) -> Buckets
    decreases xs, xs.len() + 1,
{
    let level = left_level(prefix, xs, ys, xs.len());
    concat(
        Buckets { right_only: right_level(prefix, xs, ys, ys.len()), ..level },
        below_level(prefix, xs, ys, xs.len()),
    )
}

/// The comparison of two documents' root maps.
pub open spec fn diff(xs: Entries, ys: Entries) -> Buckets {
    diff_of(Seq::empty(), xs, ys)
}

/// The level classification of a map's own keys puts nothing in `right_only`.
proof fn lemma_left_level_no_right(prefix: Seq<char>, xs: Entries, ys: Entries, n: nat)
    ensures
        left_level(prefix, xs, ys, n).right_only == Seq::<Seq<char>>::empty(),
    decreases n,
{
    if n > 0 {
        lemma_left_level_no_right(prefix, xs, ys, (n - 1) as nat);
    }
}

/// The texts of a sequence of strings.
pub open spec fn texts(v: Seq<String>) -> Seq<Seq<char>> {
    v.map_values(|s: String| s@)
}

/// The texts of a sequence after a push.
pub proof fn lemma_texts_push(v: Seq<String>, s: String)
    ensures
        texts(v.push(s)) == texts(v).push(s@),
{
    assert(texts(v.push(s)) =~= texts(v).push(s@));
}

/// The four path lists that a comparison fills.
pub struct PathLists {
    pub left_only: Vec<String>,
    pub right_only: Vec<String>,
    pub same: Vec<String>,
    pub changed: Vec<String>,
}

impl View for PathLists {
    type V = Buckets;

    open spec fn view(&self) -> Buckets {
        Buckets {
            left_only: texts(self.left_only@),
            right_only: texts(self.right_only@),
            same: texts(self.same@),
            changed: texts(self.changed@),
        }
    }
}

/// The path of `key` below `prefix`.
pub fn make_child_path(prefix: &String, key: &String) -> (r: String)
    ensures
        r@ == child_path(prefix@, key@),
{
    let mut r = prefix.clone();
    r.append("/");
    r.append(key.as_str());
    proof {
        reveal_strlit("/");
    }
    r
}

/// The classification of a key whose values are `a` and `b`.
pub fn classify_values(a: &NestedValue, b: &NestedValue) -> (c: KeyClass)
    ensures
        c == classify(a@, b@),
{
    match (a, b) {
        (NestedValue::Mapping(x), NestedValue::Mapping(y)) => {
            if x.is_empty() && y.is_empty() {
                KeyClass::Same
            } else {
                KeyClass::Descend
            }
        },
        (NestedValue::List(_), NestedValue::List(_)) => {
            if values_equal(a, b) {
                KeyClass::Same
            } else {
                KeyClass::Changed
            }
        },
        (NestedValue::Value(x), NestedValue::Value(y)) => {
            if *x == *y {
                KeyClass::Same
            } else {
                KeyClass::Changed
            }
        },
        _ => KeyClass::Changed,
    }
}

/// Appends to `out` the comparison of maps `a` and `b` found at `prefix`.
fn diff_into(prefix: &String, a: &NestedHashMap, b: &NestedHashMap, out: &mut PathLists)
    ensures
        final(out)@ == concat(old(out)@, diff_of(prefix@, a@, b@)),
    decreases a@,
{
    let ghost p = prefix@;
    let n = a.len();
    let mut i: usize = 0;
    while i < n
        invariant
            n == a@.len(),
            i <= n,
            p == prefix@,
            out@ == concat(
                old(out)@,
                left_level(p, a@, b@, i as nat),
            ),
        decreases n - i,
    {
        let (k, va) = a.entry(i);
        let path = make_child_path(prefix, k);
        proof {
            lemma_texts_push(out.left_only@, path);
            lemma_texts_push(out.same@, path);
            lemma_texts_push(out.changed@, path);
        }
        match b.get(k) {
            None => {
                out.left_only.push(path);
            },
            Some(vb) => {
                match classify_values(va, vb) {
                    KeyClass::Same => {
                        out.same.push(path);
                    },
                    KeyClass::Changed => {
                        out.changed.push(path);
                    },
                    KeyClass::Descend => {},
                }
            },
        }
        i += 1;
        proof {
            assert(out@.left_only =~= old(out)@.left_only + left_level(p, a@, b@, i as nat).left_only);
            assert(out@.same =~= old(out)@.same + left_level(p, a@, b@, i as nat).same);
            assert(out@.changed =~= old(out)@.changed + left_level(p, a@, b@, i as nat).changed);
        }
    }
    let ghost after_left = out@;
    let m = b.len();
    let mut j: usize = 0;
    while j < m
        invariant
            m == b@.len(),
            j <= m,
            p == prefix@,
            out@ == (Buckets {
                right_only: after_left.right_only + right_level(p, a@, b@, j as nat),
                ..after_left
            }),
        decreases m - j,
    {
        let (k, _) = b.entry(j);
        if !a.contains_key(k) {
            let path = make_child_path(prefix, k);
            proof {
                lemma_texts_push(out.right_only@, path);
            }
            out.right_only.push(path);
        }
        j += 1;
        proof {
            assert(out@.right_only =~= after_left.right_only + right_level(p, a@, b@, j as nat));
        }
    }
    let ghost after_level = out@;
    proof {
        let lv = left_level(p, a@, b@, a@.len());
        let rv = right_level(p, a@, b@, b@.len());
        lemma_left_level_no_right(p, a@, b@, a@.len());
        assert(after_level.right_only =~= old(out)@.right_only + rv);
        assert(after_level == concat(old(out)@, Buckets { right_only: rv, ..lv }));
    }
    let mut i: usize = 0;
    while i < n
        invariant
            n == a@.len(),
            i <= n,
            p == prefix@,
            out@ == concat(after_level, below_level(p, a@, b@, i as nat)),
        decreases n - i,
    {
        let (k, va) = a.entry(i);
        if let Some(vb) = b.get(k) {
            match (va, vb) {
                (NestedValue::Mapping(ma), NestedValue::Mapping(mb)) => {
                    if !(ma.is_empty() && mb.is_empty()) {
                        let path = make_child_path(prefix, k);
                        proof {
                            assert(decreases_to!(a@ => a@[i as int]));
                            assert(decreases_to!(a@[i as int] => a@[i as int].1));
                            assert(decreases_to!(a@[i as int].1 => a@[i as int].1->Mapping_0));
                        }
                        diff_into(&path, ma, mb, out);
                    }
                },
                _ => {},
            }
        }
        i += 1;
        proof {
            let want = concat(after_level, below_level(p, a@, b@, i as nat));
            assert(out@.left_only =~= want.left_only);
            assert(out@.right_only =~= want.right_only);
            assert(out@.same =~= want.same);
            assert(out@.changed =~= want.changed);
        }
    }
    proof {
        let want = concat(old(out)@, diff_of(p, a@, b@));
        assert(out@.left_only =~= want.left_only);
        assert(out@.right_only =~= want.right_only);
        assert(out@.same =~= want.same);
        assert(out@.changed =~= want.changed);
    }
}

/// Compares two root maps: the paths present only in `dict_a`, only in
/// `dict_b`, in both with the same value, and in both with different values.
pub fn compare_dicts(dict_a: &NestedHashMap, dict_b: &NestedHashMap) -> (r: (
    Vec<String>,
    Vec<String>,
    Vec<String>,
    Vec<String>,
))
    ensures
        texts(r.0@) == diff(dict_a@, dict_b@).left_only,
        texts(r.1@) == diff(dict_a@, dict_b@).right_only,
        texts(r.2@) == diff(dict_a@, dict_b@).same,
        texts(r.3@) == diff(dict_a@, dict_b@).changed,
{
    let mut out = PathLists {
        left_only: Vec::new(),
        right_only: Vec::new(),
        same: Vec::new(),
        changed: Vec::new(),
    };
    let root = String::new();
    proof {
        assert(out@.left_only =~= Seq::empty());
        assert(out@.right_only =~= Seq::empty());
        assert(out@.same =~= Seq::empty());
        assert(out@.changed =~= Seq::empty());
    }
    diff_into(&root, dict_a, dict_b, &mut out);
    proof {
        let d = diff(dict_a@, dict_b@);
        assert(out@.left_only =~= d.left_only);
        assert(out@.right_only =~= d.right_only);
        assert(out@.same =~= d.same);
        assert(out@.changed =~= d.changed);
    }
    (out.left_only, out.right_only, out.same, out.changed)
}

/// Why two YAML texts could not be compared.
#[derive(Debug)]
pub enum CompareError {
    /// The first text is not valid YAML.
    InvalidA(YamlError),
    /// The first text parses but the second is not valid YAML.
    InvalidB(YamlError),
}

/// Parses two YAML texts and compares their root maps.
pub fn compare_yaml_strings(yaml_a_content: &str, yaml_b_content: &str) -> (r: Result<
    (Vec<String>, Vec<String>, Vec<String>, Vec<String>),
    CompareError,
>)
    ensures
        match r {
            Ok(t) => {
                &&& document_root(yaml_a_content@) is Some
                &&& document_root(yaml_b_content@) is Some
                &&& texts(t.0@) == diff(
                    document_root(yaml_a_content@)->Some_0,
                    document_root(yaml_b_content@)->Some_0,
                ).left_only
                &&& texts(t.1@) == diff(
                    document_root(yaml_a_content@)->Some_0,
                    document_root(yaml_b_content@)->Some_0,
                ).right_only
                &&& texts(t.2@) == diff(
                    document_root(yaml_a_content@)->Some_0,
                    document_root(yaml_b_content@)->Some_0,
                ).same
                &&& texts(t.3@) == diff(
                    document_root(yaml_a_content@)->Some_0,
                    document_root(yaml_b_content@)->Some_0,
                ).changed
            },
            Err(CompareError::InvalidA(_)) => document_root(yaml_a_content@) is None,
            Err(CompareError::InvalidB(_)) => {
                &&& document_root(yaml_a_content@) is Some
                &&& document_root(yaml_b_content@) is None
            },
        },
{
    let dict_a = match yaml_string_to_nested_hash_map(yaml_a_content) {
        Ok(m) => m,
        Err(e) => {
            return Err(CompareError::InvalidA(e));
        },
    };
    let dict_b = match yaml_string_to_nested_hash_map(yaml_b_content) {
        Ok(m) => m,
        Err(e) => {
            return Err(CompareError::InvalidB(e));
        },
    };
    Ok(compare_dicts(&dict_a, &dict_b))
}

} // verus!
