use vstd::prelude::*;

use crate::value::{
    first_index, has_key, insert_entry, keys_unique, lemma_insert_entry_unique, lemma_unique_has_key, tree_wf, trees_of,
    Entries, NestedHashMap, NestedValue, Tree,
};

verus! {

/// The mathematical model of a parsed YAML document.
pub enum YamlTree {
    Null,
    Bool(bool),
    Number(Seq<char>),
    Str(Seq<char>),
    Sequence(Seq<YamlTree>),
    Mapping(Seq<(YamlTree, YamlTree)>),
}

/// A parsed YAML document, as the parser hands it over: null, a boolean, a
/// number in the text the parser renders for it, a string, a sequence, or a
/// mapping whose keys are themselves documents.
#[derive(Debug)]
pub enum YamlValue {
    Null,
    Bool(bool),
    Number(String),
    Str(String),
    Sequence(Vec<YamlValue>),
    Mapping(Vec<(YamlValue, YamlValue)>),
}

/// The model of a document.
pub open spec fn yaml_of(v: YamlValue) -> YamlTree
    decreases v,
{
    match v {
        YamlValue::Null => YamlTree::Null,
        YamlValue::Bool(b) => YamlTree::Bool(b),
        YamlValue::Number(t) => YamlTree::Number(t@),
        YamlValue::Str(s) => YamlTree::Str(s@),
        YamlValue::Sequence(xs) => YamlTree::Sequence(yamls_of(xs@)),
        YamlValue::Mapping(es) => YamlTree::Mapping(yaml_pairs_of(es@)),
    }
}

/// The models of a sequence of documents.
pub open spec fn yamls_of(xs: Seq<YamlValue>) -> Seq<YamlTree>
    decreases xs,
{
    if xs.len() == 0 {
        Seq::empty()
    } else {
        yamls_of(xs.drop_last()).push(yaml_of(xs.last()))
    }
}

/// The models of a sequence of mapping entries.
pub open spec fn yaml_pairs_of(es: Seq<(YamlValue, YamlValue)>) -> Seq<(YamlTree, YamlTree)>
    decreases es,
{
    if es.len() == 0 {
        Seq::empty()
    } else {
        yaml_pairs_of(es.drop_last()).push((yaml_of(es.last().0), yaml_of(es.last().1)))
    }
}

impl View for YamlValue {
    type V = YamlTree;

    open spec fn view(&self) -> YamlTree {
        yaml_of(*self)
    }
}

/// One model per document of a sequence.
pub proof fn lemma_yamls_of(xs: Seq<YamlValue>)
    ensures
        yamls_of(xs).len() == xs.len(),
        forall|i: int| 0 <= i < xs.len() ==> #[trigger] yamls_of(xs)[i] == yaml_of(xs[i]),
    decreases xs.len(),
{
    if xs.len() > 0 {
        lemma_yamls_of(xs.drop_last());
    }
}

/// One model per entry of a sequence.
pub proof fn lemma_yaml_pairs_of(es: Seq<(YamlValue, YamlValue)>)
    ensures
        yaml_pairs_of(es).len() == es.len(),
        forall|i: int|
            0 <= i < es.len() ==> #[trigger] yaml_pairs_of(es)[i] == (
                yaml_of(es[i].0),
                yaml_of(es[i].1),
            ),
    decreases es.len(),
{
    if es.len() > 0 {
        lemma_yaml_pairs_of(es.drop_last());
    }
}

/// The canonical text of null.
pub open spec fn null_text() -> Seq<char> {
    seq!['n', 'u', 'l', 'l']
}

/// The canonical text of a boolean.
pub open spec fn bool_text(b: bool) -> Seq<char> {
    if b {
        seq!['t', 'r', 'u', 'e']
    } else {
        seq!['f', 'a', 'l', 's', 'e']
    }
}

/// The key under which a mapping entry is stored: a string key as it is,
/// any other key as the empty string.
pub open spec fn key_text(k: YamlTree) -> Seq<char> {
    match k {
        YamlTree::Str(s) => s,
        _ => Seq::empty(),
    }
}

/// The normalized value of a document: scalars become their canonical text,
/// sequences lists in the same order, mappings maps.
pub open spec fn normalized(y: YamlTree) -> Tree
    decreases y, 0nat,
{
    match y {
        YamlTree::Null => Tree::Scalar(null_text()),
        YamlTree::Bool(b) => Tree::Scalar(bool_text(b)),
        YamlTree::Number(t) => Tree::Scalar(t),
        YamlTree::Str(s) => Tree::Scalar(s),
        YamlTree::Sequence(xs) => Tree::List(normalized_list(xs, xs.len())),
        YamlTree::Mapping(es) => Tree::Mapping(normalized_entries(es, es.len())),
    }
}

/// The normalized values of the first `n` elements of `xs`.
pub open spec fn normalized_list(xs: Seq<YamlTree>, n: nat) -> Seq<Tree>
    decreases xs, n,
{
    if n == 0 || n > xs.len() {
        Seq::empty()
    } else {
        proof {
            assert(decreases_to!(xs => xs[n - 1]));
        }
        normalized_list(xs, (n - 1) as nat).push(normalized(xs[n - 1]))
    }
}

/// The map built by storing, in order, the first `n` entries of `es` under
/// their key texts; where two keys have the same text the later value wins.
pub open spec fn normalized_entries(es: Seq<(YamlTree, YamlTree)>, n: nat) -> Entries
    decreases es, n,
{
    if n == 0 || n > es.len() {
        Seq::empty()
    } else {
        proof {
            assert(decreases_to!(es => es[n - 1]));
            assert(decreases_to!(es[n - 1] => es[n - 1].1));
        }
        insert_entry(
            normalized_entries(es, (n - 1) as nat),
            key_text(es[n - 1].0),
            normalized(es[n - 1].1),
        )
    }
}

/// The root map of a document: its normalized mapping, or no entry at all
/// when the document is not a mapping.
pub open spec fn normalized_root(y: YamlTree) -> Entries {
    match y {
        YamlTree::Mapping(es) => normalized_entries(es, es.len()),
        _ => Seq::empty(),
    }
}

proof fn lemma_normalized_list_wf(xs: Seq<YamlTree>, n: nat)
    ensures
        normalized_list(xs, n).len() == if n <= xs.len() {
            n
        } else {
            0
        },
        forall|i: int|
            0 <= i < normalized_list(xs, n).len() ==> tree_wf(#[trigger] normalized_list(xs, n)[i]),
    decreases xs, n,
{
    if n > 0 && n <= xs.len() {
        lemma_normalized_list_wf(xs, (n - 1) as nat);
        assert(decreases_to!(xs => xs[n - 1]));
        lemma_normalized_wf(xs[n - 1]);
    }
}

proof fn lemma_normalized_entries_wf(es: Seq<(YamlTree, YamlTree)>, n: nat)
    ensures
        tree_wf(Tree::Mapping(normalized_entries(es, n))),
    decreases es, n,
{
    if n > 0 && n <= es.len() {
        let prev = normalized_entries(es, (n - 1) as nat);
        lemma_normalized_entries_wf(es, (n - 1) as nat);
        assert(decreases_to!(es => es[n - 1]));
        assert(decreases_to!(es[n - 1] => es[n - 1].1));
        lemma_normalized_wf(es[n - 1].1);
        let k = key_text(es[n - 1].0);
        let v = normalized(es[n - 1].1);
        lemma_insert_entry_unique(prev, k, v);
        let cur = insert_entry(prev, k, v);
        assert forall|i: int| 0 <= i < cur.len() implies tree_wf(#[trigger] cur[i].1) by {
            if has_key(prev, k) {
                lemma_unique_has_key(prev, k);
                if i != first_index(prev, k) {
                    assert(cur[i] == prev[i]);
                }
            } else if i < prev.len() {
                assert(cur[i] == prev[i]);
            }
        }
    }
}

/// Normalization yields well-formed values: every map, at any depth, holds
/// each key once.
pub proof fn lemma_normalized_wf(y: YamlTree)
    ensures
        tree_wf(normalized(y)),
    decreases y, 1nat,
{
    match y {
        YamlTree::Sequence(xs) => {
            assert(decreases_to!(y => y->Sequence_0));
            lemma_normalized_list_wf(xs, xs.len());
        },
        YamlTree::Mapping(es) => {
            assert(decreases_to!(y => y->Mapping_0));
            lemma_normalized_entries_wf(es, es.len());
        },
        _ => {},
    }
}

/// The root map of a document holds each key once, as does every map below
/// it.
pub proof fn lemma_document_root_wf(y: YamlTree)
    ensures
        tree_wf(Tree::Mapping(normalized_root(y))),
{
    match y {
        YamlTree::Mapping(es) => lemma_normalized_entries_wf(es, es.len()),
        _ => {},
    }
}

/// The key text of a mapping key.
fn key_string(k: &YamlValue) -> (r: String)
    ensures
        r@ == key_text(k@),
{
    match k {
        YamlValue::Str(s) => s.clone(),
        _ => String::new(),
    }
}

/// Normalizes a document into a value.
pub fn convert_yaml_value_to_nested_value(y: &YamlValue) -> (r: NestedValue)
    ensures
        r@ == normalized(y@),
    decreases y@,
{
    match y {
        YamlValue::Null => {
            proof {
                reveal_strlit("null");
                assert("null"@ =~= null_text());
            }
            NestedValue::Value("null".to_owned())
        },
        YamlValue::Bool(b) => {
            proof {
                reveal_strlit("true");
                reveal_strlit("false");
                assert("true"@ =~= bool_text(true));
                assert("false"@ =~= bool_text(false));
            }
            if *b {
                NestedValue::Value("true".to_owned())
            } else {
                NestedValue::Value("false".to_owned())
            }
        },
        YamlValue::Number(t) => NestedValue::Value(t.clone()),
        YamlValue::Str(s) => NestedValue::Value(s.clone()),
        YamlValue::Sequence(xs) => {
            proof {
                lemma_yamls_of(xs@);
            }
            let ghost ys = yamls_of(xs@);
            let mut out: Vec<NestedValue> = Vec::new();
            let mut i: usize = 0;
            while i < xs.len()
                invariant
                    i <= xs@.len(),
                    y@ == YamlTree::Sequence(ys),
                    ys.len() == xs@.len(),
                    forall|j: int| 0 <= j < xs@.len() ==> #[trigger] ys[j] == xs@[j]@,
                    trees_of(out@) == normalized_list(ys, i as nat),
                decreases xs@.len() - i,
            {
                proof {
                    assert(decreases_to!(y@ => y@->Sequence_0));
                    assert(decreases_to!(ys => ys[i as int]));
                }
                let v = convert_yaml_value_to_nested_value(&xs[i]);
                let ghost before = out@;
                out.push(v);
                proof {
                    assert(out@.drop_last() =~= before);
                }
                i += 1;
            }
            NestedValue::List(out)
        },
        YamlValue::Mapping(es) => {
            proof {
                lemma_yaml_pairs_of(es@);
            }
            NestedValue::Mapping(convert_entries(es))
        },
    }
}

/// The map of the normalized entries of a mapping.
fn convert_entries(es: &Vec<(YamlValue, YamlValue)>) -> (r: NestedHashMap)
    ensures
        r@ == normalized_entries(yaml_pairs_of(es@), es@.len()),
    decreases yaml_pairs_of(es@),
{
    proof {
        lemma_yaml_pairs_of(es@);
    }
    let ghost ps = yaml_pairs_of(es@);
    let mut map = NestedHashMap::new();
    let mut i: usize = 0;
    while i < es.len()
        invariant
            i <= es@.len(),
            ps == yaml_pairs_of(es@),
            ps.len() == es@.len(),
            forall|j: int| 0 <= j < es@.len() ==> #[trigger] ps[j] == (es@[j].0@, es@[j].1@),
            map@ == normalized_entries(ps, i as nat),
        decreases es@.len() - i,
    {
        proof {
            assert(decreases_to!(ps => ps[i as int]));
            assert(decreases_to!(ps[i as int] => ps[i as int].1));
        }
        let e = &es[i];
        let k = key_string(&e.0);
        let v = convert_yaml_value_to_nested_value(&e.1);
        map.insert(k, v);
        i += 1;
    }
    map
}

/// The root map of a document: its normalized mapping, or an empty map when
/// the document is not a mapping.
pub fn convert_yaml_value_to_nested_hash_map(y: &YamlValue) -> (r: NestedHashMap)
    ensures
        r@ == normalized_root(y@),
{
    match y {
        YamlValue::Mapping(es) => {
            proof {
                lemma_yaml_pairs_of(es@);
            }
            convert_entries(es)
        },
        _ => NestedHashMap::new(),
    }
}

#[verifier::external_type_specification]
#[verifier::external_body]
pub struct ExSerdeYamlValue(serde_yaml::Value);

#[verifier::external_type_specification]
#[verifier::external_body]
pub struct ExSerdeYamlError(serde_yaml::Error);

/// The document that serde_yaml reads from a text, or `None` where the text
/// is not valid YAML.
pub uninterp spec fn parsed_yaml(text: Seq<char>) -> Option<YamlTree>;

/// Relies on serde_yaml::from_str, read into serde_yaml::Value: whether a
/// text parses, and the document it gives, depend on the text alone.
#[verifier::external_body]
fn parse_yaml(text: &str) -> (r: Result<YamlValue, serde_yaml::Error>)
    ensures
        match r {
            Ok(v) => parsed_yaml(text@) == Some(v@),
            Err(_) => parsed_yaml(text@) is None,
        },
{
    match serde_yaml::from_str::<serde_yaml::Value>(text) {
        Ok(v) => Ok(yaml_value_of(&v)),
        Err(e) => Err(e),
    }
}

/// Converts a node of serde_yaml's document tree, and the nodes below it,
/// into `YamlValue`, variant for variant; a number takes the text that
/// serde_yaml::Number's Display gives it. Only `parse_yaml` calls it.
#[verifier::external_body]
fn yaml_value_of(v: &serde_yaml::Value) -> YamlValue {
    match v {
        serde_yaml::Value::Null => YamlValue::Null,
        serde_yaml::Value::Bool(b) => YamlValue::Bool(*b),
        serde_yaml::Value::Number(n) => YamlValue::Number(n.to_string()),
        serde_yaml::Value::String(s) => YamlValue::Str(s.clone()),
        serde_yaml::Value::Sequence(xs) => YamlValue::Sequence(xs.iter().map(yaml_value_of).collect()),
        serde_yaml::Value::Mapping(m) => YamlValue::Mapping(
            m.iter().map(|(k, x)| (yaml_value_of(k), yaml_value_of(x))).collect(),
        ),
    }
}

/// A text that is not valid YAML, with the parser's error.
#[derive(Debug)]
pub struct YamlError {
    pub cause: serde_yaml::Error,
}

/// The normalized root map of the document that `text` holds.
pub open spec fn document_root(text: Seq<char>) -> Option<Entries> {
    match parsed_yaml(text) {
        Some(y) => Some(normalized_root(y)),
        None => None,
    }
}

/// Parses a YAML text and normalizes its root map; a text whose document is
/// not a mapping gives an empty map.
pub fn yaml_string_to_nested_hash_map(yaml_content: &str) -> (r: Result<NestedHashMap, YamlError>)
    ensures
        match r {
            Ok(m) => document_root(yaml_content@) == Some(m@),
            Err(_) => document_root(yaml_content@) is None,
        },
{
    match parse_yaml(yaml_content) {
        Ok(v) => Ok(convert_yaml_value_to_nested_hash_map(&v)),
        Err(e) => Err(YamlError { cause: e }),
    }
}

} // verus!
