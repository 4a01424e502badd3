use vstd::prelude::*;

use crate::diff::{compare_yaml_strings, diff, lemma_texts_push, texts, Buckets, CompareError};
use crate::document::document_root;
use crate::models::{
    DiffBaseSchema, FileDiff, HttpCustomError, SerializableContent, SerializableContentItems,
};

verus! {

/// The path of the configuration file of a folder.
pub fn config_overrides_path(folder: &String) -> (r: String)
    ensures
        r@ == folder@ + "/config-overrides.yml"@,
{
    let mut r = folder.clone();
    r.append("/config-overrides.yml");
    r
}

/// The paths of the directories among `items`, in order.
pub open spec fn dir_paths_of(items: Seq<SerializableContent>) -> Seq<Seq<char>>
    decreases items.len(),
{
    if items.len() == 0 {
        Seq::empty()
    } else {
        let prev = dir_paths_of(items.drop_last());
        if items.last().item_type@ == "dir"@ {
            prev.push(items.last().path@)
        } else {
            prev
        }
    }
}

fn push_dir_paths(items: &Vec<SerializableContent>, out: &mut Vec<String>)
    ensures
        texts(final(out)@) == texts(old(out)@) + dir_paths_of(items@),
{
    let dir = "dir".to_owned();
    let mut i: usize = 0;
    while i < items.len()
        invariant
            i <= items@.len(),
            dir@ == "dir"@,
            texts(out@) == texts(old(out)@) + dir_paths_of(items@.take(i as int)),
        decreases items@.len() - i,
    {
        let item = &items[i];
        proof {
            assert(items@.take(i + 1).drop_last() =~= items@.take(i as int));
            lemma_texts_push(out@, item.path);
        }
        if item.item_type == dir {
            out.push(item.path.clone());
        }
        i += 1;
        proof {
            assert(texts(out@) =~= texts(old(out)@) + dir_paths_of(items@.take(i as int)));
        }
    }
    proof {
        assert(items@.take(items@.len() as int) =~= items@);
    }
}

/// The folders whose configurations are compared: the directories of the
/// first listing, then those of the second, in listing order.
pub fn config_folders(listing_a: &SerializableContentItems, listing_b: &SerializableContentItems) -> (r:
    Vec<String>)
    ensures
        texts(r@) == dir_paths_of(listing_a.items@) + dir_paths_of(listing_b.items@),
{
    let mut out: Vec<String> = Vec::new();
    proof {
        assert(texts(out@) =~= Seq::empty());
    }
    push_dir_paths(&listing_a.items, &mut out);
    push_dir_paths(&listing_b.items, &mut out);
    proof {
        assert(texts(out@) =~= dir_paths_of(listing_a.items@) + dir_paths_of(listing_b.items@));
    }
    out
}

/// Both documents hold the same configuration: nothing on one side only,
/// nothing changed, and at least one path the same.
pub open spec fn unchanged(d: Buckets) -> bool {
    &&& d.left_only.len() == 0
    &&& d.right_only.len() == 0
    &&& d.changed.len() == 0
    &&& d.same.len() > 0
}

/// The path stored in `left_not_right` when the second stack lacks the file.
pub open spec fn missing_marker() -> Seq<char> {
    seq!['/', '*']
}

/// `d` is a fresh record for `folder` of the two stacks: no identifier yet,
/// not reviewed, created and updated at `now`.
pub open spec fn fresh_record(
    d: FileDiff,
    stack_a: Seq<char>,
    stack_b: Seq<char>,
    folder: Seq<char>,
    now: i64,
) -> bool {
    &&& d.id is None
    &&& d.stack_a@ == stack_a
    &&& d.stack_b@ == stack_b
    &&& d.file@ == folder
    &&& d.reviewed matches Some(r) && r@ == "false"@
    &&& d.created_at == Some(now)
    &&& d.updated_at == Some(now)
}

fn fresh_file_diff(
    stack_a: &String,
    stack_b: &String,
    folder: &String,
    left_not_right: Vec<String>,
    right_not_left: Vec<String>,
    same_key_diff_value: Vec<String>,
    now: i64,
) -> (d: FileDiff)
    ensures
        fresh_record(d, stack_a@, stack_b@, folder@, now),
        d.left_not_right == left_not_right,
        d.right_not_left == right_not_left,
        d.same_key_diff_value == same_key_diff_value,
{
    FileDiff {
        id: None,
        stack_a: stack_a.clone(),
        stack_b: stack_b.clone(),
        file: folder.clone(),
        left_not_right,
        right_not_left,
        same_key_diff_value,
        reviewed: Some("false".to_owned()),
        created_at: Some(now),
        updated_at: Some(now),
    }
}

/// The record to store for one configuration folder of two stacks, given the
/// text of its configuration file in the first stack and, if the second stack
/// has the file, its text there. Without the second file the record lists
/// `/*` as present on the left only. With both, the texts are compared; an
/// unchanged configuration gives no record, any other outcome a record of the
/// paths on the left only, on the right only, and changed.
pub fn folder_file_diff(
    stack_a: &String,
    stack_b: &String,
    folder: &String,
    config_a: &str,
    config_b: Option<&str>,
    now: i64,
) -> (r: Result<Option<FileDiff>, CompareError>)
    ensures
        config_b is None ==> (r matches Ok(Some(d)) && fresh_record(
            d,
            stack_a@,
            stack_b@,
            folder@,
            now,
        ) && texts(d.left_not_right@) == seq![missing_marker()] && d.right_not_left@.len() == 0
            && d.same_key_diff_value@.len() == 0),
        config_b matches Some(b) ==> match r {
            Ok(None) => {
                &&& document_root(config_a@) is Some
                &&& document_root(b@) is Some
                &&& unchanged(diff(document_root(config_a@)->Some_0, document_root(b@)->Some_0))
            },
            Ok(Some(d)) => {
                let cmp = diff(document_root(config_a@)->Some_0, document_root(b@)->Some_0);
                &&& document_root(config_a@) is Some
                &&& document_root(b@) is Some
                &&& !unchanged(cmp)
                &&& fresh_record(d, stack_a@, stack_b@, folder@, now)
                &&& texts(d.left_not_right@) == cmp.left_only
                &&& texts(d.right_not_left@) == cmp.right_only
                &&& texts(d.same_key_diff_value@) == cmp.changed
            },
            Err(CompareError::InvalidA(_)) => document_root(config_a@) is None,
            Err(CompareError::InvalidB(_)) => {
                &&& document_root(config_a@) is Some
                &&& document_root(b@) is None
            },
        },
{
    match config_b {
        None => {
            let marker = "/*".to_owned();
            proof {
                reveal_strlit("/*");
                assert(marker@ =~= missing_marker());
            }
            let mut left: Vec<String> = Vec::new();
            left.push(marker);
            proof {
                assert(texts(left@) =~= seq![missing_marker()]);
            }
            Ok(Some(fresh_file_diff(stack_a, stack_b, folder, left, Vec::new(), Vec::new(), now)))
        },
        Some(b) => {
            let (left, right, same, changed) = compare_yaml_strings(config_a, b)?;
            if left.len() == 0 && right.len() == 0 && changed.len() == 0 && same.len() > 0 {
                Ok(None)
            } else {
                Ok(Some(fresh_file_diff(stack_a, stack_b, folder, left, right, changed, now)))
            }
        },
    }
}

/// The record stored for a comparison that a client sends: not reviewed yet,
/// created and updated at `now` (the times it carries are not kept).
pub fn new_file_diff(payload: DiffBaseSchema, now: i64) -> (r: FileDiff)
    ensures
        r.id is None,
        r.stack_a == payload.stack_a,
        r.stack_b == payload.stack_b,
        r.file == payload.file,
        r.left_not_right == payload.left_not_right,
        r.right_not_left == payload.right_not_left,
        r.same_key_diff_value == payload.same_key_diff_value,
        r.reviewed matches Some(s) && s@ == "false"@,
        r.created_at == Some(now),
        r.updated_at == Some(now),
{
    FileDiff {
        id: None,
        stack_a: payload.stack_a,
        stack_b: payload.stack_b,
        file: payload.file,
        left_not_right: payload.left_not_right,
        right_not_left: payload.right_not_left,
        same_key_diff_value: payload.same_key_diff_value,
        reviewed: Some("false".to_owned()),
        created_at: Some(now),
        updated_at: Some(now),
    }
}

/// The review flag after a flip: `"false"` becomes `"true"`, `"true"`
/// becomes `"false"`; any other flag, or none, cannot be flipped.
pub fn toggled_review(reviewed: &Option<String>) -> (r: Option<String>)
    ensures
        (reviewed matches Some(s) && s@ == "false"@) ==> (r matches Some(t) && t@ == "true"@),
        (reviewed matches Some(s) && s@ == "true"@) ==> (r matches Some(t) && t@ == "false"@),
        !(reviewed matches Some(s) && (s@ == "false"@ || s@ == "true"@)) ==> r is None,
{
    let no = "false".to_owned();
    let yes = "true".to_owned();
    proof {
        reveal_strlit("false");
        reveal_strlit("true");
        assert("false"@ != "true"@) by {
            assert("false"@.len() != "true"@.len());
        }
    }
    match reviewed {
        Some(s) => {
            if *s == no {
                Some(yes)
            } else if *s == yes {
                Some(no)
            } else {
                None
            }
        },
        None => None,
    }
}

/// The later of two optional times; a missing time is earlier than any.
pub open spec fn later(a: Option<i64>, b: Option<i64>) -> Option<i64> {
    match a {
        None => b,
        Some(x) => match b {
            None => Some(x),
            Some(y) => if y > x {
                Some(y)
            } else {
                Some(x)
            },
        },
    }
}

/// The latest creation time among `s`, if any record has one.
pub open spec fn latest_time(s: Seq<FileDiff>) -> Option<i64>
    decreases s.len(),
{
    if s.len() == 0 {
        None
    } else {
        later(latest_time(s.drop_last()), s.last().created_at)
    }
}

/// The records created at time `t`.
pub open spec fn created_at_time(t: i64) -> spec_fn(FileDiff) -> bool {
    |d: FileDiff| d.created_at == Some(t)
}

/// Keeps, in their order, the records created at the latest creation time
/// among `diffs`. No record is an error (404); records none of which has a
/// creation time are an error too (500).
pub fn latest_diffs(diffs: Vec<FileDiff>) -> (r: Result<Vec<FileDiff>, HttpCustomError>)
    ensures
        diffs@.len() == 0 ==> (r matches Err(e) && e.status == 404),
        diffs@.len() > 0 && latest_time(diffs@) is None ==> (r matches Err(e) && e.status == 500),
        latest_time(diffs@) matches Some(t) ==> (r matches Ok(v) && v@ == diffs@.filter(
            created_at_time(t),
        )),
{
    if diffs.len() == 0 {
        return Err(
            HttpCustomError { status: 404, message: "Couldn't get diff for these stacks".to_owned() },
        );
    }
    let mut latest: Option<i64> = None;
    let mut i: usize = 0;
    while i < diffs.len()
        invariant
            i <= diffs@.len(),
            latest == latest_time(diffs@.take(i as int)),
        decreases diffs@.len() - i,
    {
        proof {
            assert(diffs@.take(i + 1).drop_last() =~= diffs@.take(i as int));
        }
        let c = diffs[i].created_at;
        latest = match latest {
            None => c,
            Some(x) => match c {
                None => Some(x),
                Some(y) => if y > x {
                    Some(y)
                } else {
                    Some(x)
                },
            },
        };
        i += 1;
    }
    proof {
        assert(diffs@.take(diffs@.len() as int) =~= diffs@);
    }
    let t = match latest {
        None => {
            return Err(
                HttpCustomError {
                    status: 500,
                    message: "No comparison has a creation date".to_owned(),
                },
            );
        },
        Some(t) => t,
    };
    let ghost orig = diffs@;
    proof {
        reveal(Seq::filter);
        assert(orig.take(0).filter(created_at_time(t)) =~= Seq::<FileDiff>::empty());
    }
    let mut rest = diffs;
    let mut out: Vec<FileDiff> = Vec::new();
    let mut k: usize = 0;
    while rest.len() > 0
        invariant
            k <= orig.len(),
            orig.len() <= usize::MAX,
            rest@ == orig.skip(k as int),
            out@ == orig.take(k as int).filter(created_at_time(t)),
        decreases rest@.len(),
    {
        let ghost s1 = orig.take(k + 1);
        proof {
            assert(s1.drop_last() =~= orig.take(k as int));
            assert(s1.last() == orig[k as int]);
        }
        let d = rest.remove(0);
        let keep = match d.created_at {
            Some(c) => c == t,
            None => false,
        };
        proof {
            reveal(Seq::filter);
            assert(d == orig[k as int]);
            assert(created_at_time(t)(d) == keep);
            assert(s1.filter(created_at_time(t)) == if keep {
                orig.take(k as int).filter(created_at_time(t)).push(d)
            } else {
                orig.take(k as int).filter(created_at_time(t))
            });
        }
        if keep {
            out.push(d);
        }
        k += 1;
        proof {
            assert(rest@ =~= orig.skip(k as int));
        }
    }
    proof {
        assert(orig.take(k as int) =~= orig);
    }
    Ok(out)
}

} // verus!
