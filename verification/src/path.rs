//! The path navigator: resolving a dotted path string to a node of the
//! tree, immutably or mutably, in an optional and a panicking flavor.

use crate::model::{
    first_key_index, lemma_first_key_index, lemma_same_tree_is_eq, lemma_step_update_self,
    lemma_update_at_step, resolve, same_tree, spec_split, step, step_update, update_at, ValueModel,
};
use crate::segment::{parse_index, seg_views, split_path};
use crate::value::{
    entry_models, lemma_entry_models, lemma_m_mapping, lemma_m_sequence,
    lemma_mapping_step_models, lemma_seq_models, lemma_sequence_step_models, seq_models, Value,
};
use vstd::prelude::*;

verus! {

broadcast use
    lemma_seq_models,
    lemma_entry_models,
    lemma_same_tree_is_eq,
    lemma_update_at_step,
    lemma_step_update_self,
    lemma_m_mapping,
    lemma_m_sequence,
    lemma_mapping_step_models,
    lemma_sequence_step_models;

/// Whether `k` is the string key whose characters are those of `seg`.
fn key_is(k: &Value, seg: &String) -> (r: bool)
    ensures
        r == (k.m() == ValueModel::Str(seg@)),
{
    match k {
        Value::String(s) => *s == *seg,
        Value::Null => false,
        Value::Bool(_) => false,
        Value::Number(_) => false,
        Value::Sequence(_) => false,
        Value::Mapping(_) => false,
    }
}

/// Position of the first entry of `entries` whose key is the string
/// `seg`, if any.
pub(crate) fn find_key(entries: &Vec<(Value, Value)>, seg: &String) -> (r: Option<usize>)
    ensures
        match r {
            Some(j) => 0 <= j < entries@.len() && first_key_index(
                entry_models(entries@),
                ValueModel::Str(seg@),
            ) == Some(j as int),
            None => first_key_index(entry_models(entries@), ValueModel::Str(seg@)) is None,
        },
{
    let ghost key = ValueModel::Str(seg@);
    let ghost ems = entry_models(entries@);
    let mut j: usize = 0;
    while j < entries.len()
        invariant
            0 <= j <= entries@.len(),
            key == ValueModel::Str(seg@),
            ems == entry_models(entries@),
            forall|t: int| 0 <= t < j ==> (#[trigger] ems[t]).0 != key,
        decreases entries@.len() - j,
    {
        if key_is(&entries[j].0, seg) {
            proof {
                lemma_first_key_index(ems, key);
                match first_key_index(ems, key) {
                    Some(i) => {
                        if i < j {
                            assert(ems[i].0 != key);
                        }
                    },
                    None => {
                        assert(ems[j as int].0 != key);
                    },
                }
            }
            return Some(j);
        }
        j += 1;
    }
    proof {
        lemma_first_key_index(ems, key);
        match first_key_index(ems, key) {
            Some(i) => {
                assert(ems[i].0 != key);
            },
            None => {},
        }
    }
    None
}

/// One resolution step on a borrowed node: the child that `seg` selects,
/// as [`step`] describes it.
fn step_in<'a>(v: &'a Value, seg: &String) -> (r: Option<&'a Value>)
    ensures
        match r {
            Some(c) => step(v.m(), seg@) == Some(c.m()),
            None => step(v.m(), seg@) is None,
        },
{
    match v {
        Value::Mapping(entries) => match find_key(entries, seg) {
            Some(j) => {
                proof {
                    lemma_entry_models(entries@);
                }
                Some(&entries[j].1)
            },
            None => None,
        },
        Value::Sequence(items) => {
            proof {
                lemma_seq_models(items@);
            }
            match parse_index(seg.as_str()) {
                Some(idx) => if idx < items.len() {
                    Some(&items[idx])
                } else {
                    None
                },
                None => None,
            }
        },
        Value::Null => None,
        Value::Bool(_) => None,
        Value::Number(_) => None,
        Value::String(_) => None,
    }
}

/// One resolution step on a mutably borrowed node: the child that `seg`
/// selects, as [`step`] describes it.  The only change a caller can make
/// to `*v` is through the returned borrow, and [`step_update`] says what
/// that change amounts to.
fn step_mut<'a>(v: &'a mut Value, seg: &String) -> (r: Option<&'a mut Value>)
    ensures
        r is Some ==> step(old(v).m(), seg@) == Some((*r.unwrap()).m()) && same_tree(
            (*final(v)).m(),
            step_update(old(v).m(), seg@, (*final(r.unwrap())).m()),
        ),
        r is None ==> step(old(v).m(), seg@) is None && same_tree((*final(v)).m(), old(v).m()),
{
    match v {
        Value::Mapping(entries) => {
            proof {
                lemma_entry_models(entries@);
            }
            match find_key(entries, seg) {
                Some(j) => Some(&mut entries[j].1),
                None => None,
            }
        },
        Value::Sequence(items) => {
            proof {
                lemma_seq_models(items@);
            }
            match parse_index(seg.as_str()) {
                Some(idx) => if idx < items.len() {
                    Some(&mut items[idx])
                } else {
                    None
                },
                None => None,
            }
        },
        Value::Null => None,
        Value::Bool(_) => None,
        Value::Number(_) => None,
        Value::String(_) => None,
    }
}

/// Mutable descent from `v` along the segments from position `i` on:
/// hands back a mutable borrow of the resolved node, so that the only
/// change the caller can make to `*v` is through that borrow.  On
/// failure nothing is changed.
fn descend_mut<'a>(v: &'a mut Value, segs: &Vec<String>, i: usize) -> (r: Option<&'a mut Value>)
    requires
        i <= segs@.len(),
    ensures
        r is Some ==> resolve(old(v).m(), seg_views(segs@).skip(i as int)) == Some(
            (*r.unwrap()).m(),
        ) && same_tree(
            (*final(v)).m(),
            update_at(old(v).m(), seg_views(segs@).skip(i as int), (*final(r.unwrap())).m()),
        ),
        r is None ==> resolve(old(v).m(), seg_views(segs@).skip(i as int)) is None && same_tree(
            (*final(v)).m(),
            old(v).m(),
        ),
    decreases segs@.len() - i,
{
    let ghost tail = seg_views(segs@).skip(i as int);
    if i == segs.len() {
        proof {
            assert(tail =~= Seq::<Seq<char>>::empty());
        }
        return Some(v);
    }
    proof {
        assert(tail[0] == segs@[i as int]@);
        assert(tail.drop_first() =~= seg_views(segs@).skip(i + 1));
    }
    let seg = &segs[i];
    match step_mut(v, seg) {
        Some(child) => descend_mut(child, segs, i + 1),
        None => None,
    }
}

impl Value {
    /// Resolves `path` against this node, read-optional flavor: the node
    /// the segments select, or `None` as soon as one segment fails to
    /// resolve.  No part of the tree is changed.
    pub fn get_path<'a>(&'a self, path: &str) -> (r: Option<&'a Value>)
        ensures
            match r {
                Some(node) => resolve(self.m(), spec_split(path@)) == Some(node.m()),
                None => resolve(self.m(), spec_split(path@)) is None,
            },
    {
        let segs = split_path(path);
        let mut cur: &Value = self;
        let mut i: usize = 0;
        proof {
            assert(seg_views(segs@).skip(0) =~= seg_views(segs@));
        }
        while i < segs.len()
            invariant
                0 <= i <= segs@.len(),
                seg_views(segs@) == spec_split(path@),
                resolve(cur.m(), seg_views(segs@).skip(i as int)) == resolve(
                    self.m(),
                    spec_split(path@),
                ),
            decreases segs@.len() - i,
        {
            let ghost tail = seg_views(segs@).skip(i as int);
            proof {
                assert(tail[0] == segs@[i as int]@);
                assert(tail.drop_first() =~= seg_views(segs@).skip(i + 1));
            }
            match step_in(cur, &segs[i]) {
                Some(c) => {
                    cur = c;
                },
                None => {
                    return None;
                },
            }
            i += 1;
        }
        proof {
            assert(seg_views(segs@).skip(segs@.len() as int) =~= Seq::<Seq<char>>::empty());
        }
        Some(cur)
    }

    /// Resolves `path` against this node, read flavor for callers that
    /// already know the path exists: the path is required to resolve.
    pub fn path<'a>(&'a self, path: &str) -> (r: &'a Value)
        requires
            resolve(self.m(), spec_split(path@)) is Some,
        ensures
            Some(r.m()) == resolve(self.m(), spec_split(path@)),
    {
        match self.get_path(path) {
            Some(node) => node,
            None => unreached(),
        }
    }

    /// Resolves `path` against this node for writing, write-optional
    /// flavor: a mutable borrow of the resolved node, or `None` as soon
    /// as one segment fails to resolve.  On failure nothing is changed;
    /// on success the only change a caller can make to the tree is
    /// through the returned borrow, and the whole tree afterwards is the
    /// old tree with exactly that node replaced.
    pub fn get_path_mut<'a>(&'a mut self, path: &str) -> (r: Option<&'a mut Value>)
        ensures
            r is Some ==> resolve(old(self).m(), spec_split(path@)) == Some((*r.unwrap()).m())
                && (*final(self)).m() == update_at(
                old(self).m(),
                spec_split(path@),
                (*final(r.unwrap())).m(),
            ),
            r is None ==> resolve(old(self).m(), spec_split(path@)) is None && (*final(self)).m()
                == old(self).m(),
    {
        let segs = split_path(path);
        proof {
            assert(seg_views(segs@).skip(0) =~= seg_views(segs@));
        }
        descend_mut(self, &segs, 0)
    }

    /// Resolves `path` against this node for writing, flavor for callers
    /// that already know the path exists: the path is required to
    /// resolve.
    pub fn path_mut<'a>(&'a mut self, path: &str) -> (r: &'a mut Value)
        requires
            resolve(old(self).m(), spec_split(path@)) is Some,
        ensures
            resolve(old(self).m(), spec_split(path@)) == Some((*r).m()),
            (*final(self)).m() == update_at(old(self).m(), spec_split(path@), (*final(r)).m()),
    {
        match self.get_path_mut(path) {
            Some(node) => node,
            None => unreached(),
        }
    }
}

} // verus!
