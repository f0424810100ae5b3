//! The iteration adapter: a uniform walk over the immediate children of
//! a container node — a sequence's elements in stored order, or a
//! mapping's values in key-insertion order — in three ownership modes,
//! together with the key listing.

use crate::model::{
    children_of, is_container, keys_of, lemma_same_tree_is_eq, replace_child,
};
use crate::value::{
    entry_models, lemma_entry_models, lemma_m_mapping, lemma_m_sequence,
    lemma_mapping_child_models, lemma_seq_models, lemma_sequence_child_models, seq_models, Value,
};
use vstd::prelude::*;

verus! {

broadcast use
    lemma_seq_models,
    lemma_entry_models,
    lemma_same_tree_is_eq,
    lemma_m_mapping,
    lemma_m_sequence,
    lemma_mapping_child_models,
    lemma_sequence_child_models;

impl Value {
    /// Number of immediate children of a container node.
    pub fn child_count(&self) -> (n: usize)
        requires
            is_container(self.m()),
        ensures
            n == children_of(self.m()).len(),
    {
        match self {
            Value::Sequence(items) => items.len(),
            Value::Mapping(entries) => entries.len(),
            Value::Null => unreached(),
            Value::Bool(_) => unreached(),
            Value::Number(_) => unreached(),
            Value::String(_) => unreached(),
        }
    }

    /// Borrowed iteration over a container node: its immediate children,
    /// in order.  Any other shape is ruled out by the caller, as there is
    /// no optional flavor of iteration.
    pub fn iter<'a>(&'a self) -> (r: Vec<&'a Value>)
        requires
            is_container(self.m()),
        ensures
            r@.len() == children_of(self.m()).len(),
            forall|t: int|
                0 <= t < r@.len() ==> (#[trigger] r@[t]).m() == children_of(self.m())[t],
    {
        match self {
            Value::Sequence(items) => {
                let mut out: Vec<&Value> = Vec::new();
                let mut i: usize = 0;
                while i < items.len()
                    invariant
                        0 <= i <= items@.len(),
                        out@.len() == i,
                        forall|t: int|
                            0 <= t < i ==> (#[trigger] out@[t]).m() == seq_models(items@)[t],
                    decreases items@.len() - i,
                {
                    out.push(&items[i]);
                    i += 1;
                }
                out
            },
            Value::Mapping(entries) => {
                let mut out: Vec<&Value> = Vec::new();
                let mut i: usize = 0;
                while i < entries.len()
                    invariant
                        0 <= i <= entries@.len(),
                        out@.len() == i,
                        forall|t: int|
                            0 <= t < i ==> (#[trigger] out@[t]).m() == entry_models(
                                entries@,
                            )[t].1,
                    decreases entries@.len() - i,
                {
                    out.push(&entries[i].1);
                    i += 1;
                }
                out
            },
            Value::Null => unreached(),
            Value::Bool(_) => unreached(),
            Value::Number(_) => unreached(),
            Value::String(_) => unreached(),
        }
    }

    /// Mutable iteration over a container node, one child at a time: a
    /// mutable borrow of the child at position `i`.  A caller walks
    /// `0..child_count()`; handing out all children as one collection of
    /// mutable borrows is not expressible here.
    pub fn iter_mut<'a>(&'a mut self, i: usize) -> (r: &'a mut Value)
        requires
            is_container(old(self).m()),
            i < children_of(old(self).m()).len(),
        ensures
            (*r).m() == children_of(old(self).m())[i as int],
            (*final(self)).m() == replace_child(old(self).m(), i as int, (*final(r)).m()),
    {
        match self {
            Value::Sequence(items) => &mut items[i],
            Value::Mapping(entries) => &mut entries[i].1,
            Value::Null => unreached(),
            Value::Bool(_) => unreached(),
            Value::Number(_) => unreached(),
            Value::String(_) => unreached(),
        }
    }

    /// Owned iteration: the immediate children moved out of the
    /// container, consuming it.
    pub fn into_iter(self) -> (r: Vec<Value>)
        requires
            is_container(self.m()),
        ensures
            r@.len() == children_of(self.m()).len(),
            forall|t: int|
                0 <= t < r@.len() ==> (#[trigger] r@[t]).m() == children_of(self.m())[t],
    {
        match self {
            Value::Sequence(items) => items,
            Value::Mapping(entries) => {
                let mut entries = entries;
                let ghost orig = entries@;
                let mut out: Vec<Value> = Vec::new();
                while entries.len() > 0
                    invariant
                        out@.len() + entries@.len() == orig.len(),
                        entries@ == orig.skip(out@.len() as int),
                        forall|t: int|
                            0 <= t < out@.len() ==> (#[trigger] out@[t]).m() == entry_models(
                                orig,
                            )[t].1,
                    decreases entries@.len(),
                {
                    let ghost k = out@.len() as int;
                    let p = entries.remove(0);
                    proof {
                        assert(p == orig[k]);
                        assert(entries@ =~= orig.skip(k + 1));
                        lemma_entry_models(orig);
                    }
                    out.push(p.1);
                }
                out
            },
            Value::Null => unreached(),
            Value::Bool(_) => unreached(),
            Value::Number(_) => unreached(),
            Value::String(_) => unreached(),
        }
    }

    /// The keys of a mapping node, in insertion order.
    pub fn keys<'a>(&'a self) -> (r: Vec<&'a Value>)
        requires
            self.m() is Mapping,
        ensures
            r@.len() == keys_of(self.m()).len(),
            forall|t: int| 0 <= t < r@.len() ==> (#[trigger] r@[t]).m() == keys_of(self.m())[t],
    {
        match self {
            Value::Mapping(entries) => {
                let mut out: Vec<&Value> = Vec::new();
                let mut i: usize = 0;
                while i < entries.len()
                    invariant
                        0 <= i <= entries@.len(),
                        out@.len() == i,
                        forall|t: int|
                            0 <= t < i ==> (#[trigger] out@[t]).m() == entry_models(
                                entries@,
                            )[t].0,
                    decreases entries@.len() - i,
                {
                    out.push(&entries[i].0);
                    i += 1;
                }
                out
            },
            Value::Null => unreached(),
            Value::Bool(_) => unreached(),
            Value::Number(_) => unreached(),
            Value::String(_) => unreached(),
            Value::Sequence(_) => unreached(),
        }
    }
}

} // verus!
