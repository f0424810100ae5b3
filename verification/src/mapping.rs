//! The mapping pass-through helpers: insert and remove on a mapping
//! node, and deep equality of tree values (the key comparison that
//! insertion rests on).

use crate::model::{
    first_key_index, kind, lemma_first_key_index, lemma_same_tree_is_eq, ValueModel,
};
use crate::path::find_key;
use crate::value::{
    entry_models, lemma_entry_models, lemma_m_mapping, lemma_seq_models, seq_models, Value,
};
use vstd::prelude::*;

verus! {

broadcast use
    lemma_seq_models,
    lemma_entry_models,
    lemma_same_tree_is_eq,
    lemma_m_mapping;

/// A small tag telling the variants of a value apart.
fn kind_of(v: &Value) -> (k: u8)
    ensures
        k as int == kind(v.m()),
{
    match v {
        Value::Null => 0,
        Value::Bool(_) => 1,
        Value::Number(_) => 2,
        Value::String(_) => 3,
        Value::Sequence(_) => 4,
        Value::Mapping(_) => 5,
    }
}

/// Deep equality of two tree values: their models are the same.
pub fn value_eq(a: &Value, b: &Value) -> (r: bool)
    ensures
        r == (a.m() == b.m()),
    decreases *a,
{
    let ka = kind_of(a);
    let kb = kind_of(b);
    if ka != kb {
        proof {
            assert(kind(a.m()) != kind(b.m()));
            assert(a.m() != b.m());
        }
        return false;
    }
    match (a, b) {
        (Value::Null, Value::Null) => true,
        (Value::Bool(x), Value::Bool(y)) => x == y,
        (Value::Number(x), Value::Number(y)) => x == y,
        (Value::String(x), Value::String(y)) => *x == *y,
        (Value::Sequence(x), Value::Sequence(y)) => {
            if x.len() != y.len() {
                proof {
                    assert(seq_models(x@).len() != seq_models(y@).len());
                }
                return false;
            }
            let mut i: usize = 0;
            while i < x.len()
                invariant
                    0 <= i <= x@.len() == y@.len(),
                    a == Value::Sequence(*x),
                    b == Value::Sequence(*y),
                    forall|t: int| 0 <= t < i ==> (#[trigger] x@[t]).m() == y@[t].m(),
                decreases x@.len() - i,
            {
                proof {
                    assert(decreases_to!(*a => (*a)->Sequence_0));
                    assert(decreases_to!((*a)->Sequence_0 => (*a)->Sequence_0@[i as int]));
                }
                if !value_eq(&x[i], &y[i]) {
                    proof {
                        assert(seq_models(x@)[i as int] != seq_models(y@)[i as int]);
                    }
                    return false;
                }
                i += 1;
            }
            proof {
                assert(seq_models(x@) =~= seq_models(y@));
            }
            true
        },
        (Value::Mapping(x), Value::Mapping(y)) => {
            if x.len() != y.len() {
                proof {
                    assert(entry_models(x@).len() != entry_models(y@).len());
                }
                return false;
            }
            let mut i: usize = 0;
            while i < x.len()
                invariant
                    0 <= i <= x@.len() == y@.len(),
                    a == Value::Mapping(*x),
                    b == Value::Mapping(*y),
                    forall|t: int|
                        0 <= t < i ==> (#[trigger] x@[t]).0.m() == y@[t].0.m() && x@[t].1.m()
                            == y@[t].1.m(),
                decreases x@.len() - i,
            {
                proof {
                    assert(decreases_to!(*a => (*a)->Mapping_0));
                    assert(decreases_to!((*a)->Mapping_0 => (*a)->Mapping_0@[i as int]));
                    assert(decreases_to!((*a)->Mapping_0@[i as int] => (*a)->Mapping_0@[
                        i as int
                    ].0));
                }
                if !value_eq(&x[i].0, &y[i].0) {
                    proof {
                        assert(entry_models(x@)[i as int].0 != entry_models(y@)[i as int].0);
                    }
                    return false;
                }
                if !value_eq(&x[i].1, &y[i].1) {
                    proof {
                        assert(entry_models(x@)[i as int].1 != entry_models(y@)[i as int].1);
                    }
                    return false;
                }
                i += 1;
            }
            proof {
                assert(entry_models(x@) =~= entry_models(y@));
            }
            true
        },
        (_, _) => unreached(),
    }
}

/// Position of the first entry of `entries` whose key equals `key`.
fn find_key_value(entries: &Vec<(Value, Value)>, key: &Value) -> (r: Option<usize>)
    ensures
        match r {
            Some(j) => 0 <= j < entries@.len() && first_key_index(entry_models(entries@), key.m())
                == Some(j as int),
            None => first_key_index(entry_models(entries@), key.m()) is None,
        },
{
    let ghost ems = entry_models(entries@);
    let mut j: usize = 0;
    while j < entries.len()
        invariant
            0 <= j <= entries@.len(),
            ems == entry_models(entries@),
            forall|t: int| 0 <= t < j ==> (#[trigger] ems[t]).0 != key.m(),
        decreases entries@.len() - j,
    {
        if value_eq(&entries[j].0, key) {
            proof {
                lemma_first_key_index(ems, key.m());
                match first_key_index(ems, key.m()) {
                    Some(i) => {
                        if i < j {
                            assert(ems[i].0 != key.m());
                        }
                    },
                    None => {
                        assert(ems[j as int].0 != key.m());
                    },
                }
            }
            return Some(j);
        }
        j += 1;
    }
    proof {
        lemma_first_key_index(ems, key.m());
        match first_key_index(ems, key.m()) {
            Some(i) => {
                assert(ems[i].0 != key.m());
            },
            None => {},
        }
    }
    None
}

impl Value {
    /// Inserts `value` under `key` into a mapping node, replacement
    /// flavor: when the key is already present, its entry keeps its
    /// place and its stored key, the value is replaced, and the previous
    /// value is returned.  When the key is new, the entry is appended.
    /// On a non-mapping node nothing changes and `None` comes back.
    pub fn insert(&mut self, key: Value, value: Value) -> (r: Option<Value>)
        ensures
            old(self).m() is Mapping ==> ({
                let ems = old(self).m()->Mapping_0;
                match first_key_index(ems, key.m()) {
                    Some(j) => r is Some && r.unwrap().m() == ems[j].1 && (*final(self)).m()
                        == ValueModel::Mapping(ems.update(j, (ems[j].0, value.m()))),
                    None => r is None && (*final(self)).m() == ValueModel::Mapping(
                        ems.push((key.m(), value.m())),
                    ),
                }
            }),
            !(old(self).m() is Mapping) ==> r is None && *final(self) == *old(self),
    {
        match self {
            Value::Mapping(entries) => {
                let ghost ems = entry_models(entries@);
                match find_key_value(entries, &key) {
                    Some(j) => {
                        let mut value = value;
                        core::mem::swap(&mut entries[j].1, &mut value);
                        proof {
                            lemma_entry_models(entries@);
                            assert(entry_models(entries@) =~= ems.update(
                                j as int,
                                (ems[j as int].0, entry_models(entries@)[j as int].1),
                            ));
                        }
                        Some(value)
                    },
                    None => {
                        entries.push((key, value));
                        proof {
                            lemma_entry_models(entries@);
                            assert(entry_models(entries@) =~= ems.push(
                                entry_models(entries@).last(),
                            ));
                        }
                        None
                    },
                }
            },
            Value::Null => None,
            Value::Bool(_) => None,
            Value::Number(_) => None,
            Value::String(_) => None,
            Value::Sequence(_) => None,
        }
    }

    /// Removes the entry under the string key `key` from a mapping node
    /// and returns its value; the entries after it move up, so insertion
    /// order is kept.  Without such an entry, and on a non-mapping node,
    /// nothing changes and `None` comes back.
    pub fn remove(&mut self, key: &str) -> (r: Option<Value>)
        ensures
            old(self).m() is Mapping ==> ({
                let ems = old(self).m()->Mapping_0;
                match first_key_index(ems, ValueModel::Str(key@)) {
                    Some(j) => r is Some && r.unwrap().m() == ems[j].1 && (*final(self)).m()
                        == ValueModel::Mapping(ems.remove(j)),
                    None => r is None && *final(self) == *old(self),
                }
            }),
            !(old(self).m() is Mapping) ==> r is None && *final(self) == *old(self),
    {
        match self {
            Value::Mapping(entries) => {
                let ghost ems = entry_models(entries@);
                let owned_key = key.to_owned();
                match find_key(entries, &owned_key) {
                    Some(j) => {
                        let pair = entries.remove(j);
                        proof {
                            lemma_entry_models(entries@);
                            assert(entry_models(entries@) =~= ems.remove(j as int));
                        }
                        Some(pair.1)
                    },
                    None => None,
                }
            },
            Value::Null => None,
            Value::Bool(_) => None,
            Value::Number(_) => None,
            Value::String(_) => None,
            Value::Sequence(_) => None,
        }
    }
}

} // verus!
