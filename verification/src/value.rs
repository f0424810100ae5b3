//! The executable tree value union and its ghost model.

use crate::model::{
    first_key_index, lemma_first_key_index, lemma_same_tree_is_eq, replace_child, same_tree,
    spec_parse_index, step_update, ValueModel,
};
use vstd::prelude::*;

verus! {

/// A dynamically-typed tree value: a scalar, an ordered sequence of child
/// values, or an ordered key/value mapping (keys are themselves values,
/// kept in insertion order).
#[derive(Debug, PartialEq, Eq)]
pub enum Value {
    Null,
    Bool(bool),
    Number(i64),
    String(String),
    Sequence(Vec<Value>),
    Mapping(Vec<(Value, Value)>),
}

/// Models of the elements of `items`, in order.
pub open spec fn seq_models(items: Seq<Value>) -> Seq<ValueModel>
    decreases items,
{
    if items.len() == 0 {
        Seq::empty()
    } else {
        seq_models(items.drop_last()).push(items.last().m())
    }
}

/// Models of the entries of `entries`, in order, keys and values both.
pub open spec fn entry_models(entries: Seq<(Value, Value)>) -> Seq<(ValueModel, ValueModel)>
    decreases entries,
{
    if entries.len() == 0 {
        Seq::empty()
    } else {
        entry_models(entries.drop_last()).push(
            (entries.last().0.m(), entries.last().1.m()),
        )
    }
}

impl Value {
    /// The ghost model of this value.
    pub open spec fn m(self) -> ValueModel
        decreases self,
    {
        match self {
            Value::Null => ValueModel::Null,
            Value::Bool(b) => ValueModel::Bool(b),
            Value::Number(n) => ValueModel::Int(n as int),
            Value::String(s) => ValueModel::Str(s@),
            Value::Sequence(items) => ValueModel::Sequence(seq_models(items@)),
            Value::Mapping(entries) => ValueModel::Mapping(entry_models(entries@)),
        }
    }
}

impl View for Value {
    type V = ValueModel;

    open spec fn view(&self) -> ValueModel {
        self.m()
    }
}

/// `seq_models` maps the sequence elementwise.
pub broadcast proof fn lemma_seq_models(items: Seq<Value>)
    ensures
        (#[trigger] seq_models(items)).len() == items.len(),
        forall|i: int|
            #![trigger seq_models(items)[i]]
            #![trigger items[i]]
            0 <= i < items.len() ==> seq_models(items)[i] == items[i].m(),
    decreases items,
{
    if items.len() > 0 {
        lemma_seq_models(items.drop_last());
        assert(forall|i: int|
            0 <= i < items.len() - 1 ==> #[trigger] items[i] == items.drop_last()[i]);
    }
}

/// `entry_models` maps the entry list elementwise.
pub broadcast proof fn lemma_entry_models(entries: Seq<(Value, Value)>)
    ensures
        (#[trigger] entry_models(entries)).len() == entries.len(),
        forall|i: int|
            #![trigger entry_models(entries)[i]]
            #![trigger entries[i]]
            0 <= i < entries.len() ==> entry_models(entries)[i] == (entries[i].0.m(),
            entries[i].1.m()),
    decreases entries,
{
    if entries.len() > 0 {
        lemma_entry_models(entries.drop_last());
        assert(forall|i: int|
            0 <= i < entries.len() - 1 ==> #[trigger] entries[i] == entries.drop_last()[i]);
    }
}

/// The model of a mapping value, spelled out.
pub broadcast proof fn lemma_m_mapping(v: Value)
    ensures
        v is Mapping ==> #[trigger] v.m() == ValueModel::Mapping(entry_models(v->Mapping_0@)),
{
}

/// The model of a sequence value, spelled out.
pub broadcast proof fn lemma_m_sequence(v: Value)
    ensures
        v is Sequence ==> #[trigger] v.m() == ValueModel::Sequence(seq_models(v->Sequence_0@)),
{
}

/// What replacing the value of one mapping entry does to the model: the
/// new entry list models the single-child replacement that
/// [`replace_child`] describes.
pub broadcast proof fn lemma_mapping_child_models(
    e1: Seq<(Value, Value)>,
    e2: Seq<(Value, Value)>,
    j: int,
    sub: ValueModel,
)
    ensures
        #![trigger entry_models(e2), replace_child(ValueModel::Mapping(entry_models(e1)), j, sub)]
        (0 <= j < e1.len() && e2.len() == e1.len() && (forall|t: int|
            0 <= t < e1.len() && t != j ==> e2[t] == e1[t]) && e2[j].0 == e1[j].0 && e2[j].1.m()
            == sub) ==> same_tree(
            ValueModel::Mapping(entry_models(e2)),
            replace_child(ValueModel::Mapping(entry_models(e1)), j, sub),
        ),
{
    if 0 <= j < e1.len() && e2.len() == e1.len() && (forall|t: int|
        0 <= t < e1.len() && t != j ==> e2[t] == e1[t]) && e2[j].0 == e1[j].0 && e2[j].1.m()
        == sub {
        let ems1 = entry_models(e1);
        let ems2 = entry_models(e2);
        lemma_entry_models(e1);
        lemma_entry_models(e2);
        let y = ems1.update(j, (ems1[j].0, sub));
        assert(replace_child(ValueModel::Mapping(ems1), j, sub) == ValueModel::Mapping(y));
        assert(ems2.len() == y.len());
        assert forall|i: int| 0 <= i < ems2.len() implies same_tree((#[trigger] ems2[i]).0, y[i].0)
            && same_tree(ems2[i].1, y[i].1) by {
            lemma_same_tree_is_eq(ems2[i].0, y[i].0);
            lemma_same_tree_is_eq(ems2[i].1, y[i].1);
            if i != j {
                assert(e2[i] == e1[i]);
            }
        }
        assert(same_tree(ValueModel::Mapping(ems2), ValueModel::Mapping(y)));
    }
}

/// What replacing one sequence element does to the model: the new
/// element list models the single-child replacement that
/// [`replace_child`] describes.
pub broadcast proof fn lemma_sequence_child_models(
    x1: Seq<Value>,
    x2: Seq<Value>,
    j: int,
    sub: ValueModel,
)
    ensures
        #![trigger seq_models(x2), replace_child(ValueModel::Sequence(seq_models(x1)), j, sub)]
        (0 <= j < x1.len() && x2.len() == x1.len() && (forall|t: int|
            0 <= t < x1.len() && t != j ==> x2[t] == x1[t]) && x2[j].m() == sub) ==> same_tree(
            ValueModel::Sequence(seq_models(x2)),
            replace_child(ValueModel::Sequence(seq_models(x1)), j, sub),
        ),
{
    if 0 <= j < x1.len() && x2.len() == x1.len() && (forall|t: int|
        0 <= t < x1.len() && t != j ==> x2[t] == x1[t]) && x2[j].m() == sub {
        let xs1 = seq_models(x1);
        let xs2 = seq_models(x2);
        lemma_seq_models(x1);
        lemma_seq_models(x2);
        let y = xs1.update(j, sub);
        assert(replace_child(ValueModel::Sequence(xs1), j, sub) == ValueModel::Sequence(y));
        assert(xs2.len() == y.len());
        assert forall|i: int| 0 <= i < xs2.len() implies same_tree(#[trigger] xs2[i], y[i]) by {
            lemma_same_tree_is_eq(xs2[i], y[i]);
            if i != j {
                assert(x2[i] == x1[i]);
            }
        }
        assert(same_tree(ValueModel::Sequence(xs2), ValueModel::Sequence(y)));
    }
}

/// What replacing the value of one mapping entry does to the model: the
/// new entry list models the single-child update that [`step_update`]
/// describes, provided the segment selects that entry's key.
pub broadcast proof fn lemma_mapping_step_models(
    e1: Seq<(Value, Value)>,
    e2: Seq<(Value, Value)>,
    seg: Seq<char>,
    sub: ValueModel,
)
    ensures
        ({
            let k = first_key_index(entry_models(e1), ValueModel::Str(seg));
            k is Some && e2.len() == e1.len() && (forall|t: int|
                0 <= t < e1.len() && t != k.unwrap() ==> e2[t] == e1[t]) && e2[k.unwrap()].0
                == e1[k.unwrap()].0 && e2[k.unwrap()].1.m() == sub
        }) ==> #[trigger] same_tree(
            ValueModel::Mapping(entry_models(e2)),
            step_update(ValueModel::Mapping(entry_models(e1)), seg, sub),
        ),
{
    let k = first_key_index(entry_models(e1), ValueModel::Str(seg));
    if k is Some && e2.len() == e1.len() && (forall|t: int|
        0 <= t < e1.len() && t != k.unwrap() ==> e2[t] == e1[t]) && e2[k.unwrap()].0 == e1[
        k.unwrap()].0 && e2[k.unwrap()].1.m() == sub {
        lemma_entry_models(e1);
        lemma_first_key_index(entry_models(e1), ValueModel::Str(seg));
        lemma_mapping_child_models(e1, e2, k.unwrap(), sub);
    }
}

/// What replacing one sequence element does to the model: the new
/// element list models the single-child update that [`step_update`]
/// describes, provided the segment parses to that element's index.
pub broadcast proof fn lemma_sequence_step_models(
    x1: Seq<Value>,
    x2: Seq<Value>,
    seg: Seq<char>,
    sub: ValueModel,
)
    ensures
        ({
            let k = spec_parse_index(seg);
            k is Some && 0 <= k.unwrap() < x1.len() && x2.len() == x1.len() && (forall|t: int|
                0 <= t < x1.len() && t != k.unwrap() ==> x2[t] == x1[t]) && x2[k.unwrap()].m()
                == sub
        }) ==> #[trigger] same_tree(
            ValueModel::Sequence(seq_models(x2)),
            step_update(ValueModel::Sequence(seq_models(x1)), seg, sub),
        ),
{
    let k = spec_parse_index(seg);
    if k is Some && 0 <= k.unwrap() < x1.len() && x2.len() == x1.len() && (forall|t: int|
        0 <= t < x1.len() && t != k.unwrap() ==> x2[t] == x1[t]) && x2[k.unwrap()].m() == sub {
        lemma_seq_models(x1);
        lemma_sequence_child_models(x1, x2, k.unwrap(), sub);
    }
}

} // verus!
