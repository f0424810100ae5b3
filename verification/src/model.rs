//! Mathematical model of tree values and of path resolution.
//!
//! Everything in this module is specification-level: a ghost mirror of the
//! executable [`crate::value::Value`] union together with the functions that
//! define what a dotted path means over it.  The executable code in the
//! other modules is specified entirely in terms of these definitions.

use vstd::prelude::*;

verus! {

/// Ghost mirror of the executable value union.  Numbers are modelled by
/// their mathematical value, strings by their character sequences,
/// sequences by a `Seq` of child models, and mappings by their ordered
/// entry list (key/value pairs in insertion order).
#[verifier::ext_equal]
pub enum ValueModel {
    Null,
    Bool(bool),
    Int(int),
    Str(Seq<char>),
    Sequence(Seq<ValueModel>),
    Mapping(Seq<(ValueModel, ValueModel)>),
}

/// Index of the first entry whose key equals `key`, if any.
pub open spec fn first_key_index(
    entries: Seq<(ValueModel, ValueModel)>,
    key: ValueModel,
) -> Option<int>
    decreases entries.len(),
{
    if entries.len() == 0 {
        None
    } else if entries[0].0 == key {
        Some(0int)
    } else {
        match first_key_index(entries.drop_first(), key) {
            Some(i) => Some(i + 1),
            None => None,
        }
    }
}

/// Value stored under `key`, going by the first matching entry.
pub open spec fn map_lookup(
    entries: Seq<(ValueModel, ValueModel)>,
    key: ValueModel,
) -> Option<ValueModel> {
    match first_key_index(entries, key) {
        Some(i) => Some(entries[i].1),
        None => None,
    }
}

/// What `first_key_index` returns: the first position holding `key`,
/// or `None` when no entry holds it.
pub proof fn lemma_first_key_index(entries: Seq<(ValueModel, ValueModel)>, key: ValueModel)
    ensures
        match first_key_index(entries, key) {
            Some(i) => 0 <= i < entries.len() && entries[i].0 == key && forall|j: int|
                0 <= j < i ==> (#[trigger] entries[j]).0 != key,
            None => forall|j: int| 0 <= j < entries.len() ==> (#[trigger] entries[j]).0 != key,
        },
    decreases entries.len(),
{
    if entries.len() > 0 && entries[0].0 != key {
        lemma_first_key_index(entries.drop_first(), key);
        assert(forall|j: int|
            1 <= j < entries.len() ==> #[trigger] entries[j] == entries.drop_first()[j - 1]);
    }
}

/// An ASCII decimal digit.
pub open spec fn is_ascii_digit(c: char) -> bool {
    '0' <= c && c <= '9'
}

/// Numeric value of a digit character.
pub open spec fn digit_val(c: char) -> int {
    c as int - '0' as int
}

/// Every character of `s` is a decimal digit.
pub open spec fn all_digits(s: Seq<char>) -> bool {
    forall|i: int| 0 <= i < s.len() ==> is_ascii_digit(#[trigger] s[i])
}

/// Value of a base-10 digit string.
pub open spec fn digits_val(s: Seq<char>) -> int
    decreases s.len(),
{
    if s.len() == 0 {
        0
    } else {
        digits_val(s.drop_last()) * 10 + digit_val(s.last())
    }
}

/// The value of a digit string is non-negative.
pub proof fn lemma_digits_val_nonneg(s: Seq<char>)
    requires
        all_digits(s),
    ensures
        digits_val(s) >= 0,
    decreases s.len(),
{
    if s.len() > 0 {
        assert(all_digits(s.drop_last()));
        lemma_digits_val_nonneg(s.drop_last());
    }
}

/// The digit part of an index segment: one leading `+` sign is accepted,
/// as Rust's integer parsing accepts it.
pub open spec fn index_digits(s: Seq<char>) -> Seq<char> {
    if s.len() > 0 && s[0] == '+' {
        s.drop_first()
    } else {
        s
    }
}

/// What parsing a segment as a sequence index yields: the value of its
/// digits when the segment is nothing but an optional `+` sign and at
/// least one digit, and the value fits in `usize`; `None` otherwise.
pub open spec fn spec_parse_index(s: Seq<char>) -> Option<int> {
    let d = index_digits(s);
    if d.len() > 0 && all_digits(d) && digits_val(d) <= usize::MAX {
        Some(digits_val(d))
    } else {
        None
    }
}

/// Position of the first `.` in `s`, if any.
pub open spec fn dot_index(s: Seq<char>) -> Option<int>
    decreases s.len(),
{
    if s.len() == 0 {
        None
    } else if s[0] == '.' {
        Some(0int)
    } else {
        match dot_index(s.drop_first()) {
            Some(i) => Some(i + 1),
            None => None,
        }
    }
}

/// What `dot_index` returns: the first position holding `.`, or `None`
/// when no position does.
pub proof fn lemma_dot_index(s: Seq<char>)
    ensures
        match dot_index(s) {
            Some(i) => 0 <= i < s.len() && s[i] == '.' && forall|j: int|
                0 <= j < i ==> #[trigger] s[j] != '.',
            None => forall|j: int| 0 <= j < s.len() ==> #[trigger] s[j] != '.',
        },
    decreases s.len(),
{
    if s.len() > 0 && s[0] != '.' {
        lemma_dot_index(s.drop_first());
        assert(forall|j: int| 1 <= j < s.len() ==> #[trigger] s[j] == s.drop_first()[j - 1]);
    }
}

/// The segments of a path string: the pieces between the `.` separators,
/// in order.  An empty string yields a single empty segment.
pub open spec fn spec_split(s: Seq<char>) -> Seq<Seq<char>>
    decreases s.len(),
    via spec_split_dec
{
    match dot_index(s) {
        None => seq![s],
        Some(i) => seq![s.take(i)] + spec_split(s.skip(i + 1)),
    }
}

#[via_fn]
proof fn spec_split_dec(s: Seq<char>) {
    lemma_dot_index(s);
}

/// Which child a single segment selects on `m`: the position of the entry
/// under the segment taken as a mapping key when `m` is a mapping holding
/// that key (this is tried first, whether or not the segment looks
/// numeric), else the segment parsed as an index when `m` is a sequence
/// and the index is in bounds; `None` otherwise.
pub open spec fn step_index(m: ValueModel, seg: Seq<char>) -> Option<int> {
    match m {
        ValueModel::Mapping(entries) => first_key_index(entries, ValueModel::Str(seg)),
        ValueModel::Sequence(items) => match spec_parse_index(seg) {
            Some(i) => if i < items.len() {
                Some(i)
            } else {
                None
            },
            None => None,
        },
        _ => None,
    }
}

/// The child of `m` at child position `i`: a sequence element, or the
/// value of a mapping entry.
pub open spec fn child_at(m: ValueModel, i: int) -> ValueModel {
    match m {
        ValueModel::Mapping(entries) => entries[i].1,
        ValueModel::Sequence(items) => items[i],
        _ => m,
    }
}

/// `m` with the child at position `i` replaced by `sub`; a mapping entry
/// keeps its key.
pub open spec fn replace_child(m: ValueModel, i: int, sub: ValueModel) -> ValueModel {
    match m {
        ValueModel::Mapping(entries) => ValueModel::Mapping(
            entries.update(i, (entries[i].0, sub)),
        ),
        ValueModel::Sequence(items) => ValueModel::Sequence(items.update(i, sub)),
        _ => m,
    }
}

/// `m` with the child a single segment selects replaced by `sub`; `m`
/// unchanged where the segment does not resolve.
pub open spec fn step_update(m: ValueModel, seg: Seq<char>, sub: ValueModel) -> ValueModel {
    match step_index(m, seg) {
        Some(i) => replace_child(m, i, sub),
        None => m,
    }
}

/// One resolution step: the node a single segment selects on `m`.
pub open spec fn step(m: ValueModel, seg: Seq<char>) -> Option<ValueModel> {
    match step_index(m, seg) {
        Some(i) => Some(child_at(m, i)),
        None => None,
    }
}

/// The node the segments select on `m`, following existing structure
/// only: `None` as soon as one segment fails to resolve.
pub open spec fn resolve(m: ValueModel, segs: Seq<Seq<char>>) -> Option<ValueModel>
    decreases segs.len(),
{
    if segs.len() == 0 {
        Some(m)
    } else {
        match step(m, segs[0]) {
            Some(c) => resolve(c, segs.drop_first()),
            None => None,
        }
    }
}

/// `m` with the node the segments select replaced by `sub`; `m` unchanged
/// where the path does not resolve.
pub open spec fn update_at(m: ValueModel, segs: Seq<Seq<char>>, sub: ValueModel) -> ValueModel
    decreases segs.len(),
{
    if segs.len() == 0 {
        sub
    } else {
        match step_index(m, segs[0]) {
            Some(i) => replace_child(m, i, update_at(child_at(m, i), segs.drop_first(), sub)),
            None => m,
        }
    }
}

/// `update_at` takes one step at a time.
pub broadcast proof fn lemma_update_at_step(m: ValueModel, segs: Seq<Seq<char>>, sub: ValueModel)
    ensures
        segs.len() > 0 && step(m, segs[0]) is Some ==> #[trigger] update_at(m, segs, sub)
            == step_update(
            m,
            segs[0],
            update_at(step(m, segs[0]).unwrap(), segs.drop_first(), sub),
        ),
{
}

/// Putting a child back where it came from changes nothing.
pub broadcast proof fn lemma_step_update_self(m: ValueModel, seg: Seq<char>, sub: ValueModel)
    ensures
        step(m, seg) == Some(sub) ==> #[trigger] step_update(m, seg, sub) == m,
{
    if step(m, seg) == Some(sub) {
        let i = step_index(m, seg).unwrap();
        match m {
            ValueModel::Mapping(entries) => {
                lemma_first_key_index(entries, ValueModel::Str(seg));
                assert(entries.update(i, (entries[i].0, entries[i].1)) =~= entries);
                assert((entries[i].0, entries[i].1) == entries[i]);
            },
            ValueModel::Sequence(items) => {
                let d = index_digits(seg);
                lemma_digits_val_nonneg(d);
                assert(items.update(i, items[i]) =~= items);
            },
            _ => {},
        }
    }
}

/// `m` is a container: the only shapes whose children can be iterated.
pub open spec fn is_container(m: ValueModel) -> bool {
    m is Sequence || m is Mapping
}

/// The immediate children of a container: a sequence's elements in stored
/// order, or a mapping's values in key-insertion order.
pub open spec fn children_of(m: ValueModel) -> Seq<ValueModel> {
    match m {
        ValueModel::Sequence(items) => items,
        ValueModel::Mapping(entries) => entries.map_values(|e: (ValueModel, ValueModel)| e.1),
        _ => Seq::empty(),
    }
}

/// The keys of a mapping, in insertion order.
pub open spec fn keys_of(m: ValueModel) -> Seq<ValueModel> {
    match m {
        ValueModel::Mapping(entries) => entries.map_values(|e: (ValueModel, ValueModel)| e.0),
        _ => Seq::empty(),
    }
}

/// No two entries share a key.
pub open spec fn keys_unique(entries: Seq<(ValueModel, ValueModel)>) -> bool {
    forall|i: int, j: int|
        0 <= i < j < entries.len() ==> (#[trigger] entries[i]).0 != (#[trigger] entries[j]).0
}

/// Well-formedness of a tree value: every mapping in it has unique keys.
pub open spec fn wf(m: ValueModel) -> bool
    decreases m,
{
    match m {
        ValueModel::Sequence(items) => forall|i: int|
            0 <= i < items.len() ==> wf(#[trigger] items[i]),
        ValueModel::Mapping(entries) => keys_unique(entries) && forall|i: int|
            0 <= i < entries.len() ==> wf((#[trigger] entries[i]).0) && wf(entries[i].1),
        _ => true,
    }
}

/// A small tag telling the variants of a model apart.
pub open spec fn kind(m: ValueModel) -> int {
    match m {
        ValueModel::Null => 0,
        ValueModel::Bool(_) => 1,
        ValueModel::Int(_) => 2,
        ValueModel::Str(_) => 3,
        ValueModel::Sequence(_) => 4,
        ValueModel::Mapping(_) => 5,
    }
}

/// Pointwise equality of two models: same shape, same scalars, and the
/// same children position by position.  By [`lemma_same_tree_is_eq`]
/// this is nothing but `==`; it is stated pointwise so that proofs can
/// establish it one child at a time.
pub open spec fn same_tree(a: ValueModel, b: ValueModel) -> bool
    decreases a,
{
    match (a, b) {
        (ValueModel::Null, ValueModel::Null) => true,
        (ValueModel::Bool(x), ValueModel::Bool(y)) => x == y,
        (ValueModel::Int(x), ValueModel::Int(y)) => x == y,
        (ValueModel::Str(x), ValueModel::Str(y)) => x == y,
        (ValueModel::Sequence(x), ValueModel::Sequence(y)) => x.len() == y.len() && forall|i: int|
            0 <= i < x.len() ==> same_tree(#[trigger] x[i], y[i]),
        (ValueModel::Mapping(x), ValueModel::Mapping(y)) => x.len() == y.len() && forall|i: int|
            0 <= i < x.len() ==> same_tree((#[trigger] x[i]).0, y[i].0) && same_tree(
                x[i].1,
                y[i].1,
            ),
        _ => false,
    }
}

/// `same_tree` is equality.
pub broadcast proof fn lemma_same_tree_is_eq(a: ValueModel, b: ValueModel)
    ensures
        #[trigger] same_tree(a, b) <==> a == b,
    decreases a,
{
    match (a, b) {
        (ValueModel::Sequence(x), ValueModel::Sequence(y)) => {
            if same_tree(a, b) {
                assert forall|i: int| 0 <= i < x.len() implies x[i] == y[i] by {
                    lemma_same_tree_is_eq(x[i], y[i]);
                }
                assert(x =~= y);
            }
            if a == b {
                assert forall|i: int| 0 <= i < x.len() implies same_tree(
                    #[trigger] x[i],
                    y[i],
                ) by {
                    lemma_same_tree_is_eq(x[i], y[i]);
                }
            }
        },
        (ValueModel::Mapping(x), ValueModel::Mapping(y)) => {
            if same_tree(a, b) {
                assert forall|i: int| 0 <= i < x.len() implies x[i] == y[i] by {
                    lemma_same_tree_is_eq(x[i].0, y[i].0);
                    lemma_same_tree_is_eq(x[i].1, y[i].1);
                    assert(x[i].0 == y[i].0 && x[i].1 == y[i].1);
                }
                assert(x =~= y);
            }
            if a == b {
                assert forall|i: int| 0 <= i < x.len() implies same_tree(
                    (#[trigger] x[i]).0,
                    y[i].0,
                ) && same_tree(x[i].1, y[i].1) by {
                    lemma_same_tree_is_eq(x[i].0, y[i].0);
                    lemma_same_tree_is_eq(x[i].1, y[i].1);
                }
            }
        },
        _ => {},
    }
}

/// `first_key_index` looks only at the keys: two entry lists with the same
/// keys in the same order agree on it.
pub proof fn lemma_first_key_index_same_keys(
    e1: Seq<(ValueModel, ValueModel)>,
    e2: Seq<(ValueModel, ValueModel)>,
    key: ValueModel,
)
    requires
        e1.len() == e2.len(),
        forall|j: int| 0 <= j < e1.len() ==> (#[trigger] e1[j]).0 == (#[trigger] e2[j]).0,
    ensures
        first_key_index(e1, key) == first_key_index(e2, key),
    decreases e1.len(),
{
    if e1.len() > 0 {
        assert(forall|j: int|
            0 <= j < e1.len() - 1 ==> (#[trigger] e1.drop_first()[j]).0 == (
            #[trigger] e2.drop_first()[j]).0 && e1.drop_first()[j] == e1[j + 1]
                && e2.drop_first()[j] == e2[j + 1]);
        lemma_first_key_index_same_keys(e1.drop_first(), e2.drop_first(), key);
    }
}

} // verus!
