//! Laws of path resolution: how resolving composes, where it fails,
//! which lookup wins, and what a write through a resolved path does to a
//! later read.

use crate::model::{
    first_key_index, keys_unique, lemma_digits_val_nonneg, lemma_first_key_index,
    lemma_first_key_index_same_keys, map_lookup, resolve, step, step_index, update_at, wf,
    ValueModel,
};
use vstd::prelude::*;

verus! {

/// Resolution is step-by-step lookup: resolving a split path is the same
/// as resolving its first part and going on from the node it reaches.
pub proof fn lemma_resolve_append(m: ValueModel, s1: Seq<Seq<char>>, s2: Seq<Seq<char>>)
    ensures
        resolve(m, s1 + s2) == (match resolve(m, s1) {
            Some(mid) => resolve(mid, s2),
            None => None,
        }),
    decreases s1.len(),
{
    if s1.len() == 0 {
        assert(s1 + s2 =~= s2);
    } else {
        assert((s1 + s2)[0] == s1[0]);
        match step(m, s1[0]) {
            Some(c) => {
                assert((s1 + s2).drop_first() =~= s1.drop_first() + s2);
                lemma_resolve_append(c, s1.drop_first(), s2);
            },
            None => {},
        }
    }
}

/// Resolution fails exactly when some prefix of the path resolves and
/// the next segment does not resolve against the node it reached: the
/// failure happens at the first unresolvable segment.
pub proof fn lemma_resolve_fails_at_first(m: ValueModel, segs: Seq<Seq<char>>)
    ensures
        resolve(m, segs) is None <==> exists|i: int|
            0 <= i < segs.len() && (#[trigger] resolve(m, segs.take(i))) is Some && step(
                resolve(m, segs.take(i)).unwrap(),
                segs[i],
            ) is None,
    decreases segs.len(),
{
    if resolve(m, segs) is None {
        if segs.len() > 0 {
            match step(m, segs[0]) {
                Some(c) => {
                    lemma_resolve_fails_at_first(c, segs.drop_first());
                    let i = choose|i: int|
                        0 <= i < segs.drop_first().len() && (#[trigger] resolve(
                            c,
                            segs.drop_first().take(i),
                        )) is Some && step(
                            resolve(c, segs.drop_first().take(i)).unwrap(),
                            segs.drop_first()[i],
                        ) is None;
                    assert(segs.take(i + 1).drop_first() =~= segs.drop_first().take(i));
                    assert(resolve(m, segs.take(i + 1)) is Some);
                    assert(segs[i + 1] == segs.drop_first()[i]);
                },
                None => {
                    assert(segs.take(0) =~= Seq::<Seq<char>>::empty());
                    assert(resolve(m, segs.take(0)) is Some);
                },
            }
        }
    }
    if exists|i: int|
        0 <= i < segs.len() && (#[trigger] resolve(m, segs.take(i))) is Some && step(
            resolve(m, segs.take(i)).unwrap(),
            segs[i],
        ) is None {
        let i = choose|i: int|
            0 <= i < segs.len() && (#[trigger] resolve(m, segs.take(i))) is Some && step(
                resolve(m, segs.take(i)).unwrap(),
                segs[i],
            ) is None;
        let mid = resolve(m, segs.take(i)).unwrap();
        lemma_resolve_append(m, segs.take(i), segs.skip(i));
        assert(segs.take(i) + segs.skip(i) =~= segs);
        assert(segs.skip(i)[0] == segs[i]);
        assert(resolve(mid, segs.skip(i)) is None);
    }
}

/// A mapping key always wins over index parsing: on a mapping node that
/// holds the segment as a string key, one step resolves to that key's
/// value, whether or not the segment also parses as an integer.
pub proof fn lemma_key_wins_over_index(entries: Seq<(ValueModel, ValueModel)>, seg: Seq<char>)
    requires
        map_lookup(entries, ValueModel::Str(seg)) is Some,
    ensures
        step(ValueModel::Mapping(entries), seg) == map_lookup(entries, ValueModel::Str(seg)),
{
    lemma_first_key_index(entries, ValueModel::Str(seg));
}

/// Writing through a resolved path is visible to a later read: after
/// replacing the node a path resolves to, the same path resolves to the
/// replacement.
pub proof fn lemma_read_back_after_update(m: ValueModel, segs: Seq<Seq<char>>, sub: ValueModel)
    requires
        resolve(m, segs) is Some,
    ensures
        resolve(update_at(m, segs, sub), segs) == Some(sub),
    decreases segs.len(),
{
    if segs.len() > 0 {
        let j = step_index(m, segs[0]).unwrap();
        let child = step(m, segs[0]).unwrap();
        let u = update_at(m, segs, sub);
        match m {
            ValueModel::Mapping(entries) => {
                lemma_first_key_index(entries, ValueModel::Str(segs[0]));
                let e2 = entries.update(j, (entries[j].0, update_at(child, segs.drop_first(), sub)));
                assert(forall|t: int|
                    0 <= t < entries.len() ==> (#[trigger] e2[t]).0 == entries[t].0);
                lemma_first_key_index_same_keys(e2, entries, ValueModel::Str(segs[0]));
            },
            ValueModel::Sequence(items) => {
                lemma_digits_val_nonneg(crate::model::index_digits(segs[0]));
            },
            _ => {},
        }
        assert(step(u, segs[0]) == Some(update_at(child, segs.drop_first(), sub)));
        lemma_read_back_after_update(child, segs.drop_first(), sub);
    }
}

/// Resolution stays inside well-formed trees: every node a path reaches
/// in a well-formed tree is itself well-formed.
pub proof fn lemma_resolve_keeps_wf(m: ValueModel, segs: Seq<Seq<char>>)
    requires
        wf(m),
        resolve(m, segs) is Some,
    ensures
        wf(resolve(m, segs).unwrap()),
    decreases segs.len(),
{
    if segs.len() > 0 {
        let j = step_index(m, segs[0]).unwrap();
        match m {
            ValueModel::Mapping(entries) => {
                lemma_first_key_index(entries, ValueModel::Str(segs[0]));
            },
            ValueModel::Sequence(items) => {
                lemma_digits_val_nonneg(crate::model::index_digits(segs[0]));
            },
            _ => {},
        }
        lemma_resolve_keeps_wf(step(m, segs[0]).unwrap(), segs.drop_first());
    }
}

/// A write through a resolved path keeps the tree well-formed: replacing
/// the node a path reaches with a well-formed node never duplicates a
/// mapping key anywhere.
pub proof fn lemma_update_keeps_wf(m: ValueModel, segs: Seq<Seq<char>>, sub: ValueModel)
    requires
        wf(m),
        wf(sub),
    ensures
        wf(update_at(m, segs, sub)),
    decreases segs.len(),
{
    if segs.len() > 0 {
        match step_index(m, segs[0]) {
            Some(j) => {
                match m {
                    ValueModel::Mapping(entries) => {
                        lemma_first_key_index(entries, ValueModel::Str(segs[0]));
                        let child = entries[j].1;
                        lemma_update_keeps_wf(child, segs.drop_first(), sub);
                        let e2 = entries.update(
                            j,
                            (entries[j].0, update_at(child, segs.drop_first(), sub)),
                        );
                        assert(forall|t: int|
                            0 <= t < entries.len() ==> (#[trigger] e2[t]).0 == entries[t].0);
                        assert(keys_unique(e2));
                        assert(forall|t: int|
                            0 <= t < e2.len() ==> wf((#[trigger] e2[t]).0) && wf(e2[t].1));
                    },
                    ValueModel::Sequence(items) => {
                        lemma_digits_val_nonneg(crate::model::index_digits(segs[0]));
                        let child = items[j];
                        lemma_update_keeps_wf(child, segs.drop_first(), sub);
                        let x2 = items.update(j, update_at(child, segs.drop_first(), sub));
                        assert(forall|t: int| 0 <= t < x2.len() ==> wf(#[trigger] x2[t]));
                    },
                    _ => {},
                }
            },
            None => {},
        }
    }
}

/// Insertion keeps a mapping's keys unique: replacing the value under an
/// existing key changes no key, and a new entry is appended only when
/// its key is absent.
pub proof fn lemma_insert_keeps_keys_unique(
    entries: Seq<(ValueModel, ValueModel)>,
    key: ValueModel,
    value: ValueModel,
)
    requires
        keys_unique(entries),
    ensures
        match first_key_index(entries, key) {
            Some(j) => keys_unique(entries.update(j, (entries[j].0, value))),
            None => keys_unique(entries.push((key, value))),
        },
{
    lemma_first_key_index(entries, key);
    match first_key_index(entries, key) {
        Some(j) => {
            let e2 = entries.update(j, (entries[j].0, value));
            assert(forall|t: int|
                0 <= t < entries.len() ==> (#[trigger] e2[t]).0 == entries[t].0);
        },
        None => {},
    }
}

} // verus!
