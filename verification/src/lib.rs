//! Path-based navigation, mutation, and uniform child iteration over a
//! dynamically-typed tree value: a recursive union of scalars, ordered
//! sequences, and ordered key/value mappings (the shape used by
//! configuration formats such as YAML or JSON).
//!
//! A caller holds a root [`value::Value`] and either resolves a dotted path
//! string such as `"a.b.2.c"` to a descendant node (immutably or mutably,
//! panicking-style or optional), or walks the immediate children of a
//! container node without caring whether it is a sequence or a mapping.

pub mod children;
pub mod laws;
pub mod mapping;
pub mod model;
pub mod path;
pub mod segment;
pub mod value;
