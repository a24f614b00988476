//! An in-memory ontology engine: a tagged-tree codec for axioms, an indexed
//! axiom store, and transitive-closure queries over the direct subclass
//! relation.

pub mod closure;
pub mod codec;
pub mod model;
pub mod store;
pub mod tree;
