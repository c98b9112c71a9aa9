//! The core of the Vulpi compiler: source locations, de Bruijn levels and indices, the
//! type language of the type checker with its mutable store of holes, unification,
//! subsumption and generalization, the typing environment, and the module tree of the
//! resolver.
//!
//! The parser and the inference of expressions and statements are not part of this
//! library: they work on a syntax tree, and check patterns and coverage, that it does not
//! define. What it offers them is the checking of types against a store of holes.

pub mod location;
pub mod build_error;
pub mod level;
pub mod types;
pub mod type_facts;
pub mod context;
pub mod env;
pub mod unify;
pub mod spine;
pub mod instantiate;
pub mod modules;
pub mod declare;
pub mod subsume;
pub mod subsumption;
pub mod generalize;
pub mod show;
