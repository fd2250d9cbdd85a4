//! Semantic analysis for Jairs: integer literal typing, the type pool, signatures,
//! the type map, and the checking of bodies, together with the "did you mean" guess
//! attached to an unknown name.

pub mod ints;
pub mod suggest;
pub mod pool;
pub mod table;
pub mod hir;
pub mod map;
pub mod declaration;
pub mod sigs;
pub mod ctx;
pub mod ops;
pub mod scope;
pub mod typing;
pub mod defaults;
pub mod args;
pub mod poly;
pub mod rules;
pub mod check;
pub mod signature;
