//! A content-addressed build pipeline core: derivations (named units of work
//! holding a shell script and references to other derivations' outputs) are
//! collected into an append-only directed acyclic graph, ordered into
//! dependency-respecting execution levels, and prepared for execution as
//! external processes with an on-disk cache keyed by each derivation's
//! content hash.

pub mod hash;
pub mod strutil;
pub mod errors;
pub mod scriptstring;
pub mod value;
pub mod dag;
pub mod derivation;
pub mod process;
pub mod scheduler;
pub mod evaluator;
