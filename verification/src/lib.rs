//! A typed interaction-net calculus: a graph-rewriting engine on trees of
//! agents and wires, and a type checker that runs on the same engine.
//!
//! A text is parsed into statements (`parser`, `syntax`). A builder gives
//! names identifiers, flattens the trees of each statement and gathers
//! declarations, definitions and checks (`builder`, `flatten`, `load`,
//! `finish`). The engine rewrites nets by the rules of the definitions
//! (`term`, `store`, `run`, `resolve`, `show`). The type checker runs each
//! check on the engine (`typecheck`), and the completeness check looks for
//! pairs of constructors without a definition (`complete`). What holds of the
//! engine whatever the net is stated in `laws`, what holds of linear nets in
//! `linear` and `outcome`.

pub mod builder;
pub mod complete;
pub mod finish;
pub mod flatten;
pub mod fresh;
pub mod laws;
pub mod linear;
pub mod load;
pub mod names;
pub mod outcome;
pub mod parser;
pub mod program;
pub mod resolve;
pub mod run;
pub mod show;
pub mod store;
pub mod syntax;
pub mod term;
pub mod typecheck;
