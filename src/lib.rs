//! A small term-rewriting and unification engine.
//!
//! A program is a `;`-separated list of rewrite rules (`pattern:=body`),
//! unification statements (`left=right`) and a final return expression.
//! Evaluating it yields the printed form of the fully substituted result.
pub mod env;
pub mod eval;
pub mod parse;
pub mod prog;
pub mod term;

pub use eval::relog;
pub use parse::parse_relog_term;
pub use prog::{parse_relog_prog, RelogProg};
pub use term::RelogTerm;
