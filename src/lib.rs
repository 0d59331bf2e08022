//! Translation of branching, memory-mutating functions into a pure,
//! memory-explicit expression language, together with the analyses, cost
//! model, rewrite catalog and reference interpreter that go with it.
pub mod analysis;
pub mod cfg;
pub mod cost_fn;
pub mod interp;
pub mod ir;
pub mod lang;
pub mod loops;
pub mod rules;
pub mod text;
pub mod to_epeg;
pub mod to_llvm;

pub use lang::Lang;
pub use to_epeg::Function;
