use vstd::prelude::*;

pub mod assign;
pub mod binary;
pub mod cases;
pub mod da;
pub mod daprv;
pub mod darev;
pub mod da_ops;
pub mod da_shift;
pub mod display;
pub mod embedded;
pub mod file_io;
pub mod highlight;
pub mod monomial;
pub mod polval;
pub mod polval_any;
pub mod program;
pub mod roundtrip;
pub mod statements;
pub mod syntax_config;
pub mod text;
pub mod transpile;
pub mod value;

verus! {

} // verus!
