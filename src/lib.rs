//! An interpreter for a small line-oriented dice scripting language:
//! variables, `print`, single-line conditionals, integer arithmetic and
//! dice notation (`NdM+B`).

pub mod dice;
pub mod eval;
pub mod lexer;
pub mod script;
pub mod text;
pub mod value;

pub use dice::Roller;
pub use eval::roll;
pub use script::{Output, Script};
pub use value::{Value, Vars};
