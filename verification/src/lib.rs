//! An interpreter for a small language of parenthesised forms.
//!
//! A script is a text of nested lists. [`parser::Parser`] reads it into
//! expression trees, and [`eval::Interpreter`] runs them one after another
//! against one flat store of variables, gathering what they print. What an
//! evaluation means is laid down in [`semantics`], and [`laws`] holds what
//! follows from it for every script.
//!
//! Arithmetic on doubles is not done here: the interpreter carries a double as
//! its bits and asks a host, a [`floats::FloatArith`], for whatever needs to
//! look inside one.

pub mod error;
pub mod text;
pub mod number;
pub mod sexpr;
pub mod tokens;
pub mod reading;
pub mod parser;
pub mod writing;
pub mod floats;
pub mod value;
pub mod env;
pub mod template;
pub mod semantics;
pub mod eval;
pub mod laws;
