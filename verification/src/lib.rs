//! This library introduces a type of expressions called "calc-regular".
//!
//! Calc-regular expressions are similar to regular expressions, but they
//! allow for some additional productions, whose goal is mainly to allow
//! languages with length fields: a length count reads a number and then
//! exactly that many bytes, an occurrence count reads a number and then
//! exactly that many words of an expression.
//!
//! A [`CalcRegex`] is built by the productions of [`generate`]. Input is
//! parsed against it by a [`Reader`], which hands back a record of the
//! bytes it read and of the parts of them that the named sub-expressions
//! matched. These captures are asked for by name.
//!
//! What parsing means is said in [`semantics`], and the functions that
//! parse are proved to do what is said there.

pub mod aux;
pub mod calc_regex;
pub mod capture;
pub mod error;
pub mod generate;
pub mod input;
pub mod locality;
pub mod matcher;
pub mod parse;
pub mod progress;
pub mod reader;
pub mod record;
pub mod semantics;
pub mod shape;
pub mod stream;
pub mod text;
pub mod validate;

pub use calc_regex::CalcRegex;
pub use error::{NameError, NameResult, ParserError, ParserResult};
pub use reader::Reader;
