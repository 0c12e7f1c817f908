//! A tokenizer for a small recipe markup dialect: ingredients, amounts,
//! materials, timers, comments, metadata lines and a trailing backstory,
//! embedded in plain prose.
//!
//! ```text
//! >> tags: vegan
//! Boil the {quinoa}(200gr) for t{5 minutes} in a m{pot}. /* or longer */
//! ---
//! Grandma's recipe
//! ```
use vstd::prelude::*;

pub mod chars;
pub mod grammar;
pub mod laws;
pub mod scanner;
pub mod token;

pub use grammar::{ErrorKind, ParseError};
pub use scanner::parse;
pub use token::{render_all, Token};

verus! {

} // verus!
