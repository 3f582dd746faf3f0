//! JSON encoding and decoding that never recurses on the call stack.
//!
//! [`json::from_str`] reads a text into a [`json::Value`] tree, or into any
//! type that implements [`Deserialize`], with an explicit stack of open
//! containers. [`json::to_string`] writes a tree back with an explicit stack
//! as well, and dropping a tree releases it through a worklist, so nesting of
//! any depth is safe throughout.
//!
//! The contracts speak of the model in [`model`]: decoding yields
//! [`grammar::decode`] of the text's bytes, and encoding yields
//! [`model::encode`] of the tree.
use vstd::prelude::*;

pub mod de;
pub mod error;
pub mod grammar;
pub mod json;
pub mod laws;
pub mod lex;
pub mod model;
pub mod place;
pub mod ptr;
pub mod read;
pub mod ser;
pub mod value;
pub mod write;

pub use crate::de::Deserialize;
pub use crate::error::{Error, Result};
pub use crate::ser::Serialize;

verus! {

} // verus!
