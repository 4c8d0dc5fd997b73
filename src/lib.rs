//! A small concatenative stack machine: lines of text are split into tokens,
//! tokens become words, and words run against a stack of 64-bit integers and
//! an environment of user definitions.
pub mod env;
pub mod error;
pub mod eval;
pub mod laws;
pub mod machine;
pub mod primitive;
pub mod token;
pub mod word;

pub use crate::error::{Error, Fault};
pub use crate::machine::{Machine, MachineView, DEFAULT_DEPTH_LIMIT};
pub use crate::primitive::Core;
pub use crate::token::{Token, TokenView};
pub use crate::word::{Word, WordView};
