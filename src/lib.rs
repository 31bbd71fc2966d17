//! A small pattern matcher over Unicode text, together with a handful of
//! borrowing utilities on strings and integers.
pub mod borrowing;
pub mod matcher;
pub mod text;
pub mod words;

pub use borrowing::{identity, only_if_greater, only_if_greater_hard, split, vector_set};
pub use matcher::{compile, CompileError, Matcher, MatcherToken};
pub use text::chars_of;
pub use words::{count_shared_letters, find_difference, Difference, UniqueWords};
