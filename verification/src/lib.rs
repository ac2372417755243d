//! Lazy, allocation-free substring splitting.
//!
//! A [`StrSplit`] walks a borrowed string and hands out the pieces that lie
//! between successive non-overlapping occurrences of a delimiter, without
//! copying any text. The delimiter is anything that implements
//! [`Delimiter`]; literal substrings (`&str`) and single characters (`char`)
//! are provided. All positions are counted in characters (code points).

pub mod delimiter;
pub mod model;
pub mod split;

pub use crate::delimiter::Delimiter;
pub use crate::split::StrSplit;
pub use crate::split::until_char;
