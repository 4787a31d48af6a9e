//! Password policies read from lines such as `1-3 a: abcde`, and the rules that
//! decide whether a password satisfies its policy.
//!
//! Passwords are examined byte by byte: a position is a byte offset into the
//! password, which agrees with the character offset only for ASCII text.

pub mod line;
pub mod policy;
pub mod tally;
