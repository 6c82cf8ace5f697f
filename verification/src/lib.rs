//! Building blocks of a copyright-notice checker.
//!
//! The heart of the crate is [`rsync_pattern`]: an rsync-style glob engine
//! that compiles a pattern string once into a small instruction sequence
//! and then matches candidate paths against it, byte by byte, with
//! backtracking.  Beside it, [`notice`] compares a copyright-notice
//! prototype against the text actually found in a file, letting a single
//! space stand for whitespace that spans line breaks and comment
//! decoration.

pub mod notice;
pub mod rsync_pattern;
