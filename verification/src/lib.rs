//! kame: an SSH toolkit for the terminal.
//!
//! This crate holds the logic of the tool: reading host aliases out of an
//! SSH config, reading the output of `ssh -G`, normalizing the command line
//! and laying out what `pick` and `probe` print.

pub mod cli;
pub mod pick;
pub mod probe;
pub mod ssh;
pub mod text;
