//! Verified core of an interactive command interpreter.
//!
//! The library covers the pure heart of a shell: turning a line of bytes into
//! tokens, grouping tokens into a pipeline of command stages, planning how the
//! stages are wired together (pipes, file redirections, process groups),
//! resolving process substitutions, classifying builtin commands, and keeping
//! the table of background jobs.  Everything that talks to the operating
//! system (spawning, waiting, signals, the terminal) lives outside, in an
//! unverified driver that feeds this library plain values and obeys the
//! contracts stated here.

pub mod builtins;
pub mod jobs;
pub mod laws;
pub mod lexer;
pub mod lines;
pub mod parser;
pub mod plan;
pub mod subst;
pub mod token;
