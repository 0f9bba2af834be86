//! The verified core of PINCER, a desktop Git conflict resolver: the
//! three-way merge chunking engine, the git plumbing's decisions, the user
//! settings and the shell's outcomes.

pub mod cluster;
pub mod diff;
pub mod emphasis;
pub mod error;
pub mod laws;
pub mod merge;
pub mod repo;
pub mod settings;
pub mod shell;
pub mod text;
