//! The logic of each subcommand, apart from reading and writing files.
pub mod backfill_ranks;
pub mod append;
pub mod assemble;
pub mod check;
pub mod gc;
pub mod guidance;
pub mod init;
pub mod list;
pub mod publish;
pub mod refresh;
pub mod search;
pub mod service;
pub mod suggest;
pub mod supersede;
