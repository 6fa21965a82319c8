//! Workflow context documents kept beside the code they explain: parsing and
//! ranking of concern sections, supersession bookkeeping, the derived registry,
//! and the text transformations of the command line tool.
#![allow(unused_imports)]

use vstd::prelude::*;

pub mod cli;
pub mod commands;
pub mod document;
pub mod git;
pub mod glob_match;
pub mod id;
pub mod ignore;
pub mod index;
pub mod output;
pub mod paths;
pub mod registry;
pub mod section_laws;
pub mod sort;
pub mod subtree;
pub mod text;
pub mod views;

verus! {
} // verus!
