//! The logic of `gwt`, an interactive Git worktree switcher: reading Git's
//! porcelain output, summarising worktree status, fitting the worktree table
//! to the terminal, and the keys, editor and menus of its interface.
use vstd::prelude::*;

pub mod text;
pub mod types;
pub mod status;
pub mod theme;
pub mod table;
pub mod git;
pub mod tui;
pub mod shell;
pub mod cli;
pub mod styled;

verus! {

} // verus!
