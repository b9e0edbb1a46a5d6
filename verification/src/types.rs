//! The records that the rest of the library works on.
use vstd::prelude::*;

verus! {

/// Whether a worktree can be inspected.
#[derive(Debug, Clone, Copy, PartialEq, Eq, Structural)]
pub enum Availability {
    Available,
    Prunable,
    Bare,
    Unavailable,
}

/// How many files of a worktree are in each state.
#[derive(Debug, Clone, Copy, PartialEq, Eq, Structural)]
pub struct StatusCounts {
    pub conflicted: usize,
    pub staged: usize,
    pub modified: usize,
    pub untracked: usize,
}

impl Default for StatusCounts {
    fn default() -> (c: Self)
        ensures
            c == (StatusCounts { conflicted: 0, staged: 0, modified: 0, untracked: 0 }),
    {
        StatusCounts { conflicted: 0, staged: 0, modified: 0, untracked: 0 }
    }
}

/// One worktree as Git reports it, with what the library learned about it.
#[derive(Debug, PartialEq, Eq)]
pub struct Worktree {
    pub path: String,
    pub head: String,
    pub branch: Option<String>,
    pub detached: bool,
    pub bare: bool,
    pub locked: Option<String>,
    pub prunable: Option<String>,
    pub main: bool,
    pub current: bool,
    pub availability: Availability,
    pub status: Option<StatusCounts>,
}

/// The mathematical content of a [`Worktree`].
pub struct WorktreeModel {
    pub path: Seq<char>,
    pub head: Seq<char>,
    pub branch: Option<Seq<char>>,
    pub detached: bool,
    pub bare: bool,
    pub locked: Option<Seq<char>>,
    pub prunable: Option<Seq<char>>,
    pub main: bool,
    pub current: bool,
    pub availability: Availability,
    pub status: Option<StatusCounts>,
}

/// The text of an optional string.
pub open spec fn opt_text(o: Option<String>) -> Option<Seq<char>> {
    match o {
        Some(s) => Some(s@),
        None => None,
    }
}

impl View for Worktree {
    type V = WorktreeModel;

    open spec fn view(&self) -> WorktreeModel {
        WorktreeModel {
            path: self.path@,
            head: self.head@,
            branch: opt_text(self.branch),
            detached: self.detached,
            bare: self.bare,
            locked: opt_text(self.locked),
            prunable: opt_text(self.prunable),
            main: self.main,
            current: self.current,
            availability: self.availability,
            status: self.status,
        }
    }
}

/// The fresh record that a `worktree <path>` line opens.
pub open spec fn fresh_record(path: Seq<char>) -> WorktreeModel {
    WorktreeModel {
        path,
        head: Seq::empty(),
        branch: None,
        detached: false,
        bare: false,
        locked: None,
        prunable: None,
        main: false,
        current: false,
        availability: Availability::Unavailable,
        status: None,
    }
}

/// A copy of an optional string.
pub(crate) fn copy_opt(o: &Option<String>) -> (r: Option<String>)
    ensures
        opt_text(r) == opt_text(*o),
{
    match o {
        Some(s) => Some(s.clone()),
        None => None,
    }
}

impl Clone for Worktree {
    fn clone(&self) -> (r: Self)
        ensures
            r@ == self@,
    {
        Worktree {
            path: self.path.clone(),
            head: self.head.clone(),
            branch: copy_opt(&self.branch),
            detached: self.detached,
            bare: self.bare,
            locked: copy_opt(&self.locked),
            prunable: copy_opt(&self.prunable),
            main: self.main,
            current: self.current,
            availability: self.availability,
            status: self.status,
        }
    }
}

impl Worktree {
    /// A record for `path` with nothing yet known about it.
    pub fn record(path: String) -> (w: Self)
        ensures
            w@ == fresh_record(path@),
    {
        Worktree {
            path,
            head: String::new(),
            branch: None,
            detached: false,
            bare: false,
            locked: None,
            prunable: None,
            main: false,
            current: false,
            availability: Availability::Unavailable,
            status: None,
        }
    }
}

/// A local branch, and the worktree that has it checked out, if any.
#[derive(Debug, PartialEq, Eq)]
pub struct BranchCandidate {
    pub name: String,
    pub occupied_by: Option<String>,
}

impl Clone for BranchCandidate {
    fn clone(&self) -> (r: Self)
        ensures
            r.name@ == self.name@,
            opt_text(r.occupied_by) == opt_text(self.occupied_by),
    {
        BranchCandidate { name: self.name.clone(), occupied_by: copy_opt(&self.occupied_by) }
    }
}

impl BranchCandidate {
    /// A branch can be chosen for a new worktree when no worktree has it checked out.
    pub open spec fn is_free(&self) -> bool {
        self.occupied_by is None
    }

    /// Whether no worktree has this branch checked out.
    pub fn available(&self) -> (r: bool)
        ensures
            r == self.is_free(),
    {
        self.occupied_by.is_none()
    }
}

/// What the branch menu settled on.
#[derive(Debug, PartialEq, Eq)]
pub enum BranchSelection {
    Existing(BranchCandidate),
    CreateNew,
}

} // verus!
