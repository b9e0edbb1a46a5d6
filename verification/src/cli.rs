//! The command line: which command the arguments ask for.
use vstd::prelude::*;
use crate::text::{chars_of, owned, push_text, same_chars};

verus! {

/// What the arguments ask `gwt` to do.
#[derive(Debug, PartialEq, Eq)]
pub enum Command {
    /// Print the help text.
    Help,
    /// Print the version.
    Version,
    /// Print the shell integration (for zsh or bash).
    Init,
    /// `init` with a wrong argument: print its usage.
    InitUsage,
    /// List worktrees; with `select`, print the chosen path for the shell.
    List { select: bool },
    /// `list` with wrong arguments: print its usage.
    ListUsage,
    /// `new` without `--select`: shell integration is needed.
    NewNeedsShell,
    /// `new` with wrong arguments: print its usage.
    NewUsage,
    /// Create a worktree interactively and print its path for the shell.
    NewSelect,
    /// Remove a linked worktree interactively.
    Remove,
    /// `remove` with wrong arguments: print its usage.
    RemoveUsage,
    /// An unknown command word.
    Unknown(String),
}

/// The command that `args` (without the program name) ask for.
pub open spec fn command_of(args: Seq<Seq<char>>) -> Command {
    if args.len() == 0 || args[0] == "--help"@ || args[0] == "-h"@ || args[0] == "help"@ {
        Command::Help
    } else if args[0] == "--version"@ || args[0] == "-v"@ {
        Command::Version
    } else if args[0] == "init"@ {
        if args.len() != 2 || !(args[1] == "zsh"@ || args[1] == "bash"@) {
            Command::InitUsage
        } else {
            Command::Init
        }
    } else if args[0] == "list"@ {
        let select = args.len() == 2 && args[1] == "--select"@;
        if (!select && args.len() != 1) || args.len() > 2 {
            Command::ListUsage
        } else {
            Command::List { select }
        }
    } else if args[0] == "new"@ {
        if args.len() == 1 {
            Command::NewNeedsShell
        } else if args.len() != 2 || args[1] != "--select"@ {
            Command::NewUsage
        } else {
            Command::NewSelect
        }
    } else if args[0] == "remove"@ {
        if args.len() != 1 {
            Command::RemoveUsage
        } else {
            Command::Remove
        }
    } else {
        Command::Unknown(arbitrary())
    }
}

fn word_is(s: &String, word: &str) -> (r: bool)
    ensures
        r == (s@ == word@),
{
    let a = chars_of(s.as_str());
    let b = chars_of(word);
    same_chars(a.as_slice(), b.as_slice())
}

/// Reads the command from the arguments (without the program name).
pub fn parse_command(args: &Vec<String>) -> (c: Command)
    ensures
        c matches Command::Unknown(w) ==> (command_of(crate::text::texts(args@)) is Unknown && w@ == args@[0]@),
        !(c is Unknown) ==> c == command_of(crate::text::texts(args@)),
{
    let ghost a = crate::text::texts(args@);
    if args.len() == 0 || word_is(&args[0], "--help") || word_is(&args[0], "-h") || word_is(&args[0], "help") {
        return Command::Help;
    }
    assert(a[0] == args@[0]@);
    if word_is(&args[0], "--version") || word_is(&args[0], "-v") {
        return Command::Version;
    }
    let n = args.len();
    if n >= 2 {
        assert(a[1] == args@[1]@);
    }
    if word_is(&args[0], "init") {
        if n != 2 || !(word_is(&args[1], "zsh") || word_is(&args[1], "bash")) {
            return Command::InitUsage;
        }
        return Command::Init;
    }
    if word_is(&args[0], "list") {
        let select = n == 2 && word_is(&args[1], "--select");
        if (!select && n != 1) || n > 2 {
            return Command::ListUsage;
        }
        return Command::List { select };
    }
    if word_is(&args[0], "new") {
        if n == 1 {
            return Command::NewNeedsShell;
        }
        if n != 2 || !word_is(&args[1], "--select") {
            return Command::NewUsage;
        }
        return Command::NewSelect;
    }
    if word_is(&args[0], "remove") {
        if n != 1 {
            return Command::RemoveUsage;
        }
        return Command::Remove;
    }
    Command::Unknown(args[0].clone())
}

/// The help text after the version number.
pub open spec fn help_body() -> Seq<char> {
    " — switch between Git worktrees\n\nUsage:\n  gwt list          List and switch between worktrees\n  gwt new           Create and switch to a worktree (shell integration required)\n  gwt remove        Interactively remove a linked worktree\n  gwt init zsh      Print zsh integration\n  gwt init bash     Print bash integration\n  gwt --help        Show help\n  gwt --version     Show version\n\nInstall shell integration so list and new can change the current directory:\n  eval \"$(gwt init zsh)\"\n  eval \"$(gwt init bash)\""@
}

/// The help text for `gwt` of the given version.
pub fn help(version: &str) -> (text: String)
    ensures
        text@ == "gwt "@ + version@ + help_body(),
{
    let mut text = owned("gwt ");
    push_text(&mut text, version);
    push_text(&mut text, " — switch between Git worktrees\n\nUsage:\n  gwt list          List and switch between worktrees\n  gwt new           Create and switch to a worktree (shell integration required)\n  gwt remove        Interactively remove a linked worktree\n  gwt init zsh      Print zsh integration\n  gwt init bash     Print bash integration\n  gwt --help        Show help\n  gwt --version     Show version\n\nInstall shell integration so list and new can change the current directory:\n  eval \"$(gwt init zsh)\"\n  eval \"$(gwt init bash)\"");
    text
}

} // verus!
