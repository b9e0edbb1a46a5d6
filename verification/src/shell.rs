//! Shell integration.
use vstd::prelude::*;

verus! {

/// The shell function that lets `gwt list` and `gwt new` change the shell's
/// directory: in an interactive terminal `gwt list` runs `gwt list --select`;
/// `gwt new` runs `gwt new --select` (which itself asks for a terminal). Each
/// `cd`s to the path printed, if any, and stops on failure. Everything else goes to the `gwt` command.
pub fn init() -> (script: &'static str)
    ensures
        script@ == "gwt() {\n  if [ \"$#\" -eq 1 ] && [ \"$1\" = \"list\" ] && [ -t 0 ] && [ -t 1 ]; then\n    local _gwt_path\n    _gwt_path=\"$(command gwt list --select)\" || return $?\n    if [ -n \"$_gwt_path\" ]; then\n      builtin cd -- \"$_gwt_path\"\n    fi\n  elif [ \"$#\" -eq 1 ] && [ \"$1\" = \"new\" ]; then\n    local _gwt_path\n    _gwt_path=\"$(command gwt new --select)\" || return $?\n    if [ -n \"$_gwt_path\" ]; then\n      builtin cd -- \"$_gwt_path\"\n    fi\n  else\n    command gwt \"$@\"\n  fi\n}"@,
{
    "gwt() {\n  if [ \"$#\" -eq 1 ] && [ \"$1\" = \"list\" ] && [ -t 0 ] && [ -t 1 ]; then\n    local _gwt_path\n    _gwt_path=\"$(command gwt list --select)\" || return $?\n    if [ -n \"$_gwt_path\" ]; then\n      builtin cd -- \"$_gwt_path\"\n    fi\n  elif [ \"$#\" -eq 1 ] && [ \"$1\" = \"new\" ]; then\n    local _gwt_path\n    _gwt_path=\"$(command gwt new --select)\" || return $?\n    if [ -n \"$_gwt_path\" ]; then\n      builtin cd -- \"$_gwt_path\"\n    fi\n  else\n    command gwt \"$@\"\n  fi\n}"
}

} // verus!
