//! The `init` subcommand's logic: recognizing a supported shell and
//! producing the shell function that pipes the builtin `alias` listing
//! through the formatter.

use vstd::prelude::*;
use crate::text::str_eq;

verus! {

/// The shell families the formatter can set up. All supported shells are
/// Bourne-family and share one snippet.
#[derive(Debug, Clone, Copy, PartialEq, Eq, Structural)]
pub enum Shell {
    Bourne,
}

/// The one fatal `init` error: a shell name outside the Bourne family.
#[derive(Debug, Clone, Copy, PartialEq, Eq, Structural)]
pub enum InitError {
    UnsupportedShell,
}

impl InitError {
    /// The diagnostic a caller prints for this error.
    pub fn message(&self) -> (r: String)
        ensures
            r@ == "Unsupported shell"@,
    {
        String::from_str("Unsupported shell")
    }
}

/// The shell names `init` accepts.
pub open spec fn recognized(s: Seq<char>) -> bool {
    s == "sh"@ || s == "bash"@ || s == "zsh"@
}

impl Shell {
    /// Maps a shell name to its family; `sh`, `bash` and `zsh` are the
    /// recognized names.
    pub fn from_str(s: &str) -> (r: Result<Shell, InitError>)
        ensures
            r is Ok <==> recognized(s@),
            r is Ok ==> r->Ok_0 == Shell::Bourne,
            r is Err ==> r->Err_0 == InitError::UnsupportedShell,
    {
        if str_eq(s, "sh") || str_eq(s, "bash") || str_eq(s, "zsh") {
            Ok(Shell::Bourne)
        } else {
            Err(InitError::UnsupportedShell)
        }
    }
}

/// The shell function that `init` emits: with no arguments it pipes the
/// builtin `alias` listing through the formatter, otherwise it delegates
/// to the builtin unchanged.
pub open spec fn bourne_snippet() -> Seq<char> {
    "alias() {\n    if [ $# -eq 0 ]; then\n        # Pipe the output of the builtin alias command to be formatted\n        builtin alias | format-aliases\n    else\n        # Pass the arguments to the builtin alias command\n        builtin alias ${@}\n    fi\n}\n"@
}

/// The text the `init` subcommand prints for a recognized shell, or the
/// unsupported-shell error for any other name.
pub fn function_text(shell: &str) -> (r: Result<String, InitError>)
    ensures
        (match r {
            Ok(t) => recognized(shell@) && t@ == bourne_snippet(),
            Err(e) => !recognized(shell@) && e == InitError::UnsupportedShell,
        }),
{
    match Shell::from_str(shell) {
        Ok(Shell::Bourne) => Ok(
            String::from_str(
                "alias() {\n    if [ $# -eq 0 ]; then\n        # Pipe the output of the builtin alias command to be formatted\n        builtin alias | format-aliases\n    else\n        # Pass the arguments to the builtin alias command\n        builtin alias ${@}\n    fi\n}\n",
            ),
        ),
        Err(e) => Err(e),
    }
}

} // verus!
