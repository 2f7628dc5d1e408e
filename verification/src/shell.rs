//! The target shells and their history files.
use vstd::prelude::*;
use crate::path::{file_name, joined};
use crate::text::lowercase;

verus! {

/// A shell whose history format the exporter writes.
#[derive(Debug, Clone, Copy, PartialEq, Eq, Structural)]
pub enum Shell {
    Fish,
    Bash,
    Zsh,
}

/// The shell a lowercase name stands for.
pub open spec fn shell_named(lower: Seq<char>) -> Option<Shell> {
    if lower == seq!['f', 'i', 's', 'h'] {
        Some(Shell::Fish)
    } else if lower == seq!['b', 'a', 's', 'h'] {
        Some(Shell::Bash)
    } else if lower == seq!['z', 's', 'h'] {
        Some(Shell::Zsh)
    } else {
        None
    }
}

/// The message for a name that is no known shell.
pub open spec fn unknown_shell_message(name: Seq<char>) -> Seq<char> {
    "unknown shell: "@ + name + " (expected fish, bash, or zsh)"@
}

/// The shell a lowercase name stands for: `fish`, `bash` or `zsh`.
pub fn shell_from_lowercase(lower: &str) -> (r: Option<Shell>)
    ensures
        r == shell_named(lower@),
{
    let cs = crate::text::chars_of(lower);
    if crate::path::chars_equal(&cs, &vec!['f', 'i', 's', 'h']) {
        Some(Shell::Fish)
    } else if crate::path::chars_equal(&cs, &vec!['b', 'a', 's', 'h']) {
        Some(Shell::Bash)
    } else if crate::path::chars_equal(&cs, &vec!['z', 's', 'h']) {
        Some(Shell::Zsh)
    } else {
        None
    }
}

/// Parses a shell name, ignoring case; any other name is refused with a message
/// that names it.
pub fn parse_shell(s: &str) -> (r: Result<Shell, String>)
    ensures
        match r {
            Ok(sh) => shell_named(lowercase(s@)) == Some(sh),
            Err(msg) => shell_named(lowercase(s@)) is None && msg@ == unknown_shell_message(s@),
        },
{
    let lower = crate::text::to_lowercase(s);
    match shell_from_lowercase(lower.as_str()) {
        Some(sh) => Ok(sh),
        None => {
            let mut msg = String::new();
            crate::text::push_str(&mut msg, "unknown shell: ");
            crate::text::push_str(&mut msg, s);
            crate::text::push_str(&mut msg, " (expected fish, bash, or zsh)");
            Err(msg)
        },
    }
}

impl std::str::FromStr for Shell {
    type Err = String;

    /// Parses a shell name as [`parse_shell`] does.
    fn from_str(s: &str) -> (r: Result<Shell, String>)
        ensures
            match r {
                Ok(sh) => shell_named(lowercase(s@)) == Some(sh),
                Err(msg) => shell_named(lowercase(s@)) is None && msg@ == unknown_shell_message(s@),
            },
    {
        parse_shell(s)
    }
}

/// The shell that the program at `shell_path` (the value of `$SHELL`) is: the
/// file name of the path, parsed as a shell name.
pub open spec fn shell_of_path(shell_path: Seq<char>) -> Option<Shell> {
    match file_name(shell_path) {
        Some(name) => shell_named(lowercase(name)),
        None => None,
    }
}

/// The standard history file of each shell under `home`, or for bash and zsh
/// the value of `$HISTFILE` when it is set.
pub open spec fn default_history(sh: Shell, home: Seq<char>, histfile: Option<Seq<char>>) -> Seq<
    char,
> {
    match sh {
        Shell::Fish => joined(home, ".local/share/fish/fish_history"@),
        Shell::Bash => match histfile {
            Some(h) => h,
            None => joined(home, ".bash_history"@),
        },
        Shell::Zsh => match histfile {
            Some(h) => h,
            None => joined(home, ".zsh_history"@),
        },
    }
}

fn join_str(base: &str, rel: &str) -> (r: String)
    ensures
        r@ == joined(base@, rel@),
{
    let b = crate::text::chars_of(base);
    let r = crate::text::chars_of(rel);
    let j = crate::path::join_path(&b, &r);
    crate::text::string_of(&j)
}

impl Shell {
    /// The shell named by the file name of `shell_path` (the value of `$SHELL`).
    pub fn from_shell_path(shell_path: &str) -> (r: Option<Shell>)
        ensures
            r == shell_of_path(shell_path@),
    {
        let cs = crate::text::chars_of(shell_path);
        match crate::path::file_name_of(&cs) {
            Some(name) => {
                let s = crate::text::string_of(&name);
                match parse_shell(s.as_str()) {
                    Ok(sh) => Some(sh),
                    Err(_) => None,
                }
            },
            None => None,
        }
    }

    /// The shell's standard history file under `home`; for bash and zsh,
    /// `histfile` (the value of `$HISTFILE`) wins when it is set.
    pub fn default_history_path(self, home: &str, histfile: Option<String>) -> (r: String)
        ensures
            r@ == default_history(
                self,
                home@,
                match histfile {
                    Some(h) => Some(h@),
                    None => None,
                },
            ),
    {
        match self {
            Shell::Fish => join_str(home, ".local/share/fish/fish_history"),
            Shell::Bash => match histfile {
                Some(h) => h,
                None => join_str(home, ".bash_history"),
            },
            Shell::Zsh => match histfile {
                Some(h) => h,
                None => join_str(home, ".zsh_history"),
            },
        }
    }
}

} // verus!
