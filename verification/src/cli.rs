//! The command line: the target shell, the output file and the atuin database,
//! each optional, and how the missing ones are filled in.
use vstd::prelude::*;
use crate::path::joined;
use crate::shell::{Shell, default_history};

verus! {

/// The arguments of `atuin-export [<shell>] [-o <path>] [-d <path>]`.
pub struct Cli {
    /// Target shell: fish, bash, or zsh (defaults to `$SHELL`).
    pub shell: Option<Shell>,
    /// Output history file path (defaults to the shell's standard location).
    pub output: Option<String>,
    /// Atuin database path (defaults to `~/.local/share/atuin/history.db`).
    pub db: Option<String>,
}

/// What an export does: which format, read from where, written to where.
pub struct ExportPlan {
    pub shell: Shell,
    pub db: String,
    pub output: String,
}

/// atuin's database under `home`.
pub open spec fn default_db(home: Seq<char>) -> Seq<char> {
    joined(home, ".local/share/atuin/history.db"@)
}

pub open spec fn opt_view(o: Option<String>) -> Option<Seq<char>> {
    match o {
        Some(s) => Some(s@),
        None => None,
    }
}

impl Cli {
    /// The export that these arguments ask for: `detected` is the shell named by
    /// `$SHELL` and `histfile` the value of `$HISTFILE`, if set. `None` when no
    /// shell is given and none was detected.
    pub fn plan(&self, home: &str, detected: Option<Shell>, histfile: Option<String>) -> (r:
        Option<ExportPlan>)
        ensures
            match r {
                None => self.shell is None && detected is None,
                Some(p) => {
                    &&& p.shell == (match self.shell {
                        Some(s) => s,
                        None => detected->Some_0,
                    })
                    &&& (self.shell is None ==> detected is Some)
                    &&& p.db@ == (match self.db {
                        Some(d) => d@,
                        None => default_db(home@),
                    })
                    &&& p.output@ == (match self.output {
                        Some(o) => o@,
                        None => default_history(p.shell, home@, opt_view(histfile)),
                    })
                },
            },
    {
        let shell = match self.shell {
            Some(s) => s,
            None => match detected {
                Some(s) => s,
                None => return None,
            },
        };
        let db = match &self.db {
            Some(d) => d.clone(),
            None => {
                let h = crate::text::chars_of(home);
                let rel = crate::text::chars_of(".local/share/atuin/history.db");
                crate::text::string_of(&crate::path::join_path(&h, &rel))
            },
        };
        let output = match &self.output {
            Some(o) => o.clone(),
            None => shell.default_history_path(home, histfile),
        };
        Some(ExportPlan { shell, db, output })
    }
}

} // verus!
