//! The decisions of the command line: when help is asked for, and which
//! subcommand runs.
use vstd::prelude::*;

verus! {

/// Why the program stops without finishing its work.
pub enum Errors {
    /// Help was asked for, or the command line was not understood.
    Help,
    /// The options could not be read; the message says why.
    Cli(String),
    /// The configuration file could not be read; the message says why.
    Io(String),
    /// The configuration could not be understood; the message says why.
    Debug(String),
}

/// Whether argument `k` asks for help.
pub open spec fn is_help_flag(input: Seq<String>, k: int) -> bool {
    input[k]@ == "-h"@ || input[k]@ == "--help"@
}

/// Whether the arguments after the program name ask for help: there are
/// none, or one of them is `-h` or `--help` with no `--` before it.
pub open spec fn asks_for_help(input: Seq<String>) -> bool {
    ||| input.len() == 1
    ||| exists|k: int|
        1 <= k < input.len() && #[trigger] is_help_flag(input, k) && forall|m: int|
            1 <= m < k ==> input[m]@ != "--"@
}

/// Stops with `Errors::Help` where the command line (`input[0]` being the
/// program's name) asks for help, so that help wins over every other
/// option; `--` ends the options looked at.
pub fn handle_help_flag(input: &[String]) -> (r: Result<(), Errors>)
    requires
        input@.len() >= 1,
    ensures
        r is Err <==> asks_for_help(input@),
        r matches Err(e) ==> e is Help,
{
    let end_of_options = String::from_str("--");
    let short_help = String::from_str("-h");
    let long_help = String::from_str("--help");
    let n = input.len();
    let mut k: usize = 1;
    loop
        invariant
            1 <= k <= n,
            n == input@.len(),
            end_of_options@ == "--"@,
            short_help@ == "-h"@,
            long_help@ == "--help"@,
            forall|m: int| 1 <= m < k ==> (#[trigger] input@[m])@ != "--"@ && !is_help_flag(input@, m),
        ensures
            1 <= k <= n,
            forall|m: int| 1 <= m < k ==> (#[trigger] input@[m])@ != "--"@ && !is_help_flag(input@, m),
            k < n ==> input@[k as int]@ == "--"@,
        decreases n - k,
    {
        if k >= n {
            break ;
        }
        let arg = &input[k];
        if arg.eq(&end_of_options) {
            break ;
        }
        if arg.eq(&short_help) || arg.eq(&long_help) {
            assert(is_help_flag(input@, k as int));
            return Err(Errors::Help);
        }
        k = k + 1;
    }
    if n == 1 {
        Err(Errors::Help)
    } else {
        proof {
            if asks_for_help(input@) {
                let w = choose|w: int|
                    1 <= w < input@.len() && #[trigger] is_help_flag(input@, w) && forall|m: int|
                        1 <= m < w ==> (#[trigger] input@[m])@ != "--"@;
                if w > k {
                    assert(input@[k as int]@ != "--"@);
                }
                if w == k {
                    reveal_strlit("--");
                    reveal_strlit("-h");
                    reveal_strlit("--help");
                    assert("--"@[1] != "-h"@[1]);
                    assert("--"@.len() != "--help"@.len());
                }
            }
        }
        Ok(())
    }
}

/// The subcommands of the program.
pub enum Subcommand {
    /// The i3 window manager's configuration.
    I3,
    /// The shortcuts, expanded.
    Shortcuts,
    /// The keyspaces of the shortcuts.
    Keyspaces,
    /// A shell script.
    Sh,
    /// The shortcuts as read, before sorting.
    DebugShortcuts,
}

/// Which subcommand a word names, by its name or an alias of it.
pub open spec fn subcommand_named(word: Seq<char>) -> Option<Subcommand> {
    if word == "i3"@ {
        Some(Subcommand::I3)
    } else if word == "shortcuts"@ || word == "shortcut"@ || word == "s"@ {
        Some(Subcommand::Shortcuts)
    } else if word == "keyspaces"@ || word == "keyspace"@ || word == "k"@ {
        Some(Subcommand::Keyspaces)
    } else if word == "sh"@ {
        Some(Subcommand::Sh)
    } else if word == "debug-shortcuts"@ {
        Some(Subcommand::DebugShortcuts)
    } else {
        None
    }
}

/// The subcommand that the first free argument names; without one, the
/// shortcuts as read.  A word that names no subcommand is answered with
/// `Errors::Help`.
pub fn select_subcommand(first_free: Option<&String>) -> (r: Result<Subcommand, Errors>)
    ensures
        match first_free {
            None => r == Ok::<Subcommand, Errors>(Subcommand::DebugShortcuts),
            Some(word) => match subcommand_named(word@) {
                Some(c) => r == Ok::<Subcommand, Errors>(c),
                None => r matches Err(e) && e is Help,
            },
        },
{
    match first_free {
        None => Ok(Subcommand::DebugShortcuts),
        Some(word) => {
            if word.eq(&String::from_str("i3")) {
                Ok(Subcommand::I3)
            } else if word.eq(&String::from_str("shortcuts")) || word.eq(&String::from_str("shortcut"))
                || word.eq(&String::from_str("s")) {
                Ok(Subcommand::Shortcuts)
            } else if word.eq(&String::from_str("keyspaces")) || word.eq(&String::from_str("keyspace"))
                || word.eq(&String::from_str("k")) {
                Ok(Subcommand::Keyspaces)
            } else if word.eq(&String::from_str("sh")) {
                Ok(Subcommand::Sh)
            } else if word.eq(&String::from_str("debug-shortcuts")) {
                Ok(Subcommand::DebugShortcuts)
            } else {
                Err(Errors::Help)
            }
        },
    }
}

} // verus!
