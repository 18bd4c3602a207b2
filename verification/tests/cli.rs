use chordscript::cli::{handle_help_flag, select_subcommand, Errors, Subcommand};

fn args(words: &[&str]) -> Vec<String> {
    words.iter().map(|w| w.to_string()).collect()
}

#[test]
fn help_without_arguments() {
    assert!(matches!(handle_help_flag(&args(&["prog"])), Err(Errors::Help)));
}

#[test]
fn help_flags_are_seen_anywhere_before_double_dash() {
    assert!(matches!(handle_help_flag(&args(&["prog", "-h"])), Err(Errors::Help)));
    assert!(matches!(handle_help_flag(&args(&["prog", "-c", "file", "--help"])), Err(Errors::Help)));
    assert!(matches!(handle_help_flag(&args(&["prog", "keyspaces", "-h", "--"])), Err(Errors::Help)));
}

#[test]
fn help_flags_after_double_dash_are_ignored() {
    assert!(handle_help_flag(&args(&["prog", "--", "-h"])).is_ok());
    assert!(handle_help_flag(&args(&["prog", "-c", "file", "--", "--help"])).is_ok());
}

#[test]
fn ordinary_arguments_pass() {
    assert!(handle_help_flag(&args(&["prog", "keyspaces", "-c", "file"])).is_ok());
    assert!(handle_help_flag(&args(&["prog", "-help"])).is_ok());
    assert!(handle_help_flag(&args(&["prog", "--"])).is_ok());
}

#[test]
fn subcommands_and_aliases() {
    let w = |s: &str| s.to_string();
    assert!(matches!(select_subcommand(None), Ok(Subcommand::DebugShortcuts)));
    assert!(matches!(select_subcommand(Some(&w("i3"))), Ok(Subcommand::I3)));
    for name in ["shortcuts", "shortcut", "s"] {
        assert!(matches!(select_subcommand(Some(&w(name))), Ok(Subcommand::Shortcuts)));
    }
    for name in ["keyspaces", "keyspace", "k"] {
        assert!(matches!(select_subcommand(Some(&w(name))), Ok(Subcommand::Keyspaces)));
    }
    assert!(matches!(select_subcommand(Some(&w("sh"))), Ok(Subcommand::Sh)));
    assert!(matches!(select_subcommand(Some(&w("debug-shortcuts"))), Ok(Subcommand::DebugShortcuts)));
    assert!(matches!(select_subcommand(Some(&w("keys"))), Err(Errors::Help)));
    assert!(matches!(select_subcommand(Some(&w(""))), Err(Errors::Help)));
}
