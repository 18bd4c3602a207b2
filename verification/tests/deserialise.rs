use chordscript::deserialise::keyspace_preview::{KeyspaceAction as PreviewAction, KeyspacePreview};
use chordscript::deserialise::{is_whitespace_char, push_command, shortcut_list_text, wrap_chord};
use chordscript::keyspace::{allocate_keyspaces, KeyspaceAction};
use chordscript::structs::{Chord, Hotkey, Shortcut};

const ALT: u8 = 1;
const CTRL: u8 = 2;
const SHIFT: u8 = 4;
const SUPER: u8 = 8;

fn ch(key: usize, modifiers: u8) -> Chord {
    Chord { key, modifiers }
}

#[test]
fn chord_text_lists_modifiers_then_key() {
    assert_eq!(wrap_chord(&ch(39, SUPER | CTRL)), "ctrl super Return");
    assert_eq!(wrap_chord(&ch(12, 0)), "a");
    assert_eq!(wrap_chord(&ch(0, ALT | CTRL | SHIFT | SUPER)), "alt ctrl shift super ,");
    assert_eq!(wrap_chord(&ch(38, SHIFT)), "shift Space");
    // bits above the four modifiers name nothing
    assert_eq!(wrap_chord(&ch(2, 16 | ALT)), "alt 0");
}

#[test]
fn whitespace_characters() {
    assert!(is_whitespace_char(' '));
    assert!(is_whitespace_char('\t'));
    assert!(is_whitespace_char('\u{3000}'));
    assert!(!is_whitespace_char('a'));
    assert!(!is_whitespace_char('+'));
}

#[test]
fn command_is_trimmed_escaped_and_quoted() {
    let mut out = String::from("> ");
    push_command(&mut out, &[" echo ".to_string(), "'hi' ".to_string(), "\n".to_string()]);
    assert_eq!(out, "> 'echo '\\''hi'\\'''");
    let mut empty = String::new();
    push_command(&mut empty, &["  ".to_string()]);
    assert_eq!(empty, "''");
    let mut none = String::new();
    push_command(&mut none, &[]);
    assert_eq!(none, "''");
}

#[test]
fn preview_of_entries() {
    let a = ch(12, SUPER);
    let b = ch(13, SUPER);
    let title = [a, b];
    let cmd = vec!["st".to_string(), " -e tmux".to_string()];
    let set = (a, KeyspaceAction::SetState(&title));
    let run = (b, KeyspaceAction::Action(&cmd));
    assert_eq!(PreviewAction(&set).to_string_custom(), "MODE: super a -> super a ; super b");
    assert_eq!(PreviewAction(&run).to_string_custom(), "super b -> 'st -e tmux'");
}

#[test]
fn preview_of_keyspaces() {
    let (a, b, c, d) = (ch(12, SUPER), ch(13, 0), ch(14, 0), ch(39, SUPER));
    let h1 = [a, b];
    let h2 = [a, c];
    let h3 = [d];
    let c1 = vec!["one".to_string()];
    let c2 = vec!["two".to_string()];
    let c3 = vec!["three".to_string()];
    let list = vec![
        Shortcut { hotkey: Hotkey(&h1), action: &c1 },
        Shortcut { hotkey: Hotkey(&h2), action: &c2 },
        Shortcut { hotkey: Hotkey(&h3), action: &c3 },
    ];
    let keyspaces = allocate_keyspaces(&list);
    let text = KeyspacePreview(&keyspaces).to_string_custom();
    assert_eq!(
        text,
        "MODE: super a -> super a\n\
         super Return -> 'three'\n\
         \n\
         mode \"super a\" {\n  \
         b -> 'one'\n  \
         c -> 'two'\n\
         }\n"
    );
}

#[test]
fn keyspace_listing() {
    let (a, b, c) = (ch(12, SUPER), ch(13, 0), ch(14, 0));
    let h1 = [a, b];
    let h2 = [a, c];
    let c1 = vec!["one".to_string(), "!".to_string()];
    let c2 = vec!["two".to_string()];
    let list = vec![
        Shortcut { hotkey: Hotkey(&h1), action: &c1 },
        Shortcut { hotkey: Hotkey(&h2), action: &c2 },
    ];
    let keyspaces = allocate_keyspaces(&list);
    assert_eq!(keyspaces.len(), 2);
    let pad = |s: &str| format!("{:<40}", s);
    assert_eq!(keyspaces[0].print_text(), format!("=== '' ===\n{} | Set: super a\n", pad("super a")));
    assert_eq!(
        keyspaces[1].print_text(),
        format!("=== super a ===\n{} | Action: one!\n{} | Action: two\n", pad("b"), pad("c"))
    );
}

#[test]
fn shortcut_listing() {
    let (a, b) = (ch(12, ALT), ch(39, 0));
    let h1 = [a, b];
    let h2 = [b];
    let c1 = vec!["x".to_string(), "y".to_string()];
    let c2 = vec![];
    let list = vec![
        Shortcut { hotkey: Hotkey(&h1), action: &c1 },
        Shortcut { hotkey: Hotkey(&h2), action: &c2 },
    ];
    assert_eq!(shortcut_list_text(&list), "  alt a ; Return:   xy\n  Return:   \n");
    assert_eq!(shortcut_list_text(&[]), "");
}
