use vstd::prelude::*;

verus! {

/// One chord of a hotkey: a key (index into `KEYCODES`) pressed together
/// with a set of modifiers (bit `i` stands for `MODIFIERS[i]`).
#[derive(Clone, Copy, Debug, PartialEq, Eq, Structural)]
pub struct Chord {
    pub key: usize,
    pub modifiers: u8,
}

/// A sequence of chords, pressed one after another.
#[derive(Clone, Copy, Debug)]
pub struct Hotkey<'b>(pub &'b [Chord]);

/// A hotkey together with the command it runs.
#[derive(Clone, Copy, Debug)]
pub struct Shortcut<'b> {
    pub hotkey: Hotkey<'b>,
    pub action: &'b [String],
}

/// The chords of a shortcut's hotkey.
pub open spec fn chords_of(s: Shortcut) -> Seq<Chord> {
    s.hotkey.0@
}

} // verus!
