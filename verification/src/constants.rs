//! The characters and key names that a configuration may use.
use vstd::prelude::*;

verus! {

/// Unicode whitespace (the White_Space property): it separates tokens and
/// carries no meaning of its own.
pub const WHITESPACE: [char; 25] = [
    '\u{0009}', '\u{000a}', '\u{000b}', '\u{000c}', '\u{000d}', '\u{0020}', '\u{0085}', '\u{00a0}',
    '\u{1680}', '\u{2000}', '\u{2001}', '\u{2002}', '\u{2003}', '\u{2004}', '\u{2005}', '\u{2006}',
    '\u{2007}', '\u{2008}', '\u{2009}', '\u{200a}', '\u{2028}', '\u{2029}', '\u{202f}', '\u{205f}',
    '\u{3000}',
];

/// What separates the keys of a chord: whitespace, and `+`.
pub const SEPARATOR: [char; 26] = [
    '\u{0009}', '\u{000a}', '\u{000b}', '\u{000c}', '\u{000d}', '\u{0020}', '\u{0085}', '\u{00a0}',
    '\u{1680}', '\u{2000}', '\u{2001}', '\u{2002}', '\u{2003}', '\u{2004}', '\u{2005}', '\u{2006}',
    '\u{2007}', '\u{2008}', '\u{2009}', '\u{200a}', '\u{2028}', '\u{2029}', '\u{202f}', '\u{205f}',
    '\u{3000}', '+',
];

/// The modifier names, in the order of their bits in a chord.
pub const MODIFIERS: [&'static str; 4] = ["alt", "ctrl", "shift", "super"];

/// The key names, ordered by length and then by their characters.
pub const KEYCODES: [&'static str; 40] = [
    ",", ".", "0", "1", "2", "3", "4", "5", "6", "7",
    "8", "9", "a", "b", "c", "d", "e", "f", "g", "h",
    "i", "j", "k", "l", "m", "n", "o", "p", "q", "r",
    "s", "t", "u", "v", "w", "x", "y", "z", "Space", "Return",
];

/// All modifier names, then all key names, separated by single spaces.
pub const AVAILABLE_KEYS: &'static str = "alt ctrl shift super , . 0 1 2 3 4 5 6 7 8 9 a b c d e f g h i j k l m n o p q r s t u v w x y z Space Return";

/// The length in bytes of the longest modifier or key name.
pub const KEYSTR_UTF8_MAX_LEN: usize = 6;

/// The modifiers, in the order of `MODIFIERS`.
pub enum Modifiers {
    Alt,
    Ctrl,
    Shift,
    Super,
}

/// The keys, in the order of `KEYCODES`.
pub enum Keycodes {
    Comma,
    Period,
    Zero,
    One,
    Two,
    Thre,
    Four,
    Five,
    Six,
    Seven,
    Eight,
    Nine,
    A,
    B,
    C,
    D,
    E,
    F,
    G,
    H,
    I,
    J,
    K,
    L,
    M,
    N,
    O,
    P,
    Q,
    R,
    S,
    T,
    U,
    V,
    W,
    X,
    Y,
    Z,
    Space,
    Return,
}

} // verus!
