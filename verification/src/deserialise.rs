//! Writing chords, hotkeys and commands back out as text.
use vstd::prelude::*;

use crate::constants::{KEYCODES, MODIFIERS, WHITESPACE};
use crate::keyspace::{Keyspace, KeyspaceAction};
use crate::keyspace_spec::{ActionView, KeyspaceView};
use crate::structs::{chords_of, Chord, Shortcut};

pub mod keyspace_preview;

verus! {

/// The bit of a chord's modifiers that stands for `MODIFIERS[i]`.
pub open spec fn modifier_mask(i: int) -> u8 {
    if i == 0 {
        1u8
    } else if i == 1 {
        2u8
    } else if i == 2 {
        4u8
    } else {
        8u8
    }
}

/// The name of modifier `i` followed by `sep`, where the chord holds it.
pub open spec fn modifier_text(m: u8, i: int, sep: Seq<char>) -> Seq<char> {
    if m & modifier_mask(i) != 0 {
        MODIFIERS[i]@ + sep
    } else {
        Seq::empty()
    }
}

/// A chord's key can be named.
pub open spec fn chord_valid(c: Chord) -> bool {
    c.key < KEYCODES@.len()
}

/// A chord as text: the names of its modifiers, in the order of
/// `MODIFIERS`, each followed by `sep`, then the name of its key.
pub open spec fn chord_text(c: Chord, sep: Seq<char>) -> Seq<char> {
    modifier_text(c.modifiers, 0, sep) + modifier_text(c.modifiers, 1, sep) + modifier_text(c.modifiers, 2, sep)
        + modifier_text(c.modifiers, 3, sep) + KEYCODES[c.key as int]@
}

/// Chords as text, joined by `" ; "`.
pub open spec fn chords_text(cs: Seq<Chord>) -> Seq<char>
    decreases cs.len(),
{
    if cs.len() == 0 {
        Seq::empty()
    } else if cs.len() == 1 {
        chord_text(cs[0], " "@)
    } else {
        chords_text(cs.drop_last()) + " ; "@ + chord_text(cs.last(), " "@)
    }
}

/// Whether a chord sequence can be written out.
pub open spec fn chords_valid(cs: Seq<Chord>) -> bool {
    forall|k: int| 0 <= k < cs.len() ==> chord_valid(#[trigger] cs[k])
}

/// Appends the chord's text, its names separated by `sep`.
pub fn push_chord(buffer: &mut String, chord: &Chord, sep: &str)
    requires
        chord_valid(*chord),
    ensures
        final(buffer)@ == old(buffer)@ + chord_text(*chord, sep@),
{
    let ghost start = buffer@;
    let m = chord.modifiers;
    if m & 1u8 != 0 {
        buffer.append(MODIFIERS[0]);
        buffer.append(sep);
    }
    assert(buffer@ == start + modifier_text(m, 0, sep@));
    if m & 2u8 != 0 {
        buffer.append(MODIFIERS[1]);
        buffer.append(sep);
    }
    assert(buffer@ =~= start + modifier_text(m, 0, sep@) + modifier_text(m, 1, sep@));
    if m & 4u8 != 0 {
        buffer.append(MODIFIERS[2]);
        buffer.append(sep);
    }
    assert(buffer@ =~= start + modifier_text(m, 0, sep@) + modifier_text(m, 1, sep@) + modifier_text(m, 2, sep@));
    if m & 8u8 != 0 {
        buffer.append(MODIFIERS[3]);
        buffer.append(sep);
    }
    assert(buffer@ =~= start + modifier_text(m, 0, sep@) + modifier_text(m, 1, sep@) + modifier_text(m, 2, sep@)
        + modifier_text(m, 3, sep@));
    buffer.append(KEYCODES[chord.key]);
    assert(buffer@ =~= start + chord_text(*chord, sep@));
}

/// A chord as text: its modifiers' names, then its key's name, separated by
/// single spaces.
pub fn wrap_chord(chord: &Chord) -> (r: String)
    requires
        chord_valid(*chord),
    ensures
        r@ == chord_text(*chord, " "@),
{
    let mut buffer = String::new();
    push_chord(&mut buffer, chord, " ");
    assert(buffer@ =~= chord_text(*chord, " "@));
    buffer
}

/// Appends the chords' text, joined by `" ; "`.
pub fn push_chords(buffer: &mut String, chords: &[Chord])
    requires
        chords_valid(chords@),
    ensures
        final(buffer)@ == old(buffer)@ + chords_text(chords@),
{
    let ghost start = buffer@;
    let n = chords.len();
    let mut k: usize = 0;
    while k < n
        invariant
            k <= n,
            n == chords@.len(),
            chords_valid(chords@),
            buffer@ == start + chords_text(chords@.take(k as int)),
        decreases n - k,
    {
        let ghost before = buffer@;
        if k > 0 {
            buffer.append(" ; ");
        }
        push_chord(buffer, &chords[k], " ");
        proof {
            let next = chords@.take(k + 1);
            assert(next.drop_last() =~= chords@.take(k as int));
            assert(next.last() == chords@[k as int]);
            if k == 0 {
                assert(chords@.take(0) =~= Seq::<Chord>::empty());
                assert(buffer@ =~= start + chords_text(next));
            } else {
                assert(buffer@ =~= start + chords_text(next));
            }
        }
        k = k + 1;
    }
    assert(chords@.take(n as int) =~= chords@);
}

/// Whether a character is whitespace (one of `WHITESPACE`).
pub open spec fn is_space(c: char) -> bool {
    exists|k: int| 0 <= k < WHITESPACE@.len() && WHITESPACE@[k] == c
}

/// Whether a character is whitespace.
pub fn is_whitespace_char(c: char) -> (r: bool)
    ensures
        r == is_space(c),
{
    let mut k: usize = 0;
    while k < 25
        invariant
            k <= 25,
            WHITESPACE@.len() == 25,
            forall|m: int| 0 <= m < k ==> WHITESPACE@[m] != c,
        decreases 25 - k,
    {
        if WHITESPACE[k] == c {
            return true;
        }
        k = k + 1;
    }
    false
}

/// The pieces of a command, one after another.
pub open spec fn concat_all(p: Seq<String>) -> Seq<char>
    decreases p.len(),
{
    if p.len() == 0 {
        Seq::empty()
    } else {
        concat_all(p.drop_last()) + p.last()@
    }
}

/// The first position from `i` on that holds no whitespace (or the end).
pub open spec fn solid_start(s: Seq<char>, i: int) -> int
    decreases s.len() - i,
{
    if 0 <= i < s.len() && is_space(s[i]) {
        solid_start(s, i + 1)
    } else {
        i
    }
}

/// The end of `s[..j]` once whitespace is cut from its end (not before `lo`).
pub open spec fn solid_end(s: Seq<char>, lo: int, j: int) -> int
    decreases j - lo,
{
    if lo < j && is_space(s[j - 1]) {
        solid_end(s, lo, j - 1)
    } else {
        j
    }
}

/// `s` without whitespace at its start and at its end.
pub open spec fn trimmed(s: Seq<char>) -> Seq<char> {
    let a = solid_start(s, 0);
    s.subrange(a, solid_end(s, a, s.len() as int))
}

/// `s` with each `'` written as `'\''`, so that it can stand inside single
/// quotes.
pub open spec fn escaped(s: Seq<char>) -> Seq<char>
    decreases s.len(),
{
    if s.len() == 0 {
        Seq::empty()
    } else {
        escaped(s.drop_last()) + (if s.last() == '\'' {
            "'\\''"@
        } else {
            seq![s.last()]
        })
    }
}

/// A command as text: its pieces joined, cut of whitespace at both ends,
/// and put in single quotes.
pub open spec fn command_text(p: Seq<String>) -> Seq<char> {
    "'"@ + escaped(trimmed(concat_all(p))) + "'"@
}

proof fn lemma_solid_start(s: Seq<char>, i: int)
    requires
        0 <= i <= s.len(),
    ensures
        i <= solid_start(s, i) <= s.len(),
        forall|m: int| i <= m < solid_start(s, i) ==> is_space(#[trigger] s[m]),
        solid_start(s, i) < s.len() ==> !is_space(s[solid_start(s, i)]),
    decreases s.len() - i,
{
    if i < s.len() && is_space(s[i]) {
        lemma_solid_start(s, i + 1);
    }
}

proof fn lemma_solid_end(s: Seq<char>, lo: int, j: int)
    requires
        0 <= lo <= j <= s.len(),
    ensures
        lo <= solid_end(s, lo, j) <= j,
    decreases j - lo,
{
    if lo < j && is_space(s[j - 1]) {
        lemma_solid_end(s, lo, j - 1);
    }
}

/// Appends the command's text: its pieces joined, cut of whitespace at both
/// ends, each `'` written as `'\''`, all in single quotes.
pub fn push_command(buffer: &mut String, command: &[String])
    ensures
        final(buffer)@ == old(buffer)@ + command_text(command@),
{
    let ghost start = buffer@;
    let mut joined = String::new();
    let n = command.len();
    let mut k: usize = 0;
    while k < n
        invariant
            k <= n,
            n == command@.len(),
            joined@ == concat_all(command@.take(k as int)),
        decreases n - k,
    {
        joined.append(command[k].as_str());
        proof {
            assert(command@.take(k + 1).drop_last() =~= command@.take(k as int));
        }
        k = k + 1;
    }
    assert(command@.take(n as int) =~= command@);
    let s = joined.as_str();
    let ghost cs = s@;
    let len = s.unicode_len();
    let mut a: usize = 0;
    proof {
        lemma_solid_start(cs, 0);
    }
    while a < len && is_whitespace_char(s.get_char(a))
        invariant
            a <= len,
            len == cs.len(),
            cs == s@,
            solid_start(cs, a as int) == solid_start(cs, 0),
        decreases len - a,
    {
        a = a + 1;
    }
    let mut b: usize = len;
    proof {
        lemma_solid_end(cs, a as int, len as int);
    }
    while b > a && is_whitespace_char(s.get_char(b - 1))
        invariant
            a <= b <= len,
            len == cs.len(),
            cs == s@,
            solid_end(cs, a as int, b as int) == solid_end(cs, a as int, len as int),
        decreases b,
    {
        b = b - 1;
    }
    let ghost core = cs.subrange(a as int, b as int);
    assert(core == trimmed(cs));
    buffer.append("'");
    let ghost opened = buffer@;
    let mut i: usize = a;
    while i < b
        invariant
            a <= i <= b <= len,
            len == cs.len(),
            cs == s@,
            core == cs.subrange(a as int, b as int),
            buffer@ == opened + escaped(core.take(i - a)),
        decreases b - i,
    {
        let c = s.get_char(i);
        if c == '\'' {
            buffer.append("'\\''");
        } else {
            let piece = s.substring_char(i, i + 1);
            assert(piece@ =~= seq![c]);
            buffer.append(piece);
        }
        proof {
            let next = core.take(i + 1 - a);
            assert(next.drop_last() =~= core.take(i - a));
            assert(next.last() == c);
        }
        i = i + 1;
    }
    assert(core.take(b - a) =~= core);
    buffer.append("'");
}

/// `s` followed by spaces up to `width` characters.
pub open spec fn padded(s: Seq<char>, width: int) -> Seq<char> {
    if s.len() < width {
        s + Seq::new((width - s.len()) as nat, |k: int| ' ')
    } else {
        s
    }
}

/// Appends the chord's text, followed by spaces up to `width` characters.
pub fn push_padded_chord(buffer: &mut String, chord: &Chord, width: usize)
    requires
        chord_valid(*chord),
    ensures
        final(buffer)@ == old(buffer)@ + padded(chord_text(*chord, " "@), width as int),
{
    let ghost start = buffer@;
    let text = wrap_chord(chord);
    let len = text.as_str().unicode_len();
    buffer.append(text.as_str());
    let mut k = len;
    while k < width
        invariant
            len <= k,
            k <= width || len >= width,
            len >= width ==> k == len,
            len == text@.len(),
            buffer@ == start + text@ + Seq::new((k - len) as nat, |x: int| ' '),
        decreases width - k,
    {
        buffer.append(" ");
        proof {
            reveal_strlit(" ");
            assert(Seq::new((k - len) as nat, |x: int| ' ').push(' ') =~= Seq::new(
                (k + 1 - len) as nat,
                |x: int| ' ',
            ));
            assert(buffer@ =~= start + text@ + Seq::new((k + 1 - len) as nat, |x: int| ' '));
        }
        k = k + 1;
    }
    if len >= width {
        assert(k == len);
        assert(Seq::new((k - len) as nat, |x: int| ' ') =~= Seq::<char>::empty());
        assert(buffer@ =~= start + padded(chord_text(*chord, " "@), width as int));
    } else {
        assert(k == width);
        assert(buffer@ =~= start + padded(chord_text(*chord, " "@), width as int));
    }
}

/// One line of a keyspace listing: the chord, padded to 40 characters,
/// then the state it enters or the command it runs.
pub open spec fn listing_line(e: (Chord, ActionView)) -> Seq<char> {
    padded(chord_text(e.0, " "@), 40) + match e.1 {
        ActionView::SetState(chords) => " | Set: "@ + chords_text(chords),
        ActionView::Action(cmd) => " | Action: "@ + concat_all(cmd),
    } + "\n"@
}

/// The lines of a keyspace listing's entries.
pub open spec fn listing_lines(list: Seq<(Chord, ActionView)>) -> Seq<char>
    decreases list.len(),
{
    if list.len() == 0 {
        Seq::empty()
    } else {
        listing_lines(list.drop_last()) + listing_line(list.last())
    }
}

/// A keyspace listing: a header with its title, then one line per entry.
pub open spec fn listing_text(ks: KeyspaceView) -> Seq<char> {
    (if ks.title.len() == 0 {
        "=== '' ===\n"@
    } else {
        "=== "@ + chords_text(ks.title) + " ===\n"@
    }) + listing_lines(ks.list)
}

/// Appends the pieces of a command, one after another.
pub fn push_joined(buffer: &mut String, pieces: &[String])
    ensures
        final(buffer)@ == old(buffer)@ + concat_all(pieces@),
{
    let ghost start = buffer@;
    let n = pieces.len();
    let mut k: usize = 0;
    while k < n
        invariant
            k <= n,
            n == pieces@.len(),
            buffer@ == start + concat_all(pieces@.take(k as int)),
        decreases n - k,
    {
        buffer.append(pieces[k].as_str());
        proof {
            assert(pieces@.take(k + 1).drop_last() =~= pieces@.take(k as int));
            assert(buffer@ =~= start + concat_all(pieces@.take(k + 1)));
        }
        k = k + 1;
    }
    assert(pieces@.take(n as int) =~= pieces@);
}

impl<'b> Keyspace<'b> {
    /// The keyspace as a listing: `=== title ===` (`=== '' ===` for the
    /// empty title), then for each entry the chord padded to 40 characters
    /// and `| Set: state` or `| Action: command`, one per line.
    pub fn print_text(&self) -> (r: String)
        requires
            chords_valid(self@.title),
            forall|x: int|
                0 <= x < self@.list.len() ==> chord_valid((#[trigger] self@.list[x]).0) && match self@.list[x].1 {
                    ActionView::SetState(c) => chords_valid(c),
                    ActionView::Action(_) => true,
                },
        ensures
            r@ == listing_text(self@),
    {
        let mut buffer = String::new();
        let title = self.title();
        if title.len() == 0 {
            buffer.append("=== '' ===\n");
        } else {
            buffer.append("=== ");
            push_chords(&mut buffer, title);
            buffer.append(" ===\n");
        }
        let ghost head = buffer@;
        assert(head =~= listing_text(self@).subrange(0, head.len() as int)) by {
            assert(head =~= (if self@.title.len() == 0 {
                "=== '' ===\n"@
            } else {
                "=== "@ + chords_text(self@.title) + " ===\n"@
            }));
        }
        let list = self.entries();
        let n = list.len();
        let mut k: usize = 0;
        while k < n
            invariant
                k <= n,
                n == list@.len(),
                n == self@.list.len(),
                forall|x: int|
                    0 <= x < self@.list.len() ==> chord_valid((#[trigger] self@.list[x]).0) && match self@.list[x].1 {
                        ActionView::SetState(c) => chords_valid(c),
                        ActionView::Action(_) => true,
                    },
                forall|x: int| 0 <= x < n ==> (#[trigger] list@[x]).0 == self@.list[x].0 && list@[x].1@ == self@.list[x].1,
                buffer@ == head + listing_lines(self@.list.take(k as int)),
            decreases n - k,
        {
            let entry = &list[k];
            assert(chord_valid(self@.list[k as int].0));
            push_padded_chord(&mut buffer, &entry.0, 40);
            match entry.1 {
                KeyspaceAction::SetState(chords) => {
                    buffer.append(" | Set: ");
                    push_chords(&mut buffer, chords);
                },
                KeyspaceAction::Action(cmd) => {
                    buffer.append(" | Action: ");
                    push_joined(&mut buffer, cmd);
                },
            }
            buffer.append("\n");
            proof {
                let next = self@.list.take(k + 1);
                assert(next.drop_last() =~= self@.list.take(k as int));
                assert(next.last() == self@.list[k as int]);
                assert(buffer@ =~= head + listing_lines(next));
            }
            k = k + 1;
        }
        assert(self@.list.take(n as int) =~= self@.list);
        assert(buffer@ =~= listing_text(self@));
        buffer
    }
}

/// A shortcut list as text: per shortcut, `  hotkey:   command` on a line.
pub open spec fn shortcut_lines(s: Seq<Shortcut>) -> Seq<char>
    decreases s.len(),
{
    if s.len() == 0 {
        Seq::empty()
    } else {
        shortcut_lines(s.drop_last()) + "  "@ + chords_text(chords_of(s.last())) + ": "@ + "  "@ + concat_all(
            s.last().action@,
        ) + "\n"@
    }
}

/// The shortcut list as text, one shortcut per line: two spaces, the
/// hotkey, `: `, two spaces, the command.
pub fn shortcut_list_text(list: &[Shortcut]) -> (r: String)
    requires
        forall|k: int| 0 <= k < list@.len() ==> chords_valid(chords_of(#[trigger] list@[k])),
    ensures
        r@ == shortcut_lines(list@),
{
    let mut buffer = String::new();
    let n = list.len();
    let mut k: usize = 0;
    while k < n
        invariant
            k <= n,
            n == list@.len(),
            forall|k: int| 0 <= k < list@.len() ==> chords_valid(chords_of(#[trigger] list@[k])),
            buffer@ == shortcut_lines(list@.take(k as int)),
        decreases n - k,
    {
        let shortcut = &list[k];
        assert(chords_valid(chords_of(list@[k as int])));
        buffer.append("  ");
        push_chords(&mut buffer, shortcut.hotkey.0);
        buffer.append(": ");
        buffer.append("  ");
        push_joined(&mut buffer, shortcut.action);
        buffer.append("\n");
        proof {
            let next = list@.take(k + 1);
            assert(next.drop_last() =~= list@.take(k as int));
            assert(buffer@ =~= shortcut_lines(next));
        }
        k = k + 1;
    }
    assert(list@.take(n as int) =~= list@);
    buffer
}

} // verus!
