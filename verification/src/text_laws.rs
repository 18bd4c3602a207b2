//! What the written-out text holds, over all inputs.
use vstd::prelude::*;

use crate::cli::{asks_for_help, subcommand_named, Subcommand};
use crate::constants::{KEYCODES, MODIFIERS, WHITESPACE};
use crate::deserialise::keyspace_preview::{action_text, list_text, modes_text, preview_text};
use crate::deserialise::{
    chord_text, chords_text, command_text, concat_all, escaped, is_space, listing_lines, listing_text, padded, shortcut_lines,
    trimmed, solid_end, solid_start,
};
use crate::keyspace_spec::{ActionView, KeyspaceView};
use crate::structs::{chords_of, Chord, Shortcut};

verus! {

/// Law: a chord sequence is written as its chords' texts, in order, joined
/// by `" ; "`: one chord is its own text, and the text of two sequences
/// one after the other is their texts joined by `" ; "`.
pub proof fn law_chords_text_join(a: Seq<Chord>, b: Seq<Chord>)
    ensures
        chords_text(Seq::<Chord>::empty()) == Seq::<char>::empty(),
        b.len() == 1 ==> chords_text(b) == chord_text(b[0], " "@),
        a.len() >= 1 && b.len() >= 1 ==> chords_text(a + b) == chords_text(a) + " ; "@ + chords_text(b),
    decreases b.len(),
{
    if a.len() >= 1 && b.len() >= 1 {
        if b.len() == 1 {
            assert((a + b).drop_last() =~= a);
            assert((a + b).last() == b[0]);
        } else {
            let b1 = b.drop_last();
            law_chords_text_join(a, b1);
            assert((a + b).drop_last() =~= a + b1);
            assert((a + b).last() == b.last());
            assert(chords_text(a + b) =~= chords_text(a) + " ; "@ + chords_text(b));
        }
    }
}

/// The mode text of keyspaces, one after another, is their mode texts.
proof fn lemma_modes_text_concat(a: Seq<KeyspaceView>, b: Seq<KeyspaceView>)
    ensures
        modes_text(a + b) == modes_text(a) + modes_text(b),
    decreases b.len(),
{
    if b.len() == 0 {
        assert(a + b =~= a);
        assert(modes_text(a) + modes_text(b) =~= modes_text(a));
    } else {
        let b1 = b.drop_last();
        lemma_modes_text_concat(a, b1);
        assert((a + b).drop_last() =~= a + b1);
        assert((a + b).last() == b.last());
        assert(modes_text(a + b) =~= modes_text(a) + modes_text(b));
    }
}

/// Law: in the preview, every keyspace after the first is written as a
/// mode named by all chords of its title, joined by `" ; "` (the same text
/// with which an entry enters that state), followed by its entries, each
/// indented by two spaces and on a line of its own, and a closing `}`.
pub proof fn law_preview_mode_of_each_keyspace(v: Seq<KeyspaceView>, x: int)
    requires
        1 <= x < v.len(),
    ensures
        exists|pre: Seq<char>, post: Seq<char>|
            preview_text(v) == pre + ("\nmode \""@ + chords_text(v[x].title) + "\" {\n"@ + list_text(
                v[x].list,
                "  "@,
            ) + "}\n"@) + post,
{
    let d = v.drop_first();
    let a = d.take(x - 1);
    let b = d.skip(x);
    assert(d =~= a + seq![v[x]] + b);
    lemma_modes_text_concat(a + seq![v[x]], b);
    lemma_modes_text_concat(a, seq![v[x]]);
    let one = seq![v[x]];
    assert(one.drop_last() =~= Seq::<KeyspaceView>::empty());
    assert(modes_text(Seq::<KeyspaceView>::empty()) == Seq::<char>::empty());
    let block = "\nmode \""@ + chords_text(v[x].title) + "\" {\n"@ + list_text(v[x].list, "  "@) + "}\n"@;
    assert(modes_text(one) =~= block);
    let pre = list_text(v[0].list, ""@) + modes_text(a);
    let post = modes_text(b);
    assert(preview_text(v) =~= pre + block + post);
}

/// The entry lines of entries, one after another, are their entry lines.
proof fn lemma_list_text_concat(a: Seq<(Chord, ActionView)>, b: Seq<(Chord, ActionView)>, pad: Seq<char>)
    ensures
        list_text(a + b, pad) == list_text(a, pad) + list_text(b, pad),
    decreases b.len(),
{
    if b.len() == 0 {
        assert(a + b =~= a);
        assert(list_text(a, pad) + list_text(b, pad) =~= list_text(a, pad));
    } else {
        let b1 = b.drop_last();
        lemma_list_text_concat(a, b1, pad);
        assert((a + b).drop_last() =~= a + b1);
        assert((a + b).last() == b.last());
        assert(list_text(a + b, pad) =~= list_text(a, pad) + list_text(b, pad));
    }
}

/// Law: in the entries of a keyspace, as the preview writes them, each
/// entry has a line of its own: the padding, the entry's text, a line end;
/// an entry that enters a state writes `MODE: chord -> ` and all chords of
/// the state joined by `" ; "`.
pub proof fn law_preview_entry_lines(list: Seq<(Chord, ActionView)>, pad: Seq<char>, y: int)
    requires
        0 <= y < list.len(),
    ensures
        exists|pre: Seq<char>, post: Seq<char>|
            list_text(list, pad) == pre + (pad + action_text(list[y]) + "\n"@) + post,
        list[y].1 matches ActionView::SetState(st) ==> action_text(list[y]) == "MODE: "@ + chord_text(
            list[y].0,
            " "@,
        ) + " -> "@ + chords_text(st),
        list[y].1 matches ActionView::Action(cmd) ==> action_text(list[y]) == chord_text(list[y].0, " "@)
            + " -> "@ + command_text(cmd),
{
    let a = list.take(y);
    let b = list.skip(y + 1);
    assert(list =~= a + seq![list[y]] + b);
    lemma_list_text_concat(a + seq![list[y]], b, pad);
    lemma_list_text_concat(a, seq![list[y]], pad);
    let one = seq![list[y]];
    assert(one.drop_last() =~= Seq::<(Chord, ActionView)>::empty());
    let line = pad + action_text(list[y]) + "\n"@;
    assert(list_text(Seq::<(Chord, ActionView)>::empty(), pad) == Seq::<char>::empty());
    assert(one.last() == list[y]);
    assert(list_text(one, pad) =~= line);
    assert(list_text(list, pad) =~= list_text(a, pad) + line + list_text(b, pad));
}

/// The listing lines of entries, one after another, are their listing
/// lines.
proof fn lemma_listing_lines_concat(a: Seq<(Chord, ActionView)>, b: Seq<(Chord, ActionView)>)
    ensures
        listing_lines(a + b) == listing_lines(a) + listing_lines(b),
    decreases b.len(),
{
    if b.len() == 0 {
        assert(a + b =~= a);
        assert(listing_lines(a) + listing_lines(b) =~= listing_lines(a));
    } else {
        let b1 = b.drop_last();
        lemma_listing_lines_concat(a, b1);
        assert((a + b).drop_last() =~= a + b1);
        assert((a + b).last() == b.last());
        assert(listing_lines(a + b) =~= listing_lines(a) + listing_lines(b));
    }
}

/// Law: a keyspace listing begins with its header, `=== '' ===` for the
/// empty title and otherwise `=== ` with all chords of the title joined by
/// `" ; "` and ` ===`; and each entry has a line of its own: the chord,
/// padded to 40 characters, then ` | Set: ` and all chords of the state it
/// enters joined by `" ; "`, or ` | Action: ` and the command's pieces.
#[verifier::rlimit(50)]
pub proof fn law_listing_lines(ks: KeyspaceView, y: int)
    requires
        0 <= y < ks.list.len(),
    ensures
        ({
            let head = if ks.title.len() == 0 {
                "=== '' ===\n"@
            } else {
                "=== "@ + chords_text(ks.title) + " ===\n"@
            };
            head.len() <= listing_text(ks).len() && listing_text(ks).take(head.len() as int) == head
        }),
        ks.list[y].1 matches ActionView::SetState(st) ==> exists|pre: Seq<char>, post: Seq<char>|
            listing_text(ks) == pre + (padded(chord_text(ks.list[y].0, " "@), 40) + " | Set: "@ + chords_text(st)
                + "\n"@) + post,
        ks.list[y].1 matches ActionView::Action(cmd) ==> exists|pre: Seq<char>, post: Seq<char>|
            listing_text(ks) == pre + (padded(chord_text(ks.list[y].0, " "@), 40) + " | Action: "@ + concat_all(
                cmd,
            ) + "\n"@) + post,
{
    let list = ks.list;
    let head = if ks.title.len() == 0 {
        "=== '' ===\n"@
    } else {
        "=== "@ + chords_text(ks.title) + " ===\n"@
    };
    assert(listing_text(ks) == head + listing_lines(list));
    let a = list.take(y);
    let b = list.skip(y + 1);
    assert(list =~= a + seq![list[y]] + b);
    lemma_listing_lines_concat(a + seq![list[y]], b);
    lemma_listing_lines_concat(a, seq![list[y]]);
    let one = seq![list[y]];
    assert(one.drop_last() =~= Seq::<(Chord, ActionView)>::empty());
    let line = padded(chord_text(list[y].0, " "@), 40) + match list[y].1 {
        ActionView::SetState(st) => " | Set: "@ + chords_text(st),
        ActionView::Action(cmd) => " | Action: "@ + concat_all(cmd),
    } + "\n"@;
    assert(listing_lines(Seq::<(Chord, ActionView)>::empty()) == Seq::<char>::empty());
    assert(one.last() == list[y]);
    assert(listing_lines(one) =~= line);
    assert(listing_text(ks) =~= (head + listing_lines(a)) + line + listing_lines(b));
    assert(listing_text(ks).take(head.len() as int) =~= head);
    let pre = head + listing_lines(a);
    let post = listing_lines(b);
    match list[y].1 {
        ActionView::SetState(st) => {
            assert(listing_text(ks) == pre + (padded(chord_text(list[y].0, " "@), 40) + " | Set: "@ + chords_text(st)
                + "\n"@) + post);
        },
        ActionView::Action(cmd) => {
            assert(listing_text(ks) == pre + (padded(chord_text(list[y].0, " "@), 40) + " | Action: "@
                + concat_all(cmd) + "\n"@) + post);
        },
    }
}

/// Law: padding keeps the text and adds spaces up to the width, no more.
pub proof fn law_padded(s: Seq<char>, w: int)
    ensures
        padded(s, w).len() == if s.len() < w {
            w
        } else {
            s.len() as int
        },
        padded(s, w).take(s.len() as int) == s,
        forall|k: int| s.len() <= k < padded(s, w).len() ==> padded(s, w)[k] == ' ',
{
    assert(padded(s, w).take(s.len() as int) =~= s);
}

/// The shortcut lines of lists, one after another, are their lines.
proof fn lemma_shortcut_lines_concat(a: Seq<Shortcut>, b: Seq<Shortcut>)
    ensures
        shortcut_lines(a + b) == shortcut_lines(a) + shortcut_lines(b),
    decreases b.len(),
{
    if b.len() == 0 {
        assert(a + b =~= a);
        assert(shortcut_lines(a) + shortcut_lines(b) =~= shortcut_lines(a));
    } else {
        let b1 = b.drop_last();
        lemma_shortcut_lines_concat(a, b1);
        assert((a + b).drop_last() =~= a + b1);
        assert((a + b).last() == b.last());
        assert(shortcut_lines(a + b) =~= shortcut_lines(a) + shortcut_lines(b));
    }
}

/// Law: the shortcut listing holds, for each shortcut in order, a line of
/// two spaces, all chords of its hotkey joined by `" ; "`, `:`, three
/// spaces and the command's pieces.
pub proof fn law_shortcut_lines(s: Seq<Shortcut>, k: int)
    requires
        0 <= k < s.len(),
    ensures
        exists|pre: Seq<char>, post: Seq<char>|
            shortcut_lines(s) == pre + ("  "@ + chords_text(chords_of(s[k])) + ": "@ + "  "@ + concat_all(
                s[k].action@,
            ) + "\n"@) + post,
        shortcut_lines(s.take(k)).len() <= shortcut_lines(s).len(),
{
    let a = s.take(k);
    let b = s.skip(k + 1);
    assert(s =~= a + seq![s[k]] + b);
    lemma_shortcut_lines_concat(a + seq![s[k]], b);
    lemma_shortcut_lines_concat(a, seq![s[k]]);
    let one = seq![s[k]];
    assert(one.drop_last() =~= Seq::<Shortcut>::empty());
    let line = "  "@ + chords_text(chords_of(s[k])) + ": "@ + "  "@ + concat_all(s[k].action@) + "\n"@;
    assert(shortcut_lines(Seq::<Shortcut>::empty()) == Seq::<char>::empty());
    assert(one.last() == s[k]);
    assert(shortcut_lines(one) =~= line);
    assert(shortcut_lines(s) =~= shortcut_lines(a) + line + shortcut_lines(b));
}

/// Law: a command's pieces are taken one after another.
pub proof fn law_concat_all(a: Seq<String>, b: Seq<String>)
    ensures
        concat_all(a + b) == concat_all(a) + concat_all(b),
        b.len() == 1 ==> concat_all(b) == b[0]@,
    decreases b.len(),
{
    if b.len() == 0 {
        assert(a + b =~= a);
        assert(concat_all(a) + concat_all(b) =~= concat_all(a));
    } else {
        let b1 = b.drop_last();
        law_concat_all(a, b1);
        assert((a + b).drop_last() =~= a + b1);
        assert((a + b).last() == b.last());
        assert(concat_all(a + b) =~= concat_all(a) + concat_all(b));
        if b.len() == 1 {
            assert(b1 =~= Seq::<String>::empty());
            assert(concat_all(b) =~= b[0]@);
        }
    }
}

proof fn lemma_solid_start(s: Seq<char>, i: int)
    requires
        0 <= i <= s.len(),
    ensures
        i <= solid_start(s, i) <= s.len(),
        forall|m: int| i <= m < solid_start(s, i) ==> is_space(#[trigger] s[m]),
        solid_start(s, i) < s.len() ==> !is_space(s[solid_start(s, i)]),
    decreases s.len() - i,
{
    if i < s.len() && is_space(s[i]) {
        lemma_solid_start(s, i + 1);
    }
}

proof fn lemma_solid_end(s: Seq<char>, lo: int, j: int)
    requires
        0 <= lo <= j <= s.len(),
    ensures
        lo <= solid_end(s, lo, j) <= j,
        forall|m: int| solid_end(s, lo, j) <= m < j ==> is_space(#[trigger] s[m]),
        lo < solid_end(s, lo, j) ==> !is_space(s[solid_end(s, lo, j) - 1]),
    decreases j - lo,
{
    if lo < j && is_space(s[j - 1]) {
        lemma_solid_end(s, lo, j - 1);
    }
}

/// Law: trimming cuts all whitespace at the start and at the end, and
/// nothing else: the text is some whitespace, the trimmed text, and some
/// whitespace, and the trimmed text neither begins nor ends with
/// whitespace.
pub proof fn law_trimmed(s: Seq<char>)
    ensures
        exists|a: int, b: int|
            #![trigger s.subrange(a, b)]
            0 <= a <= b <= s.len() && trimmed(s) == s.subrange(a, b) && (forall|m: int|
                0 <= m < a ==> is_space(#[trigger] s[m])) && (forall|m: int| b <= m < s.len() ==> is_space(
                #[trigger] s[m],
            )),
        trimmed(s).len() > 0 ==> !is_space(trimmed(s)[0]) && !is_space(trimmed(s).last()),
{
    let a = solid_start(s, 0);
    lemma_solid_start(s, 0);
    let b = solid_end(s, a, s.len() as int);
    lemma_solid_end(s, a, s.len() as int);
    assert(trimmed(s) == s.subrange(a, b));
    if trimmed(s).len() > 0 {
        assert(trimmed(s)[0] == s[a]);
        assert(trimmed(s).last() == s[b - 1]);
    }
}

/// Law: escaping works character by character: a `'` becomes `'\''`, any
/// other character stays.
pub proof fn law_escaped(a: Seq<char>, b: Seq<char>)
    ensures
        escaped(a + b) == escaped(a) + escaped(b),
        b.len() == 1 ==> escaped(b) == if b[0] == '\'' {
            "'\\''"@
        } else {
            b
        },
    decreases b.len(),
{
    if b.len() == 0 {
        assert(a + b =~= a);
        assert(escaped(a) + escaped(b) =~= escaped(a));
    } else {
        let b1 = b.drop_last();
        law_escaped(a, b1);
        assert((a + b).drop_last() =~= a + b1);
        assert((a + b).last() == b.last());
        assert(escaped(a + b) =~= escaped(a) + escaped(b));
        if b.len() == 1 {
            assert(b1 =~= Seq::<char>::empty());
            assert(escaped(b) =~= (if b[0] == '\'' {
                "'\\''"@
            } else {
                b
            }));
        }
    }
}

/// Law: a `-h` or `--help` anywhere after the program's name, with no `--`
/// before it, asks for help.
pub proof fn law_help_flag_anywhere(input: Seq<String>, k: int)
    requires
        1 <= k < input.len(),
        input[k]@ == "-h"@ || input[k]@ == "--help"@,
        forall|m: int| 1 <= m < k ==> input[m]@ != "--"@,
    ensures
        asks_for_help(input),
{
    assert(crate::cli::is_help_flag(input, k));
}

/// Law: with arguments after the program's name, help is asked for only by
/// a `-h` or `--help` among them: arguments without one never ask.
pub proof fn law_no_flag_no_help(input: Seq<String>)
    requires
        input.len() >= 2,
        forall|m: int| 1 <= m < input.len() ==> input[m]@ != "-h"@ && input[m]@ != "--help"@,
    ensures
        !asks_for_help(input),
{
    if asks_for_help(input) {
        let w = choose|w: int|
            1 <= w < input.len() && #[trigger] crate::cli::is_help_flag(input, w) && forall|m: int|
                1 <= m < w ==> (#[trigger] input[m])@ != "--"@;
        assert(input[w]@ != "-h"@);
    }
}

/// Law: a `-h` or `--help` after `--` is an argument like any other: when no
/// flag comes before the first `--`, help is not asked for.
pub proof fn law_double_dash_ends_options(input: Seq<String>, d: int)
    requires
        1 <= d < input.len(),
        input[d]@ == "--"@,
        forall|m: int| 1 <= m < d ==> input[m]@ != "-h"@ && input[m]@ != "--help"@,
    ensures
        !asks_for_help(input),
{
    if asks_for_help(input) {
        let w = choose|w: int|
            1 <= w < input.len() && #[trigger] crate::cli::is_help_flag(input, w) && forall|m: int|
                1 <= m < w ==> (#[trigger] input[m])@ != "--"@;
        if w == d {
            reveal_strlit("--");
            reveal_strlit("-h");
            reveal_strlit("--help");
            assert("--"@[1] != "-h"@[1]);
            assert("--"@.len() != "--help"@.len());
        }
        if w > d {
            assert(input[d]@ != "--"@);
        }
    }
}

/// Law: the preview begins with the first keyspace's entries, each on a
/// line of its own, with no padding.
pub proof fn law_preview_begins_with_first(v: Seq<KeyspaceView>)
    requires
        v.len() >= 1,
    ensures
        list_text(v[0].list, ""@).len() <= preview_text(v).len(),
        preview_text(v).take(list_text(v[0].list, ""@).len() as int) == list_text(v[0].list, ""@),
{
    assert(preview_text(v).take(list_text(v[0].list, ""@).len() as int) =~= list_text(v[0].list, ""@));
}

/// Law: a command is written in single quotes around its pieces, joined,
/// trimmed and escaped.
pub proof fn law_command_text(p: Seq<String>)
    ensures
        command_text(p) == seq!['\''] + escaped(trimmed(concat_all(p))) + seq!['\''],
        command_text(p)[0] == '\'',
        command_text(p).last() == '\'',
{
    reveal_strlit("'");
    assert("'"@ =~= seq!['\'']);
    assert(command_text(p) =~= seq!['\''] + escaped(trimmed(concat_all(p))) + seq!['\'']);
}

/// Law: a chord without modifiers is written as its key's name; a chord
/// with one modifier as that modifier's name, the separator and the key's
/// name; a chord with all four as the four names in the order of
/// `MODIFIERS`, each followed by the separator, then the key's name.
pub proof fn law_chord_text(c: Chord, sep: Seq<char>)
    ensures
        c.modifiers & 15u8 == 0 ==> chord_text(c, sep) == KEYCODES[c.key as int]@,
        c.modifiers == 1u8 ==> chord_text(c, sep) == MODIFIERS[0]@ + sep + KEYCODES[c.key as int]@,
        c.modifiers == 2u8 ==> chord_text(c, sep) == MODIFIERS[1]@ + sep + KEYCODES[c.key as int]@,
        c.modifiers == 4u8 ==> chord_text(c, sep) == MODIFIERS[2]@ + sep + KEYCODES[c.key as int]@,
        c.modifiers == 8u8 ==> chord_text(c, sep) == MODIFIERS[3]@ + sep + KEYCODES[c.key as int]@,
        c.modifiers & 15u8 == 15u8 ==> chord_text(c, sep) == MODIFIERS[0]@ + sep + MODIFIERS[1]@ + sep
            + MODIFIERS[2]@ + sep + MODIFIERS[3]@ + sep + KEYCODES[c.key as int]@,
{
    let m = c.modifiers;
    let e = Seq::<char>::empty();
    let key = KEYCODES[c.key as int]@;
    if m & 15u8 == 0 {
        assert(m & 1u8 == 0 && m & 2u8 == 0 && m & 4u8 == 0 && m & 8u8 == 0) by (bit_vector)
            requires
                m & 15u8 == 0,
        ;
        assert(chord_text(c, sep) =~= key);
    }
    if m == 1u8 {
        assert(m & 1u8 != 0 && m & 2u8 == 0 && m & 4u8 == 0 && m & 8u8 == 0) by (bit_vector)
            requires
                m == 1u8,
        ;
        assert(chord_text(c, sep) =~= MODIFIERS[0]@ + sep + key);
    }
    if m == 2u8 {
        assert(m & 1u8 == 0 && m & 2u8 != 0 && m & 4u8 == 0 && m & 8u8 == 0) by (bit_vector)
            requires
                m == 2u8,
        ;
        assert(chord_text(c, sep) =~= MODIFIERS[1]@ + sep + key);
    }
    if m == 4u8 {
        assert(m & 1u8 == 0 && m & 2u8 == 0 && m & 4u8 != 0 && m & 8u8 == 0) by (bit_vector)
            requires
                m == 4u8,
        ;
        assert(chord_text(c, sep) =~= MODIFIERS[2]@ + sep + key);
    }
    if m == 8u8 {
        assert(m & 1u8 == 0 && m & 2u8 == 0 && m & 4u8 == 0 && m & 8u8 != 0) by (bit_vector)
            requires
                m == 8u8,
        ;
        assert(chord_text(c, sep) =~= MODIFIERS[3]@ + sep + key);
    }
    if m & 15u8 == 15u8 {
        assert(m & 1u8 != 0 && m & 2u8 != 0 && m & 4u8 != 0 && m & 8u8 != 0) by (bit_vector)
            requires
                m & 15u8 == 15u8,
        ;
        assert(chord_text(c, sep) =~= MODIFIERS[0]@ + sep + MODIFIERS[1]@ + sep + MODIFIERS[2]@ + sep
            + MODIFIERS[3]@ + sep + key);
    }
}

/// Law: the program's name alone asks for help.
pub proof fn law_no_arguments_help(input: Seq<String>)
    requires
        input.len() == 1,
    ensures
        asks_for_help(input),
{
}

/// Law: each alias names the same subcommand as the full name.
pub proof fn law_subcommand_aliases()
    ensures
        subcommand_named("s"@) == subcommand_named("shortcuts"@),
        subcommand_named("shortcut"@) == subcommand_named("shortcuts"@),
        subcommand_named("shortcuts"@) == Some(Subcommand::Shortcuts),
        subcommand_named("k"@) == subcommand_named("keyspaces"@),
        subcommand_named("keyspace"@) == subcommand_named("keyspaces"@),
        subcommand_named("keyspaces"@) == Some(Subcommand::Keyspaces),
        subcommand_named("i3"@) == Some(Subcommand::I3),
        subcommand_named("sh"@) == Some(Subcommand::Sh),
        subcommand_named("debug-shortcuts"@) == Some(Subcommand::DebugShortcuts),
{
    reveal_strlit("i3");
    reveal_strlit("s");
    reveal_strlit("shortcut");
    reveal_strlit("shortcuts");
    reveal_strlit("k");
    reveal_strlit("keyspace");
    reveal_strlit("keyspaces");
    reveal_strlit("sh");
    reveal_strlit("debug-shortcuts");
    assert("shortcuts"@.len() != "i3"@.len());
    assert("shortcuts"@ != "i3"@);
    assert("shortcut"@.len() != "i3"@.len());
    assert("shortcut"@ != "i3"@);
    assert("shortcut"@.len() != "shortcuts"@.len());
    assert("shortcut"@ != "shortcuts"@);
    assert("s"@.len() != "i3"@.len());
    assert("s"@ != "i3"@);
    assert("s"@.len() != "shortcuts"@.len());
    assert("s"@ != "shortcuts"@);
    assert("s"@.len() != "shortcut"@.len());
    assert("s"@ != "shortcut"@);
    assert("keyspaces"@.len() != "i3"@.len());
    assert("keyspaces"@ != "i3"@);
    assert("keyspaces"@[0] != "shortcuts"@[0]);
    assert("keyspaces"@ != "shortcuts"@);
    assert("keyspaces"@.len() != "shortcut"@.len());
    assert("keyspaces"@ != "shortcut"@);
    assert("keyspaces"@.len() != "s"@.len());
    assert("keyspaces"@ != "s"@);
    assert("keyspace"@.len() != "i3"@.len());
    assert("keyspace"@ != "i3"@);
    assert("keyspace"@.len() != "shortcuts"@.len());
    assert("keyspace"@ != "shortcuts"@);
    assert("keyspace"@[0] != "shortcut"@[0]);
    assert("keyspace"@ != "shortcut"@);
    assert("keyspace"@.len() != "s"@.len());
    assert("keyspace"@ != "s"@);
    assert("keyspace"@.len() != "keyspaces"@.len());
    assert("keyspace"@ != "keyspaces"@);
    assert("k"@.len() != "i3"@.len());
    assert("k"@ != "i3"@);
    assert("k"@.len() != "shortcuts"@.len());
    assert("k"@ != "shortcuts"@);
    assert("k"@.len() != "shortcut"@.len());
    assert("k"@ != "shortcut"@);
    assert("k"@[0] != "s"@[0]);
    assert("k"@ != "s"@);
    assert("k"@.len() != "keyspaces"@.len());
    assert("k"@ != "keyspaces"@);
    assert("k"@.len() != "keyspace"@.len());
    assert("k"@ != "keyspace"@);
    assert("sh"@[0] != "i3"@[0]);
    assert("sh"@ != "i3"@);
    assert("sh"@.len() != "shortcuts"@.len());
    assert("sh"@ != "shortcuts"@);
    assert("sh"@.len() != "shortcut"@.len());
    assert("sh"@ != "shortcut"@);
    assert("sh"@.len() != "s"@.len());
    assert("sh"@ != "s"@);
    assert("sh"@.len() != "keyspaces"@.len());
    assert("sh"@ != "keyspaces"@);
    assert("sh"@.len() != "keyspace"@.len());
    assert("sh"@ != "keyspace"@);
    assert("sh"@.len() != "k"@.len());
    assert("sh"@ != "k"@);
    assert("debug-shortcuts"@.len() != "i3"@.len());
    assert("debug-shortcuts"@ != "i3"@);
    assert("debug-shortcuts"@.len() != "shortcuts"@.len());
    assert("debug-shortcuts"@ != "shortcuts"@);
    assert("debug-shortcuts"@.len() != "shortcut"@.len());
    assert("debug-shortcuts"@ != "shortcut"@);
    assert("debug-shortcuts"@.len() != "s"@.len());
    assert("debug-shortcuts"@ != "s"@);
    assert("debug-shortcuts"@.len() != "keyspaces"@.len());
    assert("debug-shortcuts"@ != "keyspaces"@);
    assert("debug-shortcuts"@.len() != "keyspace"@.len());
    assert("debug-shortcuts"@ != "keyspace"@);
    assert("debug-shortcuts"@.len() != "k"@.len());
    assert("debug-shortcuts"@ != "k"@);
    assert("debug-shortcuts"@.len() != "sh"@.len());
    assert("debug-shortcuts"@ != "sh"@);
}

/// Law: whitespace is exactly the characters of `WHITESPACE`.
pub proof fn law_is_space(c: char)
    ensures
        forall|k: int| 0 <= k < WHITESPACE@.len() ==> is_space(#[trigger] WHITESPACE@[k]),
        (forall|k: int| 0 <= k < WHITESPACE@.len() ==> WHITESPACE@[k] != c) ==> !is_space(c),
{
}

} // verus!
