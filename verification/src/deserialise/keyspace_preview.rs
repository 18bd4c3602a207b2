//! A preview of the keyspaces of a configuration: the entries of the first
//! keyspace, then each further keyspace as a mode named by its title.
use vstd::prelude::*;

use crate::deserialise::{
    chord_text, chord_valid, chords_text, chords_valid, command_text, push_chord, push_chords, push_command,
};
use crate::keyspace::Keyspace;
use crate::keyspace_spec::{ActionView, KeyspaceView};
use crate::structs::Chord;

verus! {

/// The keyspaces to preview; the first one holds the bindings that need no
/// mode.
pub struct KeyspacePreview<'k, 'b>(pub &'k [Keyspace<'b>]);

/// One entry of a keyspace, written as `chord -> what it does`.
pub struct KeyspaceAction<'k, 'b>(pub &'k (Chord, crate::keyspace::KeyspaceAction<'b>));

/// An entry can be written out: its chords can be named.
pub open spec fn entry_valid(e: (Chord, ActionView)) -> bool {
    &&& chord_valid(e.0)
    &&& match e.1 {
        ActionView::SetState(title) => chords_valid(title),
        ActionView::Action(_) => true,
    }
}

/// A keyspace can be written out.
pub open spec fn keyspace_valid(ks: KeyspaceView) -> bool {
    &&& chords_valid(ks.title)
    &&& forall|x: int| 0 <= x < ks.list.len() ==> entry_valid(#[trigger] ks.list[x])
}

/// An entry as text: `MODE: chord -> state` where it enters a state,
/// `chord -> 'command'` where it runs a command.
pub open spec fn action_text(e: (Chord, ActionView)) -> Seq<char> {
    match e.1 {
        ActionView::SetState(title) => "MODE: "@ + chord_text(e.0, " "@) + " -> "@ + chords_text(title),
        ActionView::Action(cmd) => chord_text(e.0, " "@) + " -> "@ + command_text(cmd),
    }
}

/// Entries as text, each after `pad` and on a line of its own.
pub open spec fn list_text(list: Seq<(Chord, ActionView)>, pad: Seq<char>) -> Seq<char>
    decreases list.len(),
{
    if list.len() == 0 {
        Seq::empty()
    } else {
        list_text(list.drop_last(), pad) + pad + action_text(list.last()) + "\n"@
    }
}

/// Keyspaces as modes: `mode "title" {`, the indented entries, `}`.
pub open spec fn modes_text(v: Seq<KeyspaceView>) -> Seq<char>
    decreases v.len(),
{
    if v.len() == 0 {
        Seq::empty()
    } else {
        modes_text(v.drop_last()) + "\nmode \""@ + chords_text(v.last().title) + "\" {\n"@ + list_text(
            v.last().list,
            "  "@,
        ) + "}\n"@
    }
}

/// The preview: the first keyspace's entries, then the others as modes.
pub open spec fn preview_text(v: Seq<KeyspaceView>) -> Seq<char> {
    list_text(v[0].list, ""@) + modes_text(v.drop_first())
}

impl<'k, 'b> KeyspaceAction<'k, 'b> {
    /// The entry, as a chord and the view of what it does.
    pub open spec fn entry(&self) -> (Chord, ActionView) {
        (self.0.0, self.0.1@)
    }

    /// Appends the entry's text.
    pub fn push_string_into(&self, buffer: &mut String)
        requires
            entry_valid(self.entry()),
        ensures
            final(buffer)@ == old(buffer)@ + action_text(self.entry()),
    {
        let ghost start = buffer@;
        let trigger = &self.0.0;
        match self.0.1 {
            crate::keyspace::KeyspaceAction::SetState(title) => {
                buffer.append("MODE: ");
                push_chord(buffer, trigger, " ");
                buffer.append(" -> ");
                push_chords(buffer, title);
                assert(buffer@ =~= start + action_text(self.entry()));
            },
            crate::keyspace::KeyspaceAction::Action(command) => {
                push_chord(buffer, trigger, " ");
                buffer.append(" -> ");
                push_command(buffer, command);
                assert(buffer@ =~= start + action_text(self.entry()));
            },
        }
    }

    /// The entry's text.
    pub fn to_string_custom(&self) -> (r: String)
        requires
            entry_valid(self.entry()),
        ensures
            r@ == action_text(self.entry()),
    {
        let mut buffer = String::new();
        self.push_string_into(&mut buffer);
        assert(buffer@ =~= action_text(self.entry()));
        buffer
    }
}

/// Appends the keyspace's entries, each after `pad` and on a line of its own.
fn push_entries(buffer: &mut String, ks: &Keyspace, pad: &str)
    requires
        keyspace_valid(ks@),
    ensures
        final(buffer)@ == old(buffer)@ + list_text(ks@.list, pad@),
{
    let ghost start = buffer@;
    let list = ks.entries();
    let n = list.len();
    let mut k: usize = 0;
    while k < n
        invariant
            k <= n,
            n == list@.len(),
            n == ks@.list.len(),
            keyspace_valid(ks@),
            forall|x: int| 0 <= x < n ==> (#[trigger] list@[x]).0 == ks@.list[x].0 && list@[x].1@ == ks@.list[x].1,
            buffer@ == start + list_text(ks@.list.take(k as int), pad@),
        decreases n - k,
    {
        let action = KeyspaceAction(&list[k]);
        assert(action.entry() == ks@.list[k as int]);
        assert(entry_valid(ks@.list[k as int]));
        buffer.append(pad);
        action.push_string_into(buffer);
        buffer.append("\n");
        proof {
            let next = ks@.list.take(k + 1);
            assert(next.drop_last() =~= ks@.list.take(k as int));
            assert(buffer@ =~= start + list_text(next, pad@));
        }
        k = k + 1;
    }
    assert(ks@.list.take(n as int) =~= ks@.list);
}

impl<'k, 'b> KeyspacePreview<'k, 'b> {
    /// The preview's text: the first keyspace's entries, one per line, then
    /// each further keyspace as `mode "title" {`, its entries indented by
    /// two spaces, and `}`.
    pub fn to_string_custom(&self) -> (r: String)
        requires
            self.0@.len() >= 1,
            forall|x: int| 0 <= x < self.0@.len() ==> keyspace_valid(#[trigger] self.0@[x]@),
        ensures
            r@ == preview_text(self.0@.map_values(|k: Keyspace<'b>| k@)),
    {
        let ghost v = self.0@.map_values(|k: Keyspace<'b>| k@);
        let list = self.0;
        let mut buffer = String::new();
        push_entries(&mut buffer, &list[0], "");
        let ghost head = buffer@;
        assert(head =~= list_text(v[0].list, ""@));
        let n = list.len();
        let mut k: usize = 1;
        while k < n
            invariant
                1 <= k <= n,
                n == list@.len(),
                v == list@.map_values(|k: Keyspace<'b>| k@),
                forall|x: int| 0 <= x < n ==> keyspace_valid(#[trigger] list@[x]@),
                buffer@ == head + modes_text(v.drop_first().take(k - 1)),
            decreases n - k,
        {
            let ks = &list[k];
            assert(keyspace_valid(list@[k as int]@));
            buffer.append("\nmode \"");
            push_chords(&mut buffer, ks.title());
            buffer.append("\" {\n");
            push_entries(&mut buffer, ks, "  ");
            buffer.append("}\n");
            proof {
                let next = v.drop_first().take(k as int);
                assert(next.drop_last() =~= v.drop_first().take(k - 1));
                assert(next.last() == ks@);
                assert(buffer@ =~= head + modes_text(next));
            }
            k = k + 1;
        }
        assert(v.drop_first().take(n - 1) =~= v.drop_first());
        buffer
    }
}

} // verus!
