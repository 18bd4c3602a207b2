//! The mathematical model of turning a shortcut list into keyspaces.
//!
//! A shortcut list is cut into groups by one chord position `j` at a time:
//! a group begins at a shortcut whose hotkey reaches position `j`, and takes
//! in the shortcuts after it for as long as they hold the same chord at
//! position `j`.  Every group adds one entry to the keyspace being built.
use vstd::prelude::*;

use crate::structs::{chords_of, Chord, Shortcut};

verus! {

/// What pressing a chord inside a keyspace does.
pub enum ActionView {
    /// Enter the keyspace of this chord sequence.
    SetState(Seq<Chord>),
    /// Run this command.
    Action(Seq<String>),
}

/// A keyspace: the chords pressed to reach it, and its chord-to-action table.
pub struct KeyspaceView {
    pub title: Seq<Chord>,
    pub list: Seq<(Chord, ActionView)>,
}

/// Whether shortcut `k` holds, at chord position `j`, the chord that
/// shortcut `first` holds there.
pub open spec fn shares_chord(s: Seq<Shortcut>, first: int, k: int, j: int) -> bool {
    chords_of(s[k]).len() > j && chords_of(s[k])[j] == chords_of(s[first])[j]
}

/// The first index from `k` on (and at most `hi`) whose shortcut does not
/// share chord `j` with shortcut `first`.
pub open spec fn run_end(s: Seq<Shortcut>, first: int, k: int, hi: int, j: int) -> int
    decreases hi - k,
{
    if k < hi && shares_chord(s, first, k, j) {
        run_end(s, first, k + 1, hi, j)
    } else {
        k
    }
}

/// The end of the chord-`j` group that begins at `lo` inside `[lo, hi)`.
pub open spec fn group_end(s: Seq<Shortcut>, lo: int, hi: int, j: int) -> int {
    run_end(s, lo, lo + 1, hi, j)
}

/// Whether a chord-`j` group begins at `lo` inside `[lo, hi)`: the range is
/// not empty and the hotkey at `lo` reaches chord position `j`.
pub open spec fn opens_group(s: Seq<Shortcut>, lo: int, hi: int, j: int) -> bool {
    0 <= lo < hi && chords_of(s[lo]).len() > j
}

/// The entry that a group of shortcuts adds at chord position `j`: a group
/// of two or more enters the keyspace one chord deeper; a single shortcut
/// runs its command when chord `j` is its last chord.
pub open spec fn partition_entry(p: Seq<Shortcut>, j: int) -> (Chord, ActionView) {
    if p.len() >= 2 {
        (chords_of(p[0])[j], ActionView::SetState(chords_of(p[0]).take(j + 1)))
    } else {
        shortcut_entry(p[0], j)
    }
}

/// The entry that one shortcut adds at chord position `j`.
pub open spec fn shortcut_entry(sc: Shortcut, j: int) -> (Chord, ActionView) {
    let chords = chords_of(sc);
    if j + 1 == chords.len() {
        (chords[j], ActionView::Action(sc.action@))
    } else {
        (chords[j], ActionView::SetState(chords.take(j + 1)))
    }
}

/// Bounds and meaning of `run_end`.
pub proof fn lemma_run_end(s: Seq<Shortcut>, first: int, k: int, hi: int, j: int)
    requires
        k <= hi,
    ensures
        k <= run_end(s, first, k, hi, j) <= hi,
        forall|m: int| k <= m < run_end(s, first, k, hi, j) ==> #[trigger] shares_chord(s, first, m, j),
        run_end(s, first, k, hi, j) < hi ==> !shares_chord(s, first, run_end(s, first, k, hi, j), j),
    decreases hi - k,
{
    if k < hi && shares_chord(s, first, k, j) {
        lemma_run_end(s, first, k + 1, hi, j);
    }
}

/// The entries of the chord-`j` groups taken one after another from `lo`
/// inside `[lo, hi)`, until no group begins.
pub open spec fn entries(s: Seq<Shortcut>, lo: int, hi: int, j: int) -> Seq<(Chord, ActionView)>
    decreases hi - lo,
{
    if opens_group(s, lo, hi, j) {
        let e = group_end(s, lo, hi, j);
        proof {
            lemma_run_end(s, lo, lo + 1, hi, j);
        }
        seq![partition_entry(s.subrange(lo, e), j)] + entries(s, e, hi, j)
    } else {
        Seq::empty()
    }
}

/// The groups `(start, end)` that a walk from `lo` inside `[lo, hi)` at
/// chord position `j` yields, one after another, until no group begins.
pub open spec fn walk_groups(s: Seq<Shortcut>, lo: int, hi: int, j: int) -> Seq<(int, int)>
    decreases hi - lo,
{
    if opens_group(s, lo, hi, j) {
        let e = group_end(s, lo, hi, j);
        proof {
            lemma_run_end(s, lo, lo + 1, hi, j);
        }
        seq![(lo, e)] + walk_groups(s, e, hi, j)
    } else {
        Seq::empty()
    }
}

/// Where a walk from `lo` inside `[lo, hi)` at chord position `j` stops.
pub open spec fn walk_stop(s: Seq<Shortcut>, lo: int, hi: int, j: int) -> int
    decreases hi - lo,
{
    if opens_group(s, lo, hi, j) {
        let e = group_end(s, lo, hi, j);
        proof {
            lemma_run_end(s, lo, lo + 1, hi, j);
        }
        walk_stop(s, e, hi, j)
    } else {
        lo
    }
}

/// The shortcuts of the groups `g`, one group after another.
pub open spec fn joined(s: Seq<Shortcut>, g: Seq<(int, int)>) -> Seq<Shortcut>
    decreases g.len(),
{
    if g.len() == 0 {
        Seq::empty()
    } else {
        s.subrange(g[0].0, g[0].1) + joined(s, g.drop_first())
    }
}

/// The end of the chord-`j` group that holds shortcut `m`, the groups being
/// taken one after another from `lo` inside `[lo, hi)`; `-1` where no group
/// holds `m`.
pub open spec fn member_end(s: Seq<Shortcut>, lo: int, hi: int, j: int, m: int) -> int
    decreases hi - lo,
{
    if lo <= m && opens_group(s, lo, hi, j) {
        let e = group_end(s, lo, hi, j);
        proof {
            lemma_run_end(s, lo, lo + 1, hi, j);
        }
        if m < e {
            e
        } else {
            member_end(s, e, hi, j, m)
        }
    } else {
        -1
    }
}

/// The visit record after the shortcut at `i` has been split by chord `j`
/// inside its container `[i, t[i].1)`: each shortcut that a group holds now
/// records `j + 1` chords seen and its group's end as its container end.
pub open spec fn refined(s: Seq<Shortcut>, t: Seq<(usize, usize)>, i: int, j: int) -> Seq<(usize, usize)> {
    Seq::new(
        t.len(),
        |m: int|
            {
                let e = member_end(s, i, t[i].1 as int, j, m);
                if e >= 0 {
                    ((j + 1) as usize, e as usize)
                } else {
                    t[m]
                }
            },
    )
}

/// The visit record at the start: nothing seen, and every container is the
/// whole list.
pub open spec fn init_tracker(n: nat) -> Seq<(usize, usize)> {
    Seq::new(n, |k: int| (0usize, n as usize))
}

/// A well-formed visit record: one pair per shortcut, and each container
/// starts at its shortcut and stays inside the list.
pub open spec fn tracker_wf(s: Seq<Shortcut>, t: Seq<(usize, usize)>) -> bool {
    &&& t.len() == s.len()
    &&& forall|k: int| 0 <= k < t.len() ==> k < (#[trigger] t[k]).1 <= t.len()
}

/// The keyspace built for the shortcut at `i` and chord position `j`.
pub open spec fn space_view(s: Seq<Shortcut>, t: Seq<(usize, usize)>, i: int, j: int) -> KeyspaceView {
    KeyspaceView { title: chords_of(s[i]).take(j), list: entries(s, i, t[i].1 as int, j) }
}

/// The keyspaces built for the shortcut at `i` from chord position `j` up to
/// `stop`, and the visit record afterwards.
pub open spec fn steps_j(s: Seq<Shortcut>, t: Seq<(usize, usize)>, i: int, j: int, stop: int) -> (
    Seq<KeyspaceView>,
    Seq<(usize, usize)>,
)
    decreases stop - j,
{
    if j < stop {
        let rest = steps_j(s, refined(s, t, i, j), i, j + 1, stop);
        (seq![space_view(s, t, i, j)] + rest.0, rest.1)
    } else {
        (Seq::empty(), t)
    }
}

/// The keyspaces built for the shortcuts from `i` on.
pub open spec fn steps_i(s: Seq<Shortcut>, t: Seq<(usize, usize)>, i: int) -> Seq<KeyspaceView>
    decreases s.len() - i,
{
    if 0 <= i < s.len() {
        let r = steps_j(s, t, i, t[i].0 as int, chords_of(s[i]).len() as int);
        r.0 + steps_i(s, r.1, i + 1)
    } else {
        Seq::empty()
    }
}

/// The keyspaces of a shortcut list.
pub open spec fn keyspaces_of(s: Seq<Shortcut>) -> Seq<KeyspaceView> {
    steps_i(s, init_tracker(s.len()), 0)
}

} // verus!
