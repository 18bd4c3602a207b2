//! Turning a shortcut list into keyspaces.
//!
//! This gives window managers that cannot chain chords a way to do so, when
//! they can switch between states.  Abstractly the shortcut list is read as a
//! tree whose inner nodes are single chords (a path from the root to a leaf
//! is a hotkey) and whose leaves are the shortcuts' commands; the tree is then
//! flattened into keyspaces: state + chord => action.  A keyspace is the set
//! of edges that leave one node.
//!
//! No tree is built: a `VisitedTracker` keeps, for each shortcut, how many of
//! its chords have been handled and where the group that holds it ends.
use vstd::prelude::*;

use crate::keyspace_spec::{
    entries, group_end, init_tracker, keyspaces_of, lemma_run_end, member_end, opens_group,
    partition_entry, refined, run_end, shortcut_entry, space_view, steps_i, steps_j, tracker_wf, walk_groups,
    ActionView, KeyspaceView,
};
use crate::structs::{chords_of, Chord, Hotkey, Shortcut};

verus! {

/// What pressing a chord inside a keyspace does.
#[derive(Clone, Copy, Debug)]
pub enum KeyspaceAction<'b> {
    /// Enter the keyspace of this chord sequence.
    SetState(&'b [Chord]),
    /// Run this command.
    Action(&'b [String]),
}

impl<'b> View for KeyspaceAction<'b> {
    type V = ActionView;

    open spec fn view(&self) -> ActionView {
        match *self {
            KeyspaceAction::SetState(chords) => ActionView::SetState(chords@),
            KeyspaceAction::Action(cmd) => ActionView::Action(cmd@),
        }
    }
}

/// One keyspace: while inside it, pressing `list[k].0` performs `list[k].1`.
#[derive(Debug)]
pub struct Keyspace<'b> {
    /// The chords pressed to reach this keyspace (carries no meaning of its own).
    title: Hotkey<'b>,
    list: Vec<(Chord, KeyspaceAction<'b>)>,
}

impl<'b> View for Keyspace<'b> {
    type V = KeyspaceView;

    closed spec fn view(&self) -> KeyspaceView {
        KeyspaceView {
            title: self.title.0@,
            list: self.list@.map_values(|e: (Chord, KeyspaceAction<'b>)| (e.0, e.1@)),
        }
    }
}

/// The views of a list of keyspaces.
pub open spec fn views(v: Seq<Keyspace>) -> Seq<KeyspaceView> {
    v.map_values(|k: Keyspace| k@)
}

/// Produces the keyspaces of a list of shortcuts.
pub trait KeyspaceList<'b> {
    /// The shortcuts, in order.
    spec fn shortcut_seq(&self) -> Seq<Shortcut<'b>>;

    /// The keyspaces of the shortcuts, in the order in which they are found.
    fn allocate_keyspace_list(&self) -> (r: Result<Vec<Keyspace<'b>>, String>)
        ensures
            r matches Ok(v) && views(v@) == keyspaces_of(self.shortcut_seq()),
    ;
}

impl<'b> KeyspaceList<'b> for Vec<Shortcut<'b>> {
    open spec fn shortcut_seq(&self) -> Seq<Shortcut<'b>> {
        self@
    }

    fn allocate_keyspace_list(&self) -> (r: Result<Vec<Keyspace<'b>>, String>) {
        let v = allocate_keyspaces(self.as_slice());
        Ok(v)
    }
}

/// The keyspaces of a list of shortcuts, in the order in which they are found.
///
/// For each shortcut `i` and each chord position `j` of its hotkey not yet
/// handled, one keyspace is made, titled by the first `j` chords; the group
/// of shortcuts around `i` is split by chord `j`, and each part adds one
/// entry.
pub fn allocate_keyspaces<'b>(shortcut_list: &[Shortcut<'b>]) -> (r: Vec<Keyspace<'b>>)
    ensures
        views(r@) == keyspaces_of(shortcut_list@),
{
    let ghost s = shortcut_list@;
    let n = shortcut_list.len();
    let mut keyspace_list: Vec<Keyspace<'b>> = Vec::new();
    let mut visited = VisitedTracker::new(shortcut_list);
    let mut i: usize = 0;
    while i < n
        invariant
            n == s.len(),
            s == shortcut_list@,
            i <= n,
            visited.shortcut_list@ == s,
            tracker_wf(s, visited.tracker@),
            views(keyspace_list@) + steps_i(s, visited.tracker@, i as int) == keyspaces_of(s),
        decreases n - i,
    {
        let shortcut = shortcut_list[i];
        let first_hotkey_chord_list = shortcut.hotkey.0;
        let range = visited.unvisited_chord_indicies(i);
        let stop = range.end;
        let mut j = range.start;
        proof {
            let r0 = steps_j(s, visited.tracker@, i as int, j as int, stop as int);
            assert(views(keyspace_list@) + r0.0 + steps_i(s, r0.1, i + 1) =~= views(keyspace_list@) + (r0.0
                + steps_i(s, r0.1, i + 1)));
        }
        // Each chord of shortcut `i` that is not handled yet opens a keyspace.
        while j < stop
            invariant
                n == s.len(),
                s == shortcut_list@,
                i < n,
                stop == chords_of(s[i as int]).len(),
                first_hotkey_chord_list@ == chords_of(s[i as int]),
                visited.shortcut_list@ == s,
                tracker_wf(s, visited.tracker@),
                views(keyspace_list@) + steps_j(s, visited.tracker@, i as int, j as int, stop as int).0
                    + steps_i(s, steps_j(s, visited.tracker@, i as int, j as int, stop as int).1, i + 1)
                    == keyspaces_of(s),
            decreases stop - j,
        {
            let ghost t = visited.tracker@;
            let mut space = Keyspace { title: Hotkey(&first_hotkey_chord_list[0..j]), list: Vec::new() };
            let mut parts = visited.refine_container_for_i_partitioning_by_chord_j(i, j);
            let ghost hi = t[i as int].1 as int;
            assert(space@.list =~= Seq::<(Chord, ActionView)>::empty());
            loop
                invariant
                    parts.wf(),
                    parts.list@ == s,
                    parts.end == hi,
                    hi == t[i as int].1 as int,
                    parts.chord_index == j,
                    i <= parts.start,
                    space@.title == chords_of(s[i as int]).take(j as int),
                    space@.list + entries(s, parts.start as int, hi, j as int) == entries(s, i as int, hi, j as int),
                ensures
                    space@ == space_view(s, t, i as int, j as int),
                decreases parts.end - parts.start,
            {
                let ghost before = parts;
                match parts.next() {
                    Some(partition) => {
                        proof {
                            lemma_run_end(s, before.start as int, before.start + 1, hi, j as int);
                        }
                        space.push_partition(partition, j);
                        assert(space@.list + entries(s, parts.start as int, hi, j as int) =~= entries(
                            s,
                            i as int,
                            hi,
                            j as int,
                        ));
                    },
                    None => {
                        assert(space@.list =~= entries(s, i as int, hi, j as int));
                        assert(space@.list == space_view(s, t, i as int, j as int).list);
                        assert(space@.title == space_view(s, t, i as int, j as int).title);
                        break ;
                    },
                }
            }
            let ghost v_old = views(keyspace_list@);
            proof {
                lemma_views_push(keyspace_list@, space);
            }
            keyspace_list.push(space);
            j = j + 1;
            proof {
                let r = steps_j(s, visited.tracker@, i as int, j as int, stop as int);
                assert(steps_j(s, t, i as int, j - 1, stop as int).0 == seq![space_view(s, t, i as int, j - 1)]
                    + r.0);
                assert(views(keyspace_list@) + r.0 =~= v_old + (seq![space_view(s, t, i as int, j - 1)] + r.0));
            }
        }
        proof {
            let r1 = steps_j(s, visited.tracker@, i as int, j as int, stop as int);
            assert(r1.0 =~= Seq::<KeyspaceView>::empty());
            assert(views(keyspace_list@) + r1.0 =~= views(keyspace_list@));
        }
        i = i + 1;
    }
    proof {
        assert(steps_i(s, visited.tracker@, i as int) =~= Seq::<KeyspaceView>::empty());
        assert(views(keyspace_list@) + steps_i(s, visited.tracker@, i as int) =~= views(keyspace_list@));
    }
    keyspace_list
}

proof fn lemma_views_push<'b>(v: Seq<Keyspace<'b>>, k: Keyspace<'b>)
    ensures
        views(v.push(k)) == views(v).push(k@),
{
    assert(views(v.push(k)) =~= views(v).push(k@));
}

impl<'b> Keyspace<'b> {
    /// The chords pressed to reach this keyspace.
    pub fn title(&self) -> (r: &'b [Chord])
        ensures
            r@ == self@.title,
    {
        self.title.0
    }

    /// The entries: pressing the chord performs the action.
    pub fn entries(&self) -> (r: &[(Chord, KeyspaceAction<'b>)])
        ensures
            r@.map_values(|e: (Chord, KeyspaceAction<'b>)| (e.0, e.1@)) == self@.list,
    {
        self.list.as_slice()
    }

    /// Adds the entry of one group of shortcuts that share chord
    /// `chord_index`: a group of two or more enters the next keyspace, a
    /// single shortcut is handled as by `push_shortcut`.
    pub fn push_partition(&mut self, partition: &[Shortcut<'b>], chord_index: usize)
        requires
            partition@.len() >= 1,
            chord_index < chords_of(partition@[0]).len(),
        ensures
            final(self)@.title == old(self)@.title,
            final(self)@.list == old(self)@.list.push(partition_entry(partition@, chord_index as int)),
    {
        if partition.len() >= 2 {
            let chord_list = partition[0].hotkey.0;
            proof {
                lemma_list_push(self.list@, (chord_list[chord_index as int], KeyspaceAction::SetState(chord_list)));
            }
            self.list.push((chord_list[chord_index], KeyspaceAction::SetState(&chord_list[0..chord_index + 1])));
            assert(chord_list@.subrange(0, chord_index + 1) =~= chord_list@.take(chord_index + 1));
        } else {
            self.push_shortcut(&partition[0], chord_index);
        }
    }

    /// Adds the entry of one shortcut at chord `chord_index`: its command
    /// where that chord is its last, else the keyspace one chord deeper.
    pub fn push_shortcut(&mut self, shortcut: &Shortcut<'b>, chord_index: usize)
        requires
            chord_index < chords_of(*shortcut).len(),
        ensures
            final(self)@.title == old(self)@.title,
            final(self)@.list == old(self)@.list.push(shortcut_entry(*shortcut, chord_index as int)),
    {
        let chord_list = shortcut.hotkey.0;
        let total_chords = chord_list.len();
        if chord_index + 1 == total_chords {
            self.list.push((chord_list[chord_index], KeyspaceAction::Action(shortcut.action)));
        } else {
            self.list.push((chord_list[chord_index], KeyspaceAction::SetState(&chord_list[0..chord_index + 1])));
            assert(chord_list@.subrange(0, chord_index + 1) =~= chord_list@.take(chord_index + 1));
        }
    }
}

proof fn lemma_list_push<'b>(l: Seq<(Chord, KeyspaceAction<'b>)>, e: (Chord, KeyspaceAction<'b>))
    ensures
        l.push(e).map_values(|x: (Chord, KeyspaceAction<'b>)| (x.0, x.1@)) == l.map_values(
            |x: (Chord, KeyspaceAction<'b>)| (x.0, x.1@),
        ).push((e.0, e.1@)),
{
    assert(l.push(e).map_values(|x: (Chord, KeyspaceAction<'b>)| (x.0, x.1@)) =~= l.map_values(
        |x: (Chord, KeyspaceAction<'b>)| (x.0, x.1@),
    ).push((e.0, e.1@)));
}

/// For each shortcut: how many of its chords have been handled, and the end
/// of the group (container) that holds it, as a position in the list.
pub struct VisitedTracker<'b, 'c> {
    pub shortcut_list: &'c [Shortcut<'b>],
    pub tracker: Vec<(usize, usize)>,
}

impl<'b, 'c> VisitedTracker<'b, 'c> {
    /// Nothing handled yet; every container is the whole list.
    pub fn new(shortcut_list: &'c [Shortcut<'b>]) -> (r: Self)
        ensures
            r.shortcut_list == shortcut_list,
            r.tracker@ == init_tracker(shortcut_list@.len()),
            tracker_wf(shortcut_list@, r.tracker@),
    {
        let len = shortcut_list.len();
        let mut tracker: Vec<(usize, usize)> = Vec::new();
        while tracker.len() < len
            invariant
                tracker.len() <= len,
                forall|k: int| 0 <= k < tracker.len() ==> tracker@[k] == (0usize, len),
            decreases len - tracker.len(),
        {
            tracker.push((0, len));
        }
        assert(tracker@ =~= init_tracker(len as nat));
        Self { shortcut_list, tracker }
    }

    /// The chord positions of shortcut `index` that are not handled yet.
    pub fn unvisited_chord_indicies(&self, index: usize) -> (r: std::ops::Range<usize>)
        requires
            index < self.tracker@.len(),
            self.tracker@.len() == self.shortcut_list@.len(),
        ensures
            r.start == self.tracker@[index as int].0,
            r.end == chords_of(self.shortcut_list@[index as int]).len(),
    {
        let last_visited = self.tracker[index].0;
        let total_chords = self.shortcut_list[index].hotkey.0.len();
        last_visited..total_chords
    }

    /// Splits the container of shortcut `shortcut_index` by chord
    /// `chord_index` and records, for each shortcut that a group holds, the
    /// chords handled and its group's end.  Returns the splitting, from its
    /// beginning, so that the groups can be walked.
    pub fn refine_container_for_i_partitioning_by_chord_j(
        &mut self,
        shortcut_index: usize,
        chord_index: usize,
    ) -> (r: SharedChordPartitioner<'b, 'c>)
        requires
            tracker_wf(old(self).shortcut_list@, old(self).tracker@),
            shortcut_index < old(self).tracker@.len(),
            chord_index < chords_of(old(self).shortcut_list@[shortcut_index as int]).len(),
        ensures
            final(self).shortcut_list == old(self).shortcut_list,
            final(self).tracker@ == refined(
                old(self).shortcut_list@,
                old(self).tracker@,
                shortcut_index as int,
                chord_index as int,
            ),
            tracker_wf(final(self).shortcut_list@, final(self).tracker@),
            r.wf(),
            r.list == old(self).shortcut_list,
            r.start == shortcut_index,
            r.end == old(self).tracker@[shortcut_index as int].1,
            r.chord_index == chord_index,
    {
        let ghost s = self.shortcut_list@;
        let ghost t0 = self.tracker@;
        let ghost i = shortcut_index as int;
        let ghost j = chord_index as int;
        let close = self.tracker[shortcut_index].1;
        let ghost hi = close as int;
        let total_chords = self.shortcut_list[shortcut_index].hotkey.0.len();
        assert(chord_index + 1 <= total_chords);
        let chunk_container_again_by_chord_j = SharedChordPartitioner {
            list: self.shortcut_list,
            start: shortcut_index,
            end: close,
            chord_index,
        };
        let mut walk = SharedChordPartitioner {
            list: self.shortcut_list,
            start: shortcut_index,
            end: close,
            chord_index,
        };
        loop
            invariant
                walk.wf(),
                walk.list@ == s,
                walk.list == self.shortcut_list,
                walk.end == hi,
                walk.chord_index == chord_index,
                i <= walk.start,
                self.shortcut_list@ == s,
                tracker_wf(s, t0),
                i < hi <= s.len(),
                i == shortcut_index as int,
                j == chord_index as int,
                hi == t0[i].1,
                chord_index + 1 <= usize::MAX,
                self.tracker@.len() == t0.len(),
                forall|m: int| walk.start <= m ==> member_end(s, i, hi, j, m) == member_end(s, walk.start as int, hi, j, m),
                forall|m: int|
                    0 <= m < t0.len() ==> #[trigger] self.tracker@[m] == (if i <= m < walk.start {
                        ((j + 1) as usize, member_end(s, i, hi, j, m) as usize)
                    } else {
                        t0[m]
                    }),
                forall|m: int| i <= m < walk.start ==> member_end(s, i, hi, j, m) >= 0,
            ensures
                self.shortcut_list@ == s,
                self.tracker@ == refined(s, t0, i, j),
            decreases walk.end - walk.start,
        {
            let ghost before = walk;
            let partition_start = walk.start;
            match walk.next() {
                Some(partition) => {
                    let subpartition_len = partition.len();
                    proof {
                        lemma_run_end(s, before.start as int, before.start + 1, hi, j);
                    }
                    assert(subpartition_len == walk.start - partition_start);
                    let subpartition_close = partition_start + subpartition_len;
                    let mut index = partition_start;
                    while index < subpartition_close
                        invariant
                            before.start <= index <= subpartition_close,
                            subpartition_close == walk.start,
                            walk.start <= hi,
                            self.shortcut_list@ == s,
                            self.tracker@.len() == t0.len(),
                            t0.len() == s.len(),
                            hi <= s.len(),
                            member_end(s, before.start as int, hi, j, before.start as int) == walk.start,
                            forall|m: int|
                                before.start <= m < subpartition_close ==> member_end(
                                    s,
                                    before.start as int,
                                    hi,
                                    j,
                                    m,
                                ) == walk.start,
                            forall|m: int|
                                0 <= m < t0.len() ==> #[trigger] self.tracker@[m] == (if i <= m < index {
                                    ((j + 1) as usize, member_end(s, i, hi, j, m) as usize)
                                } else {
                                    t0[m]
                                }),
                            forall|m: int| before.start <= m ==> member_end(s, i, hi, j, m) == member_end(s, before.start as int, hi, j, m),
                            i <= before.start,
                            i == shortcut_index as int,
                            j == chord_index as int,
                            chord_index + 1 <= usize::MAX,
                        decreases subpartition_close - index,
                    {
                        self.tracker.set(index, (chord_index + 1, subpartition_close));
                        index = index + 1;
                    }
                },
                None => {
                    proof {
                        assert(!opens_group(s, before.start as int, hi, j));
                        assert(before.start == walk.start);
                        assert forall|m: int| 0 <= m < t0.len() implies self.tracker@[m] == refined(s, t0, i, j)[m] by {
                            if walk.start <= m {
                                assert(member_end(s, walk.start as int, hi, j, m) == -1);
                            }
                        }
                        assert(self.tracker@ =~= refined(s, t0, i, j));
                    }
                    break ;
                },
            }
        }
        proof {
            lemma_refined_wf(s, t0, i, j);
        }
        chunk_container_again_by_chord_j
    }
}

/// Walks the groups of a container split by one chord position: each group
/// begins at a shortcut whose hotkey reaches that position and takes in the
/// shortcuts after it for as long as they hold the same chord there.
pub struct SharedChordPartitioner<'b, 'c> {
    pub list: &'c [Shortcut<'b>],
    /// Where the next group begins.
    pub start: usize,
    /// The end of the container.
    pub end: usize,
    pub chord_index: usize,
}

impl<'b, 'c> SharedChordPartitioner<'b, 'c> {
    /// The walk stays inside the list.
    pub open spec fn wf(self) -> bool {
        self.start <= self.end <= self.list@.len()
    }

    /// The next group, if one begins; the walk then moves past it.  None
    /// where the container is used up or its next hotkey is too short.
    pub fn next(&mut self) -> (r: Option<&'c [Shortcut<'b>]>)
        requires
            old(self).wf(),
        ensures
            final(self).wf(),
            final(self).list == old(self).list,
            final(self).end == old(self).end,
            final(self).chord_index == old(self).chord_index,
            match r {
                Some(p) => {
                    &&& opens_group(
                        old(self).list@,
                        old(self).start as int,
                        old(self).end as int,
                        old(self).chord_index as int,
                    )
                    &&& final(self).start == group_end(
                        old(self).list@,
                        old(self).start as int,
                        old(self).end as int,
                        old(self).chord_index as int,
                    )
                    &&& old(self).start < final(self).start
                    &&& p@ == old(self).list@.subrange(old(self).start as int, final(self).start as int)
                    &&& walk_groups(
                        old(self).list@,
                        old(self).start as int,
                        old(self).end as int,
                        old(self).chord_index as int,
                    ) == seq![(old(self).start as int, final(self).start as int)] + walk_groups(
                        old(self).list@,
                        final(self).start as int,
                        old(self).end as int,
                        old(self).chord_index as int,
                    )
                },
                None => {
                    &&& !opens_group(
                        old(self).list@,
                        old(self).start as int,
                        old(self).end as int,
                        old(self).chord_index as int,
                    )
                    &&& final(self).start == old(self).start
                    &&& walk_groups(
                        old(self).list@,
                        old(self).start as int,
                        old(self).end as int,
                        old(self).chord_index as int,
                    ) == Seq::<(int, int)>::empty()
                },
            },
    {
        let list = self.list;
        let start = self.start;
        let end = self.end;
        let y = self.chord_index;
        let ghost s = list@;
        if start < end {
            let first_hotkey = list[start].hotkey.0;
            if first_hotkey.len() > y {
                let mut close = start + 1;
                proof {
                    lemma_run_end(s, start as int, start + 1, end as int, y as int);
                }
                loop
                    invariant
                        start < close <= end <= s.len(),
                        s == list@,
                        first_hotkey@ == chords_of(s[start as int]),
                        first_hotkey@.len() > y,
                        run_end(s, start as int, close as int, end as int, y as int) == group_end(
                            s,
                            start as int,
                            end as int,
                            y as int,
                        ),
                    ensures
                        start < close <= end,
                        close == group_end(s, start as int, end as int, y as int),
                    decreases end - close,
                {
                    if close >= end {
                        break ;
                    }
                    let hotkey = list[close].hotkey.0;
                    if y >= hotkey.len() || hotkey[y] != first_hotkey[y] {
                        break ;
                    }
                    close += 1;
                }
                let partition = &list[start..close];
                self.start = close;
                Some(partition)
            } else {
                None
            }
        } else {
            None
        }
    }
}

/// Splitting keeps the visit record well-formed.
pub proof fn lemma_refined_wf(s: Seq<Shortcut>, t: Seq<(usize, usize)>, i: int, j: int)
    requires
        tracker_wf(s, t),
        0 <= i < t.len(),
        0 <= j,
        j + 1 <= usize::MAX,
    ensures
        tracker_wf(s, refined(s, t, i, j)),
{
    assert forall|m: int| 0 <= m < t.len() implies m < (#[trigger] refined(s, t, i, j)[m]).1 <= t.len() by {
        lemma_member_end_bounds(s, i, t[i].1 as int, j, m);
    }
}

/// Where a group holds `m`, it holds it inside `[lo, hi)`, and its end
/// comes after `m`.
pub proof fn lemma_member_end_bounds(s: Seq<Shortcut>, lo: int, hi: int, j: int, m: int)
    ensures
        member_end(s, lo, hi, j, m) >= 0 ==> lo <= m < member_end(s, lo, hi, j, m) <= hi,
    decreases hi - lo,
{
    if lo <= m && opens_group(s, lo, hi, j) {
        let e = group_end(s, lo, hi, j);
        lemma_run_end(s, lo, lo + 1, hi, j);
        if m >= e {
            lemma_member_end_bounds(s, e, hi, j, m);
        }
    }
}

} // verus!
