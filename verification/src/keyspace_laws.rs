//! What holds of the keyspaces of every shortcut list.
use vstd::prelude::*;

use crate::keyspace_spec::{
    entries, group_end, init_tracker, keyspaces_of, lemma_run_end, member_end, opens_group,
    partition_entry, refined, shares_chord, space_view, steps_i, steps_j,
    tracker_wf, ActionView, KeyspaceView,
};
use crate::structs::{chords_of, Chord, Shortcut};

verus! {

/// Whether `a` is a prefix of `b` (equal sequences included).
pub open spec fn is_prefix(a: Seq<Chord>, b: Seq<Chord>) -> bool {
    a.len() <= b.len() && b.take(a.len() as int) == a
}

/// No hotkey of the list is a prefix of another one (so no two are equal).
pub open spec fn prefix_free(s: Seq<Shortcut>) -> bool {
    forall|k1: int, k2: int|
        #![trigger s[k1], s[k2]]
        0 <= k1 < s.len() && 0 <= k2 < s.len() && k1 != k2 ==> !is_prefix(chords_of(s[k1]), chords_of(s[k2]))
}

/// Whether an entry of the keyspace titled `title` is backed by the list:
/// entering a state appends the pressed chord to the title, and a command
/// belongs to a shortcut whose hotkey is the title followed by the chord.
pub open spec fn entry_sound(s: Seq<Shortcut>, title: Seq<Chord>, e: (Chord, ActionView)) -> bool {
    match e.1 {
        ActionView::SetState(state) => state == title.push(e.0),
        ActionView::Action(cmd) => exists|k: int|
            #![trigger s[k]]
            0 <= k < s.len() && chords_of(s[k]) == title.push(e.0) && s[k].action@ == cmd,
    }
}

/// Whether a keyspace is backed by the list: its title is a proper prefix of
/// some hotkey, and each of its entries is backed.
pub open spec fn keyspace_sound(s: Seq<Shortcut>, ks: KeyspaceView) -> bool {
    &&& exists|k: int|
        #![trigger s[k]]
        0 <= k < s.len() && ks.title.len() < chords_of(s[k]).len() && ks.title == chords_of(s[k]).take(
            ks.title.len() as int,
        )
    &&& forall|x: int| 0 <= x < ks.list.len() ==> entry_sound(s, ks.title, #[trigger] ks.list[x])
}

/// Whether the command of shortcut `sc` is reached: some keyspace titled by
/// all chords of its hotkey but the last maps that last chord to it.
pub open spec fn action_listed(v: Seq<KeyspaceView>, sc: Shortcut) -> bool {
    exists|x: int, y: int|
        #![trigger v[x].list[y]]
        0 <= x < v.len() && 0 <= y < v[x].list.len() && v[x].title == chords_of(sc).drop_last() && v[x].list[y]
            == (chords_of(sc).last(), ActionView::Action(sc.action@))
}

/// Every shortcut inside a container holds, in its first `t[k].0` chords,
/// the chords of the shortcut `k` that the container begins at.
pub open spec fn containers_agree(s: Seq<Shortcut>, t: Seq<(usize, usize)>) -> bool {
    forall|k: int, m: int|
        #![trigger t[k], s[m]]
        0 <= k <= m < t[k].1 && k < t.len() ==> (t[k].0 as int) <= chords_of(s[m]).len() && chords_of(s[m]).take(
            t[k].0 as int,
        ) == chords_of(s[k]).take(t[k].0 as int)
}

/// A hotkey's length fits in a `usize`.
pub proof fn lemma_hotkey_len(sc: Shortcut)
    ensures
        chords_of(sc).len() <= usize::MAX,
{
    assert(sc.hotkey.0.len() == chords_of(sc).len());
}

/// Where a group holds `m`, every shortcut of that group from `m` on shares
/// chord `j` with `m`.
pub proof fn lemma_member_end_shares(s: Seq<Shortcut>, lo: int, hi: int, j: int, m: int)
    requires
        0 <= lo,
        hi <= s.len(),
    ensures
        member_end(s, lo, hi, j, m) >= 0 ==> {
            &&& lo <= m < member_end(s, lo, hi, j, m) <= hi
            &&& forall|m2: int| m <= m2 < member_end(s, lo, hi, j, m) ==> #[trigger] shares_chord(s, m, m2, j)
        },
    decreases hi - lo,
{
    if lo <= m && opens_group(s, lo, hi, j) {
        let e = group_end(s, lo, hi, j);
        lemma_run_end(s, lo, lo + 1, hi, j);
        if m < e {
            assert forall|m2: int| m <= m2 < e implies #[trigger] shares_chord(s, m, m2, j) by {
                if m2 > lo {
                    assert(shares_chord(s, lo, m2, j));
                }
                if m > lo {
                    assert(shares_chord(s, lo, m, j));
                }
            }
        } else {
            lemma_member_end_shares(s, e, hi, j, m);
        }
    }
}

/// The entries of groups whose shortcuts all begin with `title` are backed
/// by the list.
proof fn lemma_entries_sound(s: Seq<Shortcut>, lo: int, hi: int, j: int, title: Seq<Chord>)
    requires
        0 <= lo,
        hi <= s.len(),
        0 <= j,
        title.len() == j,
        forall|m: int| lo <= m < hi ==> chords_of(#[trigger] s[m]).len() >= j && chords_of(s[m]).take(j) == title,
    ensures
        forall|x: int| 0 <= x < entries(s, lo, hi, j).len() ==> entry_sound(s, title, #[trigger] entries(s, lo, hi, j)[x]),
    decreases hi - lo,
{
    if opens_group(s, lo, hi, j) {
        let e = group_end(s, lo, hi, j);
        lemma_run_end(s, lo, lo + 1, hi, j);
        lemma_entries_sound(s, e, hi, j, title);
        let c = chords_of(s[lo]);
        assert(c.take(j) == title);
        assert(c.take(j + 1) =~= title.push(c[j]));
        let head = partition_entry(s.subrange(lo, e), j);
        assert(s.subrange(lo, e)[0] == s[lo]);
        if e - lo < 2 && j + 1 == c.len() {
            assert(c =~= c.take(j + 1));
            assert(entry_sound(s, title, head));
        }
        assert(entry_sound(s, title, head));
        let rest = entries(s, e, hi, j);
        assert(entries(s, lo, hi, j) == seq![head] + rest);
        assert forall|x: int| 0 <= x < entries(s, lo, hi, j).len() implies entry_sound(
            s,
            title,
            #[trigger] entries(s, lo, hi, j)[x],
        ) by {
            if x > 0 {
                assert(entries(s, lo, hi, j)[x] == rest[x - 1]);
            }
        }
    }
}

/// Splitting keeps the visit record well-formed and its containers in
/// agreement, and records `j + 1` chords for the shortcut at `i`.
proof fn lemma_refined(s: Seq<Shortcut>, t: Seq<(usize, usize)>, i: int, j: int)
    requires
        tracker_wf(s, t),
        containers_agree(s, t),
        0 <= i < s.len(),
        0 <= j < chords_of(s[i]).len(),
        t[i].0 == j,
    ensures
        tracker_wf(s, refined(s, t, i, j)),
        containers_agree(s, refined(s, t, i, j)),
        refined(s, t, i, j)[i].0 == j + 1,
        forall|k: int| 0 <= k < i ==> #[trigger] refined(s, t, i, j)[k] == t[k],
        forall|k: int|
            0 <= k < s.len() && #[trigger] refined(s, t, i, j)[k] != t[k] ==> refined(s, t, i, j)[k].0 == j + 1
                && member_end(s, i, t[i].1 as int, j, k) >= 0,
{
    let hi = t[i].1 as int;
    let t2 = refined(s, t, i, j);
    lemma_hotkey_len(s[i]);
    assert forall|m: int| 0 <= m < t.len() implies m < (#[trigger] t2[m]).1 <= t.len() by {
        lemma_member_end_shares(s, i, hi, j, m);
    }
    lemma_run_end(s, i, i + 1, hi, j);
    assert(member_end(s, i, hi, j, i) >= 0);
    assert forall|k: int, m: int|
        #![trigger t2[k], s[m]]
        0 <= k <= m < t2[k].1 && k < t2.len() implies (t2[k].0 as int) <= chords_of(s[m]).len() && chords_of(
            s[m],
        ).take(t2[k].0 as int) == chords_of(s[k]).take(t2[k].0 as int) by {
        let e = member_end(s, i, hi, j, k);
        lemma_member_end_shares(s, i, hi, j, k);
        if e >= 0 {
            assert(shares_chord(s, k, m, j));
            assert(shares_chord(s, k, k, j));
            assert(t[i] == t[i]);
            assert(chords_of(s[m]).take(j) == chords_of(s[i]).take(j));
            assert(chords_of(s[k]).take(j) == chords_of(s[i]).take(j));
            assert(chords_of(s[m]).take(j + 1) =~= chords_of(s[m]).take(j).push(chords_of(s[m])[j]));
            assert(chords_of(s[k]).take(j + 1) =~= chords_of(s[k]).take(j).push(chords_of(s[k])[j]));
        } else {
            assert(t2[k] == t[k]);
        }
    }
    assert forall|k: int| 0 <= k < i implies #[trigger] t2[k] == t[k] by {
        assert(member_end(s, i, hi, j, k) == -1);
    }
}

/// Every keyspace that is built is backed by the list.
proof fn lemma_steps_j_sound(s: Seq<Shortcut>, t: Seq<(usize, usize)>, i: int, j: int, stop: int)
    requires
        tracker_wf(s, t),
        containers_agree(s, t),
        0 <= i < s.len(),
        stop == chords_of(s[i]).len(),
        0 <= j,
        t[i].0 == j,
    ensures
        tracker_wf(s, steps_j(s, t, i, j, stop).1),
        containers_agree(s, steps_j(s, t, i, j, stop).1),
        forall|x: int|
            0 <= x < steps_j(s, t, i, j, stop).0.len() ==> keyspace_sound(s, #[trigger] steps_j(s, t, i, j, stop).0[x]),
    decreases stop - j,
{
    if j < stop {
        let hi = t[i].1 as int;
        let title = chords_of(s[i]).take(j);
        assert forall|m: int| i <= m < hi implies chords_of(#[trigger] s[m]).len() >= j && chords_of(s[m]).take(j)
            == title by {
            assert(t[i] == t[i]);
        }
        lemma_entries_sound(s, i, hi, j, title);
        let sv = space_view(s, t, i, j);
        assert(keyspace_sound(s, sv)) by {
            assert(sv.title.len() == j);
        }
        lemma_refined(s, t, i, j);
        let t2 = refined(s, t, i, j);
        lemma_steps_j_sound(s, t2, i, j + 1, stop);
        let rest = steps_j(s, t2, i, j + 1, stop);
        assert(steps_j(s, t, i, j, stop).0 == seq![sv] + rest.0);
        assert forall|x: int| 0 <= x < steps_j(s, t, i, j, stop).0.len() implies keyspace_sound(
            s,
            #[trigger] steps_j(s, t, i, j, stop).0[x],
        ) by {
            if x > 0 {
                assert(steps_j(s, t, i, j, stop).0[x] == rest.0[x - 1]);
            }
        }
    }
}

proof fn lemma_steps_i_sound(s: Seq<Shortcut>, t: Seq<(usize, usize)>, i: int)
    requires
        tracker_wf(s, t),
        containers_agree(s, t),
        0 <= i,
    ensures
        forall|x: int| 0 <= x < steps_i(s, t, i).len() ==> keyspace_sound(s, #[trigger] steps_i(s, t, i)[x]),
    decreases s.len() - i,
{
    if i < s.len() {
        let r = steps_j(s, t, i, t[i].0 as int, chords_of(s[i]).len() as int);
        lemma_steps_j_sound(s, t, i, t[i].0 as int, chords_of(s[i]).len() as int);
        lemma_steps_i_sound(s, r.1, i + 1);
        let rest = steps_i(s, r.1, i + 1);
        assert forall|x: int| 0 <= x < steps_i(s, t, i).len() implies keyspace_sound(
            s,
            #[trigger] steps_i(s, t, i)[x],
        ) by {
            if x >= r.0.len() {
                assert(steps_i(s, t, i)[x] == rest[x - r.0.len()]);
            } else {
                assert(steps_i(s, t, i)[x] == r.0[x]);
            }
        }
    }
}

/// The visit record at the start is well-formed and its containers agree.
proof fn lemma_init_tracker(s: Seq<Shortcut>)
    requires
        s.len() <= usize::MAX,
    ensures
        tracker_wf(s, init_tracker(s.len())),
        containers_agree(s, init_tracker(s.len())),
{
    let t = init_tracker(s.len());
    assert forall|k: int, m: int|
        #![trigger t[k], s[m]]
        0 <= k <= m < t[k].1 && k < t.len() implies (t[k].0 as int) <= chords_of(s[m]).len() && chords_of(
            s[m],
        ).take(t[k].0 as int) == chords_of(s[k]).take(t[k].0 as int) by {
        assert(chords_of(s[m]).take(0) =~= chords_of(s[k]).take(0));
    }
}

/// Law: every keyspace of a shortcut list is backed by the list.  Its title
/// is a proper prefix of some hotkey; an entry that enters a state enters
/// the title followed by the pressed chord; an entry that runs a command
/// runs the command of a shortcut whose hotkey is the title followed by the
/// pressed chord.
pub proof fn law_keyspaces_sound(s: Seq<Shortcut>)
    requires
        s.len() <= usize::MAX,
    ensures
        forall|x: int| 0 <= x < keyspaces_of(s).len() ==> keyspace_sound(s, #[trigger] keyspaces_of(s)[x]),
{
    lemma_init_tracker(s);
    lemma_steps_i_sound(s, init_tracker(s.len()), 0);
}

/// In a prefix-free list, a shortcut whose last chord is `j` stands alone
/// in its chord-`j` group, so that group's entry runs its command.
proof fn lemma_entries_list_action(s: Seq<Shortcut>, lo: int, hi: int, j: int, m: int, title: Seq<Chord>)
    requires
        0 <= lo,
        hi <= s.len(),
        0 <= j,
        prefix_free(s),
        member_end(s, lo, hi, j, m) >= 0,
        chords_of(s[m]).len() == j + 1,
        forall|m2: int| lo <= m2 < hi ==> chords_of(#[trigger] s[m2]).len() >= j && chords_of(s[m2]).take(j) == title,
    ensures
        exists|x: int|
            0 <= x < entries(s, lo, hi, j).len() && #[trigger] entries(s, lo, hi, j)[x] == (
                chords_of(s[m])[j],
                ActionView::Action(s[m].action@),
            ),
    decreases hi - lo,
{
    let e = group_end(s, lo, hi, j);
    lemma_run_end(s, lo, lo + 1, hi, j);
    lemma_member_end_shares(s, lo, hi, j, m);
    let rest = entries(s, e, hi, j);
    let head = partition_entry(s.subrange(lo, e), j);
    assert(entries(s, lo, hi, j) == seq![head] + rest);
    if m < e {
        let cm = chords_of(s[m]);
        if lo < m {
            let cl = chords_of(s[lo]);
            assert(shares_chord(s, lo, m, j));
            assert(cl.take(j + 1) =~= cl.take(j).push(cl[j]));
            assert(cm =~= cm.take(j).push(cm[j]));
            assert(is_prefix(cm, cl));
            assert(false);
        }
        if e > m + 1 {
            let cn = chords_of(s[m + 1]);
            assert(shares_chord(s, lo, m + 1, j));
            assert(cn.take(j + 1) =~= cn.take(j).push(cn[j]));
            assert(cm =~= cm.take(j).push(cm[j]));
            assert(is_prefix(cm, cn));
            assert(false);
        }
        assert(s.subrange(lo, e)[0] == s[m]);
        assert(entries(s, lo, hi, j)[0] == head);
    } else {
        lemma_entries_list_action(s, e, hi, j, m, title);
        let x = choose|x: int|
            0 <= x < rest.len() && #[trigger] rest[x] == (chords_of(s[m])[j], ActionView::Action(s[m].action@));
        assert(entries(s, lo, hi, j)[x + 1] == rest[x]);
    }
}

/// Following one shortcut's chords: the visit record stays well-formed and
/// in agreement, the shortcut's chords all end up handled, earlier records
/// stay as they were, and each shortcut whose chords become all handled has
/// its command listed.
proof fn lemma_steps_j_complete(s: Seq<Shortcut>, t: Seq<(usize, usize)>, i: int, j: int, stop: int)
    requires
        tracker_wf(s, t),
        containers_agree(s, t),
        prefix_free(s),
        0 <= i < s.len(),
        stop == chords_of(s[i]).len(),
        0 <= j,
        t[i].0 == j,
    ensures
        tracker_wf(s, steps_j(s, t, i, j, stop).1),
        containers_agree(s, steps_j(s, t, i, j, stop).1),
        steps_j(s, t, i, j, stop).1[i].0 == stop,
        forall|k: int| 0 <= k < i ==> #[trigger] steps_j(s, t, i, j, stop).1[k] == t[k],
        forall|k: int|
            0 <= k < s.len() && #[trigger] steps_j(s, t, i, j, stop).1[k].0 == chords_of(s[k]).len() && t[k].0
                != chords_of(s[k]).len() ==> action_listed(steps_j(s, t, i, j, stop).0, s[k]),
    decreases stop - j,
{
    if j < stop {
        let hi = t[i].1 as int;
        let title = chords_of(s[i]).take(j);
        assert forall|m: int| i <= m < hi implies chords_of(#[trigger] s[m]).len() >= j && chords_of(s[m]).take(j)
            == title by {
            assert(t[i] == t[i]);
        }
        lemma_refined(s, t, i, j);
        let t2 = refined(s, t, i, j);
        lemma_steps_j_complete(s, t2, i, j + 1, stop);
        let rest = steps_j(s, t2, i, j + 1, stop);
        let sv = space_view(s, t, i, j);
        let all = steps_j(s, t, i, j, stop).0;
        assert(all == seq![sv] + rest.0);
        assert forall|k: int| 0 <= k < i implies #[trigger] rest.1[k] == t[k] by {
            assert(t2[k] == t[k]);
        }
        assert forall|k: int|
            0 <= k < s.len() && #[trigger] rest.1[k].0 == chords_of(s[k]).len() && t[k].0 != chords_of(
                s[k],
            ).len() implies action_listed(all, s[k]) by {
            if t2[k].0 == chords_of(s[k]).len() {
                assert(t2[k] != t[k]);
                lemma_entries_list_action(s, i, hi, j, k, title);
                lemma_member_end_shares(s, i, hi, j, k);
                let c = chords_of(s[k]);
                let x = choose|x: int|
                    0 <= x < entries(s, i, hi, j).len() && #[trigger] entries(s, i, hi, j)[x] == (
                        c[j],
                        ActionView::Action(s[k].action@),
                    );
                assert(c.drop_last() =~= c.take(j));
                assert(all[0] == sv);
                assert(all[0].list[x] == (c.last(), ActionView::Action(s[k].action@)));
            } else {
                let (x, y) = choose|x: int, y: int|
                    #![trigger rest.0[x].list[y]]
                    0 <= x < rest.0.len() && 0 <= y < rest.0[x].list.len() && rest.0[x].title == chords_of(
                        s[k],
                    ).drop_last() && rest.0[x].list[y] == (
                        chords_of(s[k]).last(),
                        ActionView::Action(s[k].action@),
                    );
                assert(all[x + 1] == rest.0[x]);
            }
        }
    } else {
        assert(t[i] == t[i]);
    }
}

/// Following the shortcuts from `i` on: each shortcut whose chords are not
/// all handled yet has its command listed.
proof fn lemma_steps_i_complete(s: Seq<Shortcut>, t: Seq<(usize, usize)>, i: int)
    requires
        tracker_wf(s, t),
        containers_agree(s, t),
        prefix_free(s),
        0 <= i <= s.len(),
        forall|k: int| 0 <= k < i ==> (#[trigger] t[k]).0 == chords_of(s[k]).len(),
    ensures
        forall|k: int|
            0 <= k < s.len() && (#[trigger] t[k]).0 != chords_of(s[k]).len() ==> action_listed(steps_i(s, t, i), s[k]),
    decreases s.len() - i,
{
    if i < s.len() {
        let stop = chords_of(s[i]).len() as int;
        let r = steps_j(s, t, i, t[i].0 as int, stop);
        lemma_steps_j_complete(s, t, i, t[i].0 as int, stop);
        assert forall|k: int| 0 <= k < i + 1 implies (#[trigger] r.1[k]).0 == chords_of(s[k]).len() by {
            if k < i {
                assert(r.1[k] == t[k]);
            }
        }
        lemma_steps_i_complete(s, r.1, i + 1);
        let rest = steps_i(s, r.1, i + 1);
        let all = steps_i(s, t, i);
        assert(all == r.0 + rest);
        assert forall|k: int| 0 <= k < s.len() && (#[trigger] t[k]).0 != chords_of(s[k]).len() implies action_listed(
            all,
            s[k],
        ) by {
            if r.1[k].0 == chords_of(s[k]).len() {
                let (x, y) = choose|x: int, y: int|
                    #![trigger r.0[x].list[y]]
                    0 <= x < r.0.len() && 0 <= y < r.0[x].list.len() && r.0[x].title == chords_of(s[k]).drop_last()
                        && r.0[x].list[y] == (chords_of(s[k]).last(), ActionView::Action(s[k].action@));
                assert(all[x] == r.0[x]);
            } else {
                let (x, y) = choose|x: int, y: int|
                    #![trigger rest[x].list[y]]
                    0 <= x < rest.len() && 0 <= y < rest[x].list.len() && rest[x].title == chords_of(s[k]).drop_last()
                        && rest[x].list[y] == (chords_of(s[k]).last(), ActionView::Action(s[k].action@));
                assert(all[r.0.len() + x] == rest[x]);
            }
        }
    }
}

/// Law: in a list whose hotkeys are not empty and none of which is a prefix
/// of another, the command of every shortcut is reached: some keyspace,
/// titled by all chords of its hotkey but the last, maps that last chord to
/// the command.
pub proof fn law_every_action_listed(s: Seq<Shortcut>)
    requires
        s.len() <= usize::MAX,
        prefix_free(s),
        forall|k: int| 0 <= k < s.len() ==> chords_of(#[trigger] s[k]).len() > 0,
    ensures
        forall|k: int| 0 <= k < s.len() ==> action_listed(keyspaces_of(s), #[trigger] s[k]),
{
    let t = init_tracker(s.len());
    lemma_init_tracker(s);
    lemma_steps_i_complete(s, t, 0);
    assert forall|k: int| 0 <= k < s.len() implies action_listed(keyspaces_of(s), #[trigger] s[k]) by {
        assert(t[k].0 == 0);
    }
}

} // verus!
