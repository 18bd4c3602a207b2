//! What holds over several calls: a walk over a container, a repeated
//! split, and a list that grows by one shortcut.
use vstd::prelude::*;

use crate::keyspace::{lemma_member_end_bounds, lemma_refined_wf};
use crate::keyspace_laws::lemma_hotkey_len;
use crate::keyspace_spec::{
    entries, group_end, init_tracker, joined, keyspaces_of, lemma_run_end, member_end, opens_group,
    partition_entry, refined, run_end, shares_chord, shortcut_entry, space_view, steps_i, steps_j, tracker_wf,
    walk_groups, walk_stop, KeyspaceView,
};
use crate::structs::{chords_of, Shortcut};

verus! {

/// Law: walking a container `[lo, hi)` group by group (calling
/// `SharedChordPartitioner::next` until it answers None) yields non-empty
/// groups that, one after another, are exactly the shortcuts from `lo` up
/// to where the walk stops; every shortcut there is held by a group; and the
/// walk covers the whole container exactly when every hotkey in it reaches
/// chord position `j`.
pub proof fn law_walk_covers(s: Seq<Shortcut>, lo: int, hi: int, j: int)
    requires
        0 <= lo <= hi <= s.len(),
    ensures
        lo <= walk_stop(s, lo, hi, j) <= hi,
        forall|k: int|
            0 <= k < walk_groups(s, lo, hi, j).len() ==> lo <= (#[trigger] walk_groups(s, lo, hi, j)[k]).0
                < walk_groups(s, lo, hi, j)[k].1 <= walk_stop(s, lo, hi, j),
        joined(s, walk_groups(s, lo, hi, j)) == s.subrange(lo, walk_stop(s, lo, hi, j)),
        forall|m: int| lo <= m < walk_stop(s, lo, hi, j) ==> #[trigger] member_end(s, lo, hi, j, m) >= 0,
        (walk_stop(s, lo, hi, j) == hi) <==> (forall|m: int| lo <= m < hi ==> chords_of(#[trigger] s[m]).len() > j),
    decreases hi - lo,
{
    let g = walk_groups(s, lo, hi, j);
    let stop = walk_stop(s, lo, hi, j);
    if opens_group(s, lo, hi, j) {
        let e = group_end(s, lo, hi, j);
        lemma_run_end(s, lo, lo + 1, hi, j);
        law_walk_covers(s, e, hi, j);
        let rest = walk_groups(s, e, hi, j);
        assert(g == seq![(lo, e)] + rest);
        assert(stop == walk_stop(s, e, hi, j));
        assert forall|k: int| 0 <= k < g.len() implies lo <= (#[trigger] g[k]).0 < g[k].1 <= stop by {
            if k > 0 {
                assert(g[k] == rest[k - 1]);
            }
        }
        assert(g.drop_first() =~= rest);
        assert(joined(s, g) == s.subrange(lo, e) + joined(s, rest));
        assert(s.subrange(lo, stop) =~= s.subrange(lo, e) + s.subrange(e, stop));
        assert forall|m: int| lo <= m < stop implies #[trigger] member_end(s, lo, hi, j, m) >= 0 by {
            if m >= e {
                assert(member_end(s, e, hi, j, m) >= 0);
            }
        }
        if stop == hi {
            assert forall|m: int| lo <= m < hi implies chords_of(#[trigger] s[m]).len() > j by {
                if m >= e {
                    assert(chords_of(s[m]).len() > j);
                } else if m > lo {
                    assert(shares_chord(s, lo, m, j));
                }
            }
        }
    } else {
        assert(g =~= Seq::<(int, int)>::empty());
        assert(s.subrange(lo, lo) =~= Seq::<Shortcut>::empty());
        if lo < hi {
            assert(chords_of(s[lo]).len() <= j);
        }
    }
}

/// A run that every shortcut continues reaches its end.
proof fn lemma_run_end_full(s: Seq<Shortcut>, first: int, k: int, e: int, j: int)
    requires
        k <= e,
        forall|m: int| k <= m < e ==> #[trigger] shares_chord(s, first, m, j),
    ensures
        run_end(s, first, k, e, j) == e,
    decreases e - k,
{
    if k < e {
        lemma_run_end_full(s, first, k + 1, e, j);
    }
}

/// Law: splitting the container of shortcut `i` by chord `j` a second time
/// changes nothing, and the second split's walk yields exactly one group:
/// the first group of the first split, which is now `i`'s whole container.
pub proof fn law_refine_repeat(s: Seq<Shortcut>, t: Seq<(usize, usize)>, i: int, j: int)
    requires
        tracker_wf(s, t),
        0 <= i < s.len(),
        0 <= j < chords_of(s[i]).len(),
    ensures
        refined(s, refined(s, t, i, j), i, j) == refined(s, t, i, j),
        refined(s, t, i, j)[i].1 == group_end(s, i, t[i].1 as int, j),
        walk_groups(s, i, refined(s, t, i, j)[i].1 as int, j) == seq![(i, refined(s, t, i, j)[i].1 as int)],
{
    let hi = t[i].1 as int;
    let t1 = refined(s, t, i, j);
    let e = group_end(s, i, hi, j);
    lemma_hotkey_len(s[i]);
    lemma_run_end(s, i, i + 1, hi, j);
    assert(opens_group(s, i, hi, j));
    assert(member_end(s, i, hi, j, i) == e);
    assert(t1[i] == ((j + 1) as usize, e as usize));
    lemma_run_end_full(s, i, i + 1, e, j);
    assert(opens_group(s, i, e, j));
    assert(group_end(s, i, e, j) == e);
    let t2 = refined(s, t1, i, j);
    assert forall|m: int| 0 <= m < t1.len() implies #[trigger] t2[m] == t1[m] by {
        if i <= m < e {
            assert(member_end(s, i, e, j, m) == e);
            assert(member_end(s, i, hi, j, m) == e);
        } else if m >= e {
            assert(!opens_group(s, e, e, j));
            assert(member_end(s, e, e, j, m) == -1);
            assert(member_end(s, i, e, j, m) == -1);
        }
    }
    assert(t2 =~= t1);
    assert(!opens_group(s, e, e, j));
    assert(walk_groups(s, e, e, j) =~= Seq::<(int, int)>::empty());
    assert(walk_groups(s, i, e, j) =~= seq![(i, e)]);
}

/// Two lists that agree below `hi` run alike below `hi`.
proof fn lemma_agree_run_end(s1: Seq<Shortcut>, s2: Seq<Shortcut>, first: int, k: int, hi: int, j: int)
    requires
        0 <= first < hi,
        0 <= k,
        hi <= s1.len(),
        hi <= s2.len(),
        forall|m: int| 0 <= m < hi ==> s1[m] == s2[m],
    ensures
        run_end(s1, first, k, hi, j) == run_end(s2, first, k, hi, j),
    decreases hi - k,
{
    if k < hi {
        assert(s1[k] == s2[k]);
        assert(s1[first] == s2[first]);
        lemma_agree_run_end(s1, s2, first, k + 1, hi, j);
    }
}

/// Two lists that agree below `hi` are split alike inside `[lo, hi)`.
proof fn lemma_agree_walk(s1: Seq<Shortcut>, s2: Seq<Shortcut>, lo: int, hi: int, j: int)
    requires
        0 <= lo,
        hi <= s1.len(),
        hi <= s2.len(),
        forall|m: int| 0 <= m < hi ==> s1[m] == s2[m],
    ensures
        entries(s1, lo, hi, j) == entries(s2, lo, hi, j),
        forall|m: int| #[trigger] member_end(s1, lo, hi, j, m) == member_end(s2, lo, hi, j, m),
    decreases hi - lo,
{
    if lo < hi {
        assert(s1[lo] == s2[lo]);
    }
    if opens_group(s1, lo, hi, j) {
        lemma_agree_run_end(s1, s2, lo, lo + 1, hi, j);
        let e = group_end(s1, lo, hi, j);
        lemma_run_end(s1, lo, lo + 1, hi, j);
        lemma_agree_walk(s1, s2, e, hi, j);
        assert(s1.subrange(lo, e) =~= s2.subrange(lo, e));
        assert forall|m: int| #[trigger] member_end(s1, lo, hi, j, m) == member_end(s2, lo, hi, j, m) by {
            if lo <= m && m >= e {
                assert(member_end(s1, e, hi, j, m) == member_end(s2, e, hi, j, m));
            }
        }
    }
}

/// Growing a list by one shortcut leaves the work on the earlier shortcuts
/// as it was, the new shortcut's record aside.
proof fn lemma_grown_step(l: Seq<Shortcut>, sc: Shortcut, t: Seq<(usize, usize)>, x: (usize, usize), i: int, j: int)
    requires
        tracker_wf(l, t),
        0 <= i < l.len(),
    ensures
        refined(l.push(sc), t.push(x), i, j) == refined(l, t, i, j).push(x),
        space_view(l.push(sc), t.push(x), i, j) == space_view(l, t, i, j),
{
    let l2 = l.push(sc);
    let n = l.len() as int;
    let hi = t[i].1 as int;
    assert forall|m: int| 0 <= m < n implies l[m] == l2[m] by {}
    lemma_agree_walk(l, l2, i, hi, j);
    assert(t.push(x)[i] == t[i]);
    let r2 = refined(l2, t.push(x), i, j);
    let r1 = refined(l, t, i, j).push(x);
    assert forall|m: int| 0 <= m < r1.len() implies r2[m] == r1[m] by {
        assert(member_end(l, i, hi, j, m) == member_end(l2, i, hi, j, m));
        if m == n {
            lemma_member_end_bounds(l, i, hi, j, m);
        }
    }
    assert(r2 =~= r1);
    assert(l2[i] == l[i]);
    assert(space_view(l2, t.push(x), i, j).list == space_view(l, t, i, j).list);
    assert(space_view(l2, t.push(x), i, j).title == space_view(l, t, i, j).title);
}

proof fn lemma_grown_steps_j(
    l: Seq<Shortcut>,
    sc: Shortcut,
    t: Seq<(usize, usize)>,
    x: (usize, usize),
    i: int,
    j: int,
)
    requires
        tracker_wf(l, t),
        0 <= i < l.len(),
        0 <= j,
    ensures
        steps_j(l.push(sc), t.push(x), i, j, chords_of(l[i]).len() as int).0 == steps_j(
            l,
            t,
            i,
            j,
            chords_of(l[i]).len() as int,
        ).0,
        steps_j(l.push(sc), t.push(x), i, j, chords_of(l[i]).len() as int).1 == steps_j(
            l,
            t,
            i,
            j,
            chords_of(l[i]).len() as int,
        ).1.push(x),
        tracker_wf(l, steps_j(l, t, i, j, chords_of(l[i]).len() as int).1),
    decreases chords_of(l[i]).len() - j,
{
    let stop = chords_of(l[i]).len() as int;
    if j < stop {
        lemma_hotkey_len(l[i]);
        lemma_grown_step(l, sc, t, x, i, j);
        lemma_refined_wf(l, t, i, j);
        lemma_grown_steps_j(l, sc, refined(l, t, i, j), x, i, j + 1);
    }
}

/// The keyspaces that a shortcut standing alone at the end of the list makes
/// from chord position `j` on: one per further prefix, each with the one
/// entry of that shortcut.
proof fn lemma_lone_tail(s: Seq<Shortcut>, t: Seq<(usize, usize)>, j: int)
    requires
        s.len() >= 1,
        t.len() == s.len(),
        t[s.len() - 1].0 == j,
        t[s.len() - 1].1 == s.len(),
        0 <= j <= chords_of(s.last()).len(),
        s.len() <= usize::MAX,
    ensures
        steps_j(s, t, s.len() - 1, j, chords_of(s.last()).len() as int).0.len() == chords_of(s.last()).len() - j,
        forall|y: int|
            0 <= y < chords_of(s.last()).len() - j ==> (#[trigger] steps_j(
                s,
                t,
                s.len() - 1,
                j,
                chords_of(s.last()).len() as int,
            ).0[y]).title == chords_of(s.last()).take(j + y) && steps_j(
                s,
                t,
                s.len() - 1,
                j,
                chords_of(s.last()).len() as int,
            ).0[y].list == seq![shortcut_entry(s.last(), j + y)],
    decreases chords_of(s.last()).len() - j,
{
    let n = s.len() - 1;
    let c = chords_of(s.last()).len() as int;
    if j < c {
        lemma_hotkey_len(s.last());
        assert(opens_group(s, n, n + 1, j));
        assert(group_end(s, n, n + 1, j) == n + 1);
        assert(!opens_group(s, n + 1, n + 1, j));
        assert(s.subrange(n, n + 1) =~= seq![s.last()]);
        assert(partition_entry(s.subrange(n, n + 1), j) == shortcut_entry(s.last(), j));
        assert(entries(s, n + 1, n + 1, j) =~= Seq::<(crate::structs::Chord, crate::keyspace_spec::ActionView)>::empty());
        assert(entries(s, n, n + 1, j) =~= seq![shortcut_entry(s.last(), j)]);
        let t2 = refined(s, t, n, j);
        assert(member_end(s, n, n + 1, j, n) == n + 1);
        assert(t2[n] == ((j + 1) as usize, (n + 1) as usize));
        lemma_lone_tail(s, t2, j + 1);
        let rest = steps_j(s, t2, n, j + 1, c);
        let all = steps_j(s, t, n, j, c).0;
        assert(all == seq![space_view(s, t, n, j)] + rest.0);
        assert forall|y: int| 0 <= y < c - j implies (#[trigger] all[y]).title == chords_of(s.last()).take(j + y)
            && all[y].list == seq![shortcut_entry(s.last(), j + y)] by {
            if y > 0 {
                assert(all[y] == rest.0[y - 1]);
            }
        }
    }
}

/// Growing a list by a shortcut whose record says `(1, n + 1)`: the walk
/// over the earlier shortcuts makes what it made before, then the new
/// shortcut makes one keyspace per prefix beyond its first chord.
proof fn lemma_grown_steps_i(l: Seq<Shortcut>, sc: Shortcut, t: Seq<(usize, usize)>, i: int)
    requires
        tracker_wf(l, t),
        0 <= i <= l.len(),
        l.len() + 1 <= usize::MAX,
        chords_of(sc).len() >= 1,
    ensures
        ({
            let v2 = steps_i(l.push(sc), t.push((1usize, (l.len() + 1) as usize)), i);
            let v = steps_i(l, t, i);
            &&& v2.len() == v.len() + chords_of(sc).len() - 1
            &&& forall|y: int| 0 <= y < v.len() ==> #[trigger] v2[y] == v[y]
            &&& forall|y: int|
                0 <= y < chords_of(sc).len() - 1 ==> (#[trigger] v2[v.len() + y]).title == chords_of(sc).take(1 + y)
                    && v2[v.len() + y].list == seq![shortcut_entry(sc, 1 + y)]
        }),
    decreases l.len() - i,
{
    let n = l.len() as int;
    let x = (1usize, (n + 1) as usize);
    let l2 = l.push(sc);
    let t2 = t.push(x);
    let v2 = steps_i(l2, t2, i);
    let v = steps_i(l, t, i);
    let c = chords_of(sc).len() as int;
    if i == n {
        assert(l2.last() == sc);
        lemma_lone_tail(l2, t2, 1);
        let r = steps_j(l2, t2, n, 1, c);
        assert(steps_i(l2, r.1, n + 1) =~= Seq::<KeyspaceView>::empty());
        assert(v2 =~= r.0);
        assert(v =~= Seq::<KeyspaceView>::empty());
        assert forall|y: int| 0 <= y < c - 1 implies (#[trigger] v2[v.len() + y]).title == chords_of(sc).take(1 + y)
            && v2[v.len() + y].list == seq![shortcut_entry(sc, 1 + y)] by {
            assert(v2[v.len() + y] == r.0[y]);
        }
    } else {
        assert(t2[i] == t[i]);
        assert(l2[i] == l[i]);
        lemma_grown_steps_j(l, sc, t, x, i, t[i].0 as int);
        let r = steps_j(l, t, i, t[i].0 as int, chords_of(l[i]).len() as int);
        lemma_grown_steps_i(l, sc, r.1, i + 1);
        let w2 = steps_i(l2, r.1.push(x), i + 1);
        let w = steps_i(l, r.1, i + 1);
        assert(v2 == r.0 + w2);
        assert(v == r.0 + w);
        assert forall|y: int| 0 <= y < v.len() implies #[trigger] v2[y] == v[y] by {
            if y >= r.0.len() {
                assert(v2[y] == w2[y - r.0.len()]);
                assert(v[y] == w[y - r.0.len()]);
            }
        }
        assert forall|y: int| 0 <= y < c - 1 implies (#[trigger] v2[v.len() + y]).title == chords_of(sc).take(1 + y)
            && v2[v.len() + y].list == seq![shortcut_entry(sc, 1 + y)] by {
            assert(v2[v.len() + y] == w2[w.len() + y]);
        }
    }
}

/// The first split of a list grown by a shortcut with a new first chord:
/// the new shortcut forms a group of its own after all the others.
proof fn lemma_grown_first_split(l: Seq<Shortcut>, sc: Shortcut, lo: int)
    requires
        0 <= lo <= l.len(),
        forall|k: int| 0 <= k < l.len() ==> chords_of(#[trigger] l[k]).len() > 0,
        chords_of(sc).len() > 0,
        forall|k: int| 0 <= k < l.len() ==> chords_of(#[trigger] l[k])[0] != chords_of(sc)[0],
    ensures
        entries(l.push(sc), lo, l.len() + 1 as int, 0) == entries(l, lo, l.len() as int, 0).push(shortcut_entry(sc, 0)),
        forall|m: int|
            lo <= m < l.len() ==> #[trigger] member_end(l.push(sc), lo, l.len() + 1 as int, 0, m) == member_end(
                l,
                lo,
                l.len() as int,
                0,
                m,
            ) && member_end(l, lo, l.len() as int, 0, m) >= 0,
        member_end(l.push(sc), lo, l.len() + 1 as int, 0, l.len() as int) == l.len() + 1,
    decreases l.len() - lo,
{
    let n = l.len() as int;
    let l2 = l.push(sc);
    assert(l2[n] == sc);
    if lo < n {
        assert(l2[lo] == l[lo]);
        assert(opens_group(l, lo, n, 0));
        assert(opens_group(l2, lo, n + 1, 0));
        lemma_grown_run_end(l, sc, lo, lo + 1);
        let e = group_end(l, lo, n, 0);
        lemma_run_end(l, lo, lo + 1, n, 0);
        assert(group_end(l2, lo, n + 1, 0) == e);
        lemma_grown_first_split(l, sc, e);
        assert(l2.subrange(lo, e) =~= l.subrange(lo, e));
        assert(entries(l2, lo, n + 1, 0) =~= entries(l, lo, n, 0).push(shortcut_entry(sc, 0)));
        assert forall|m: int| lo <= m < n implies #[trigger] member_end(l2, lo, n + 1, 0, m) == member_end(l, lo, n, 0, m)
            && member_end(l, lo, n, 0, m) >= 0 by {
            if m >= e {
                assert(member_end(l2, e, n + 1, 0, m) == member_end(l, e, n, 0, m));
            }
        }
    } else {
        assert(opens_group(l2, n, n + 1, 0));
        assert(group_end(l2, n, n + 1, 0) == n + 1);
        assert(!opens_group(l2, n + 1, n + 1, 0));
        assert(l2.subrange(n, n + 1) =~= seq![sc]);
        assert(partition_entry(l2.subrange(n, n + 1), 0) == shortcut_entry(sc, 0));
        assert(entries(l2, n + 1, n + 1, 0) =~= Seq::<(crate::structs::Chord, crate::keyspace_spec::ActionView)>::empty());
        assert(entries(l, n, n, 0) =~= Seq::<(crate::structs::Chord, crate::keyspace_spec::ActionView)>::empty());
        assert(entries(l2, n, n + 1, 0) =~= seq![shortcut_entry(sc, 0)]);
    }
}

proof fn lemma_grown_run_end(l: Seq<Shortcut>, sc: Shortcut, lo: int, k: int)
    requires
        0 <= lo < k <= l.len(),
        forall|m: int| 0 <= m < l.len() ==> chords_of(#[trigger] l[m])[0] != chords_of(sc)[0],
    ensures
        run_end(l.push(sc), lo, k, l.len() + 1 as int, 0) == run_end(l, lo, k, l.len() as int, 0),
    decreases l.len() - k,
{
    let l2 = l.push(sc);
    assert(l2[lo] == l[lo]);
    if k < l.len() {
        assert(l2[k] == l[k]);
        lemma_grown_run_end(l, sc, lo, k + 1);
    } else {
        assert(l2[k] == sc);
        assert(!shares_chord(l2, lo, k, 0));
    }
}

/// Law: growing a list of non-empty hotkeys by a shortcut whose first chord
/// begins no earlier hotkey adds that chord's entry to the first keyspace,
/// keeps every other keyspace, and adds, at the end, one keyspace for each
/// further prefix of the new hotkey (titled by its first 1, 2, ... chords),
/// each holding the new shortcut's single entry.
pub proof fn law_append_new_first_chord(l: Seq<Shortcut>, sc: Shortcut)
    requires
        l.len() >= 1,
        l.len() + 1 <= usize::MAX,
        forall|k: int| 0 <= k < l.len() ==> chords_of(#[trigger] l[k]).len() > 0,
        chords_of(sc).len() > 0,
        forall|k: int| 0 <= k < l.len() ==> chords_of(#[trigger] l[k])[0] != chords_of(sc)[0],
    ensures
        ({
            let ks1 = keyspaces_of(l);
            let ks2 = keyspaces_of(l.push(sc));
            let c = chords_of(sc).len();
            &&& ks1.len() >= 1
            &&& ks2.len() == ks1.len() + c - 1
            &&& ks2[0].title == ks1[0].title
            &&& ks2[0].list == ks1[0].list.push(shortcut_entry(sc, 0))
            &&& forall|y: int| 1 <= y < ks1.len() ==> #[trigger] ks2[y] == ks1[y]
            &&& forall|y: int|
                0 <= y < c - 1 ==> (#[trigger] ks2[ks1.len() + y]).title == chords_of(sc).take(1 + y)
                    && ks2[ks1.len() + y].list == seq![shortcut_entry(sc, 1 + y)]
        }),
{
    let n = l.len() as int;
    let l2 = l.push(sc);
    let x = (1usize, (n + 1) as usize);
    let t0 = init_tracker(l.len());
    let t20 = init_tracker(l2.len());
    let c0 = chords_of(l[0]).len() as int;
    assert(l2[0] == l[0]);
    assert(t0[0] == (0usize, n as usize));
    assert(t20[0] == (0usize, (n + 1) as usize));
    // the first split, over the whole list
    lemma_grown_first_split(l, sc, 0);
    let t1 = refined(l, t0, 0, 0);
    let t21 = refined(l2, t20, 0, 0);
    assert forall|m: int| 0 <= m < t21.len() implies t21[m] == t1.push(x)[m] by {
        if m == n {
        } else {
            assert(member_end(l2, 0, n + 1, 0, m) == member_end(l, 0, n, 0, m));
        }
    }
    assert(t21 =~= t1.push(x));
    let sv = space_view(l, t0, 0, 0);
    let sv2 = space_view(l2, t20, 0, 0);
    assert(sv2.list == sv.list.push(shortcut_entry(sc, 0)));
    assert(sv2.title =~= sv.title);
    // the rest of the first shortcut's walk, and the walk over the others
    assert forall|k: int| 0 <= k < t0.len() implies k < (#[trigger] t0[k]).1 <= t0.len() by {}
    lemma_refined_wf(l, t0, 0, 0);
    lemma_grown_steps_j(l, sc, t1, x, 0, 1);
    let q = steps_j(l, t1, 0, 1, c0);
    let q2 = steps_j(l2, t21, 0, 1, c0);
    lemma_grown_steps_i(l, sc, q.1, 1);
    let ks1 = keyspaces_of(l);
    let ks2 = keyspaces_of(l2);
    let w = steps_i(l, q.1, 1);
    let w2 = steps_i(l2, q.1.push(x), 1);
    assert(steps_j(l, t0, 0, 0, c0).0 == seq![sv] + q.0);
    assert(steps_j(l2, t20, 0, 0, c0).0 == seq![sv2] + q2.0);
    assert(ks1 == (seq![sv] + q.0) + w);
    assert(ks2 == (seq![sv2] + q.0) + w2);
    assert forall|y: int| 1 <= y < ks1.len() implies #[trigger] ks2[y] == ks1[y] by {
        if y > q.0.len() {
            assert(ks2[y] == w2[y - 1 - q.0.len()]);
            assert(ks1[y] == w[y - 1 - q.0.len()]);
        }
    }
    assert forall|y: int| 0 <= y < chords_of(sc).len() - 1 implies (#[trigger] ks2[ks1.len() + y]).title
        == chords_of(sc).take(1 + y) && ks2[ks1.len() + y].list == seq![shortcut_entry(sc, 1 + y)] by {
        assert(ks2[ks1.len() + y] == w2[w.len() + y]);
    }
}

} // verus!
