//! What holds of the keyspaces of a list in which the hotkeys that begin
//! with the same chords stand together (as they do in a sorted list).
use vstd::prelude::*;

use crate::keyspace_laws::{is_prefix, prefix_free};
use crate::keyspace_spec::{
    entries, group_end, init_tracker, keyspaces_of, lemma_run_end, member_end, opens_group, partition_entry,
    refined, run_end, shares_chord, space_view, steps_i, steps_j, ActionView, KeyspaceView,
};
use crate::structs::{chords_of, Chord, Shortcut};

verus! {

/// Whether the hotkey of shortcut `m` begins with `p`.
pub open spec fn begins_with(s: Seq<Shortcut>, m: int, p: Seq<Chord>) -> bool {
    is_prefix(p, chords_of(s[m]))
}

/// The shortcuts whose hotkeys begin with the same chords stand together:
/// between two of them there is none whose hotkey begins otherwise.
pub open spec fn grouped(s: Seq<Shortcut>) -> bool {
    forall|p: Seq<Chord>, a: int, b: int, c: int|
        #![trigger begins_with(s, a, p), begins_with(s, b, p), begins_with(s, c, p)]
        0 <= a < b < c < s.len() && begins_with(s, a, p) && begins_with(s, c, p) ==> begins_with(s, b, p)
}

/// The first index from `m` on whose hotkey does not begin with `p` (or the
/// end of the list).
pub open spec fn prefix_run_end(s: Seq<Shortcut>, p: Seq<Chord>, m: int) -> int
    decreases s.len() - m,
{
    if 0 <= m < s.len() && begins_with(s, m, p) {
        prefix_run_end(s, p, m + 1)
    } else {
        m
    }
}

/// The end of the run of shortcuts after `k` that begin with the first `d`
/// chords of `k`'s hotkey.
pub open spec fn block_end(s: Seq<Shortcut>, k: int, d: int) -> int {
    prefix_run_end(s, chords_of(s[k]).take(d), k + 1)
}

/// The shortcut at `k` has `t[k].0` chords handled, and shortcut `p` holds
/// all of these but the last: the handled chords are where `k` parts from
/// `p`.  Its container is the run of shortcuts that begin with them.
pub open spec fn parted_from(s: Seq<Shortcut>, t: Seq<(usize, usize)>, p: int, k: int) -> bool {
    &&& 1 <= t[k].0 <= chords_of(s[k]).len()
    &&& begins_with(s, p, chords_of(s[k]).take(t[k].0 - 1))
    &&& !begins_with(s, p, chords_of(s[k]).take(t[k].0 as int))
    &&& t[k].1 as int == block_end(s, k, t[k].0 as int)
}

/// The visit record when the outer walk reaches shortcut `i`.
pub open spec fn settled(s: Seq<Shortcut>, t: Seq<(usize, usize)>, i: int) -> bool {
    &&& t.len() == s.len()
    &&& forall|k: int|
        i <= k < s.len() ==> if i == 0 {
            (#[trigger] t[k]).0 == 0 && t[k].1 == s.len()
        } else {
            parted_from(s, t, i - 1, k)
        }
}

/// The visit record while shortcut `i` is followed, at chord position `j`.
pub open spec fn round_state(s: Seq<Shortcut>, t: Seq<(usize, usize)>, i: int, j: int) -> bool {
    &&& t.len() == s.len()
    &&& t[i].0 == j
    &&& t[i].1 as int == block_end(s, i, j)
    &&& forall|k: int|
        i < k < s.len() ==> if begins_with(s, k, chords_of(s[i]).take(j)) {
            (#[trigger] t[k]).0 == j && t[k].1 as int == block_end(s, k, j)
        } else {
            parted_from(s, t, i, k)
        }
}

proof fn lemma_prefix_run_end(s: Seq<Shortcut>, p: Seq<Chord>, m: int)
    requires
        0 <= m <= s.len(),
    ensures
        m <= prefix_run_end(s, p, m) <= s.len(),
        forall|x: int| m <= x < prefix_run_end(s, p, m) ==> #[trigger] begins_with(s, x, p),
        prefix_run_end(s, p, m) < s.len() ==> !begins_with(s, prefix_run_end(s, p, m), p),
    decreases s.len() - m,
{
    if 0 <= m < s.len() && begins_with(s, m, p) {
        lemma_prefix_run_end(s, p, m + 1);
    }
}

/// Starting later inside a run ends it at the same place.
proof fn lemma_prefix_run_shift(s: Seq<Shortcut>, p: Seq<Chord>, a: int, b: int)
    requires
        0 <= a <= b <= prefix_run_end(s, p, a),
        a <= s.len(),
    ensures
        prefix_run_end(s, p, a) == prefix_run_end(s, p, b),
    decreases b - a,
{
    lemma_prefix_run_end(s, p, a);
    if a < b {
        assert(begins_with(s, a, p));
        lemma_prefix_run_shift(s, p, a + 1, b);
    }
}

/// The run from `i` is everything after `i` that begins with `p`.
proof fn lemma_block_extent(s: Seq<Shortcut>, i: int, p: Seq<Chord>)
    requires
        grouped(s),
        0 <= i < s.len(),
        begins_with(s, i, p),
    ensures
        forall|m: int| i < m < s.len() ==> (#[trigger] begins_with(s, m, p) <==> m < prefix_run_end(s, p, i + 1)),
{
    let e = prefix_run_end(s, p, i + 1);
    lemma_prefix_run_end(s, p, i + 1);
    assert forall|m: int| i < m < s.len() implies (#[trigger] begins_with(s, m, p) <==> m < e) by {
        if m > e && begins_with(s, m, p) {
            assert(begins_with(s, i, p) && begins_with(s, e, p) && begins_with(s, m, p) ==> true);
            assert(begins_with(s, e, p));
        }
    }
}

/// A prefix of a prefix.
proof fn lemma_take_prefix(c: Seq<Chord>, h: Seq<Chord>, d1: int, d2: int)
    requires
        0 <= d1 <= d2 <= c.len(),
        is_prefix(c.take(d2), h),
    ensures
        is_prefix(c.take(d1), h),
{
    assert(h.take(d1) =~= c.take(d2).take(d1));
    assert(c.take(d2).take(d1) =~= c.take(d1));
}

/// The groups of a container that is a whole run of shortcuts beginning
/// with the first `j` chords of `i` are runs one chord longer.
proof fn lemma_run_end_is_block(s: Seq<Shortcut>, i: int, j: int, lo: int, k: int)
    requires
        grouped(s),
        0 <= i <= lo < k <= prefix_run_end(s, chords_of(s[i]).take(j), i + 1),
        0 <= j < chords_of(s[lo]).len(),
        j <= chords_of(s[i]).len(),
        i < s.len(),
        begins_with(s, lo, chords_of(s[i]).take(j)),
    ensures
        run_end(s, lo, k, prefix_run_end(s, chords_of(s[i]).take(j), i + 1), j) == prefix_run_end(
            s,
            chords_of(s[lo]).take(j + 1),
            k,
        ),
    decreases prefix_run_end(s, chords_of(s[i]).take(j), i + 1) - k,
{
    let p = chords_of(s[i]).take(j);
    let hi = prefix_run_end(s, p, i + 1);
    let q = chords_of(s[lo]).take(j + 1);
    lemma_prefix_run_end(s, p, i + 1);
    assert(chords_of(s[lo]).take(j) =~= p);
    assert(q.take(j) =~= p);
    if k < hi {
        assert(begins_with(s, k, p));
        let ck = chords_of(s[k]);
        assert(ck.take(j) =~= p);
        if shares_chord(s, lo, k, j) {
            assert(ck.take(j + 1) =~= q);
        } else {
            if begins_with(s, k, q) {
                assert(ck[j] == ck.take(j + 1)[j]);
                assert(q[j] == chords_of(s[lo])[j]);
            }
        }
        lemma_run_end_is_block(s, i, j, lo, k + 1);
    } else {
        if k < s.len() && begins_with(s, k, q) {
            assert(q.take(j + 1) =~= q);
            lemma_take_prefix(q, chords_of(s[k]), j, j + 1);
        }
    }
}

/// Inside a whole run (the container of `i` at chord `j`), the group that
/// holds `m` ends where the run of `m`'s first `j + 1` chords ends.
proof fn lemma_member_end_block(s: Seq<Shortcut>, i: int, j: int, lo: int, m: int)
    requires
        grouped(s),
        prefix_free(s),
        0 <= i < s.len(),
        0 <= j < chords_of(s[i]).len(),
        i <= lo <= m < prefix_run_end(s, chords_of(s[i]).take(j), i + 1),
        forall|x: int| lo <= x < prefix_run_end(s, chords_of(s[i]).take(j), i + 1) ==> #[trigger] begins_with(s, x, chords_of(s[i]).take(j)),
    ensures
        member_end(s, lo, prefix_run_end(s, chords_of(s[i]).take(j), i + 1), j, m) == block_end(s, m, j + 1),
    decreases prefix_run_end(s, chords_of(s[i]).take(j), i + 1) - lo,
{
    let p = chords_of(s[i]).take(j);
    let hi = prefix_run_end(s, p, i + 1);
    lemma_prefix_run_end(s, p, i + 1);
    assert(begins_with(s, lo, p));
    if chords_of(s[lo]).len() <= j {
        assert(chords_of(s[lo]) =~= p);
        assert(lo != i);
        assert(is_prefix(chords_of(s[lo]), chords_of(s[i])));
        assert(false);
    }
    assert(opens_group(s, lo, hi, j));
    let e = group_end(s, lo, hi, j);
    lemma_run_end(s, lo, lo + 1, hi, j);
    lemma_run_end_is_block(s, i, j, lo, lo + 1);
    let q = chords_of(s[lo]).take(j + 1);
    assert(e == prefix_run_end(s, q, lo + 1));
    lemma_prefix_run_end(s, q, lo + 1);
    if m < e {
        if m > lo {
            assert(begins_with(s, m, q));
            assert(chords_of(s[m]).take(j + 1) =~= q);
        }
        lemma_prefix_run_shift(s, q, lo + 1, m + 1);
        assert(block_end(s, m, j + 1) == prefix_run_end(s, q, m + 1));
    } else {
        lemma_member_end_block(s, i, j, e, m);
    }
}

/// A hotkey begins with each of its prefixes.
proof fn lemma_begins_with_own(s: Seq<Shortcut>, k: int, d: int)
    requires
        0 <= d <= chords_of(s[k]).len(),
    ensures
        begins_with(s, k, chords_of(s[k]).take(d)),
{
    assert(chords_of(s[k]).take(d).len() == d);
    assert(chords_of(s[k]).take(d) =~= chords_of(s[k]).take(d));
}

/// One split of the container of `i` at chord `j` moves every shortcut of
/// the container one chord deeper, into the run of its first `j + 1`
/// chords, and leaves the others as they were.
proof fn lemma_refined_block(s: Seq<Shortcut>, t: Seq<(usize, usize)>, i: int, j: int)
    requires
        grouped(s),
        prefix_free(s),
        s.len() <= usize::MAX,
        0 <= i < s.len(),
        0 <= j < chords_of(s[i]).len(),
        round_state(s, t, i, j),
    ensures
        forall|m: int|
            0 <= m < s.len() ==> #[trigger] refined(s, t, i, j)[m] == (if i <= m < block_end(s, i, j) {
                ((j + 1) as usize, block_end(s, m, j + 1) as usize)
            } else {
                t[m]
            }),
{
    let p = chords_of(s[i]).take(j);
    let hi = block_end(s, i, j);
    lemma_prefix_run_end(s, p, i + 1);
    lemma_begins_with_own(s, i, j);
    assert forall|m: int| 0 <= m < s.len() implies #[trigger] refined(s, t, i, j)[m] == (if i <= m < hi {
        ((j + 1) as usize, block_end(s, m, j + 1) as usize)
    } else {
        t[m]
    }) by {
        if i <= m < hi {
            lemma_member_end_block(s, i, j, i, m);
            lemma_prefix_run_end(s, chords_of(s[m]).take(j + 1), m + 1);
        } else if m >= hi {
            crate::keyspace::lemma_member_end_bounds(s, i, hi, j, m);
        }
    }
}

/// A step of the walk along shortcut `i`'s chords keeps the visit record in
/// order.
proof fn lemma_round_step(s: Seq<Shortcut>, t: Seq<(usize, usize)>, i: int, j: int)
    requires
        grouped(s),
        prefix_free(s),
        s.len() <= usize::MAX,
        0 <= i < s.len(),
        0 <= j < chords_of(s[i]).len(),
        round_state(s, t, i, j),
    ensures
        round_state(s, refined(s, t, i, j), i, j + 1),
{
    let t2 = refined(s, t, i, j);
    let hi = block_end(s, i, j);
    let p = chords_of(s[i]).take(j);
    let p2 = chords_of(s[i]).take(j + 1);
    lemma_refined_block(s, t, i, j);
    lemma_prefix_run_end(s, p, i + 1);
    lemma_begins_with_own(s, i, j);
    lemma_begins_with_own(s, i, j + 1);
    lemma_block_extent(s, i, p);
    crate::keyspace_laws::lemma_hotkey_len(s[i]);
    assert(t2[i] == ((j + 1) as usize, block_end(s, i, j + 1) as usize));
    lemma_prefix_run_end(s, chords_of(s[i]).take(j + 1), i + 1);
    assert forall|k: int| i < k < s.len() implies if begins_with(s, k, p2) {
        (#[trigger] t2[k]).0 == j + 1 && t2[k].1 as int == block_end(s, k, j + 1)
    } else {
        parted_from(s, t2, i, k)
    } by {
        assert(t2[k] == t2[k]);
        crate::keyspace_laws::lemma_hotkey_len(s[k]);
        lemma_prefix_run_end(s, chords_of(s[k]).take(j + 1), k + 1);
        if begins_with(s, k, p2) {
            assert(p2.take(j) =~= p);
            assert(p2.take(j + 1) =~= p2);
            lemma_take_prefix(p2, chords_of(s[k]), j, j + 1);
            assert(begins_with(s, k, p));
        } else if begins_with(s, k, p) {
            let ck = chords_of(s[k]);
            assert(ck.take(j) =~= p);
            if ck.len() <= j {
                assert(ck =~= p);
                assert(is_prefix(ck, chords_of(s[i])));
                assert(false);
            }
            assert(begins_with(s, i, ck.take(j)));
            if begins_with(s, i, ck.take(j + 1)) {
                assert(ck.take(j + 1) =~= p2);
                assert(false);
            }
            assert(parted_from(s, t2, i, k));
        } else {
            assert(t[k] == t[k]);
            assert(parted_from(s, t, i, k));
        }
    }
}

/// When the outer walk reaches `i`, the visit record is in order for the
/// walk along `i`'s chords from the first one not handled.
proof fn lemma_round_start(s: Seq<Shortcut>, t: Seq<(usize, usize)>, i: int)
    requires
        grouped(s),
        prefix_free(s),
        s.len() <= usize::MAX,
        0 <= i < s.len(),
        settled(s, t, i),
    ensures
        round_state(s, t, i, t[i].0 as int),
{
    let d = t[i].0 as int;
    assert(t[i] == t[i]);
    if i == 0 {
        let e0 = Seq::<Chord>::empty();
        assert forall|k: int| 0 <= k < s.len() implies block_end(s, k, 0) == s.len() by {
            assert(chords_of(s[k]).take(0) =~= e0);
            lemma_prefix_run_end(s, e0, k + 1);
            if prefix_run_end(s, e0, k + 1) < s.len() {
                assert(e0 =~= chords_of(s[prefix_run_end(s, e0, k + 1)]).take(0));
            }
        }
        assert forall|k: int| i < k < s.len() implies if begins_with(s, k, chords_of(s[i]).take(0)) {
            (#[trigger] t[k]).0 == 0 && t[k].1 as int == block_end(s, k, 0)
        } else {
            parted_from(s, t, i, k)
        } by {
            assert(t[k] == t[k]);
            assert(chords_of(s[i]).take(0) =~= chords_of(s[k]).take(0));
            lemma_begins_with_own(s, k, 0);
        }
    } else {
        let hi = chords_of(s[i]);
        assert(parted_from(s, t, i - 1, i));
        assert forall|k: int| i < k < s.len() implies if begins_with(s, k, hi.take(d)) {
            (#[trigger] t[k]).0 == d && t[k].1 as int == block_end(s, k, d)
        } else {
            parted_from(s, t, i, k)
        } by {
            assert(t[k] == t[k]);
            assert(parted_from(s, t, i - 1, k));
            let ck = chords_of(s[k]);
            let dk = t[k].0 as int;
            if begins_with(s, k, hi.take(d)) {
                assert(ck.take(d) =~= hi.take(d));
                if dk < d {
                    assert(ck.take(d - 1) =~= hi.take(d - 1));
                    lemma_take_prefix(ck, chords_of(s[i - 1]), dk, d - 1);
                    assert(false);
                }
                if dk > d {
                    lemma_take_prefix(ck, chords_of(s[i - 1]), d, dk - 1);
                    assert(false);
                }
            } else {
                lemma_begins_with_own(s, k, dk - 1);
                assert(begins_with(s, i - 1, ck.take(dk - 1)) && begins_with(s, i, ck.take(dk - 1))
                    && begins_with(s, k, ck.take(dk - 1)) ==> true);
                assert(begins_with(s, i, ck.take(dk - 1)));
                if begins_with(s, i, ck.take(dk)) {
                    if dk >= d {
                        assert(hi.take(dk) =~= ck.take(dk));
                        lemma_take_prefix(ck, hi, d, dk);
                        assert(ck.take(d) =~= hi.take(d));
                        lemma_begins_with_own(s, k, d);
                        assert(false);
                    } else {
                        assert(hi.take(dk) =~= ck.take(dk));
                        lemma_take_prefix(hi, chords_of(s[i - 1]), dk, d - 1);
                        assert(false);
                    }
                }
            }
        }
    }
}

/// The walk along shortcut `i`'s chords, from position `j` on, leaves the
/// visit record in order for the next shortcut.
proof fn lemma_round(s: Seq<Shortcut>, t: Seq<(usize, usize)>, i: int, j: int)
    requires
        grouped(s),
        prefix_free(s),
        s.len() <= usize::MAX,
        0 <= i < s.len(),
        0 <= j <= chords_of(s[i]).len(),
        round_state(s, t, i, j),
    ensures
        settled(s, steps_j(s, t, i, j, chords_of(s[i]).len() as int).1, i + 1),
    decreases chords_of(s[i]).len() - j,
{
    let stop = chords_of(s[i]).len() as int;
    if j < stop {
        lemma_round_step(s, t, i, j);
        lemma_round(s, refined(s, t, i, j), i, j + 1);
    } else {
        assert forall|k: int| i + 1 <= k < s.len() implies parted_from(s, t, i, k) by {
            assert(t[k] == t[k]);
            if begins_with(s, k, chords_of(s[i]).take(j)) {
                assert(chords_of(s[i]).take(j) =~= chords_of(s[i]));
                assert(false);
            }
        }
    }
}

/// The titles of the keyspaces made along shortcut `i`'s chords are its
/// prefixes, from `j` chords on.
proof fn lemma_steps_j_titles(s: Seq<Shortcut>, t: Seq<(usize, usize)>, i: int, j: int, stop: int)
    ensures
        steps_j(s, t, i, j, stop).0.len() == (if j < stop {
            stop - j
        } else {
            0
        }),
        forall|x: int|
            0 <= x < steps_j(s, t, i, j, stop).0.len() ==> (#[trigger] steps_j(s, t, i, j, stop).0[x]).title
                == chords_of(s[i]).take(j + x),
    decreases stop - j,
{
    if j < stop {
        let t2 = refined(s, t, i, j);
        lemma_steps_j_titles(s, t2, i, j + 1, stop);
        let rest = steps_j(s, t2, i, j + 1, stop);
        assert forall|x: int| 0 <= x < steps_j(s, t, i, j, stop).0.len() implies (
        #[trigger] steps_j(s, t, i, j, stop).0[x]).title == chords_of(s[i]).take(j + x) by {
            if x > 0 {
                assert(steps_j(s, t, i, j, stop).0[x] == rest.0[x - 1]);
            }
        }
    }
}

/// No shortcut before `i` begins with `p`.
pub open spec fn unused_before(s: Seq<Shortcut>, p: Seq<Chord>, i: int) -> bool {
    forall|m: int| 0 <= m < i ==> !#[trigger] begins_with(s, m, p)
}

proof fn lemma_steps_i_distinct(s: Seq<Shortcut>, t: Seq<(usize, usize)>, i: int)
    requires
        grouped(s),
        prefix_free(s),
        s.len() <= usize::MAX,
        forall|k: int| 0 <= k < s.len() ==> chords_of(#[trigger] s[k]).len() > 0,
        0 <= i <= s.len(),
        settled(s, t, i),
    ensures
        forall|x: int, y: int|
            0 <= x < y < steps_i(s, t, i).len() ==> (#[trigger] steps_i(s, t, i)[x]).title != (
            #[trigger] steps_i(s, t, i)[y]).title,
        forall|x: int| 0 <= x < steps_i(s, t, i).len() ==> unused_before(s, (#[trigger] steps_i(s, t, i)[x]).title, i),
    decreases s.len() - i,
{
    if i < s.len() {
        let d = t[i].0 as int;
        let stop = chords_of(s[i]).len() as int;
        assert(t[i] == t[i]);
        lemma_round_start(s, t, i);
        lemma_round(s, t, i, d);
        let r = steps_j(s, t, i, d, stop);
        lemma_steps_i_distinct(s, r.1, i + 1);
        lemma_steps_j_titles(s, t, i, d, stop);
        let rest = steps_i(s, r.1, i + 1);
        let v = steps_i(s, t, i);
        assert(v == r.0 + rest);
        // each title of this walk is begun by `i` and by nothing before it
        assert forall|x: int| 0 <= x < r.0.len() implies begins_with(s, i, #[trigger] r.0[x].title) && unused_before(
            s,
            r.0[x].title,
            i,
        ) by {
            let c = chords_of(s[i]);
            let p = r.0[x].title;
            lemma_begins_with_own(s, i, d + x);
            if i > 0 {
                assert(parted_from(s, t, i - 1, i));
                if begins_with(s, i - 1, p) {
                    lemma_take_prefix(c, chords_of(s[i - 1]), d, d + x);
                    assert(false);
                }
                assert forall|m: int| 0 <= m < i implies !#[trigger] begins_with(s, m, p) by {
                    if m < i - 1 && begins_with(s, m, p) {
                        assert(begins_with(s, m, p) && begins_with(s, i - 1, p) && begins_with(s, i, p) ==> true);
                    }
                }
            }
        }
        assert forall|x: int| 0 <= x < v.len() implies unused_before(s, (#[trigger] v[x]).title, i) by {
            if x < r.0.len() {
                assert(v[x] == r.0[x]);
            } else {
                assert(v[x] == rest[x - r.0.len()]);
                assert(unused_before(s, rest[x - r.0.len()].title, i + 1));
            }
        }
        assert forall|x: int, y: int| 0 <= x < y < v.len() implies (#[trigger] v[x]).title != (#[trigger] v[y]).title by {
            if y < r.0.len() {
                assert(v[x] == r.0[x]);
                assert(v[y] == r.0[y]);
                assert(r.0[x].title.len() != r.0[y].title.len());
            } else if x >= r.0.len() {
                assert(v[x] == rest[x - r.0.len()]);
                assert(v[y] == rest[y - r.0.len()]);
            } else {
                assert(v[x] == r.0[x]);
                assert(v[y] == rest[y - r.0.len()]);
                let q = rest[y - r.0.len()].title;
                assert(unused_before(s, q, i + 1));
                if r.0[x].title == q {
                    assert(begins_with(s, i, q));
                    assert(false);
                }
            }
        }
    }
}

/// Law: in a list whose hotkeys are not empty, none of which is a prefix of
/// another, and whose hotkeys that begin alike stand together (a sorted
/// list), no two keyspaces have the same title: each state is made once.
pub proof fn law_titles_distinct(s: Seq<Shortcut>)
    requires
        s.len() <= usize::MAX,
        prefix_free(s),
        grouped(s),
        forall|k: int| 0 <= k < s.len() ==> chords_of(#[trigger] s[k]).len() > 0,
    ensures
        forall|x: int, y: int|
            0 <= x < y < keyspaces_of(s).len() ==> (#[trigger] keyspaces_of(s)[x]).title != (
            #[trigger] keyspaces_of(s)[y]).title,
{
    let t = init_tracker(s.len());
    assert forall|k: int| 0 <= k < s.len() implies (#[trigger] t[k]).0 == 0 && t[k].1 == s.len() by {}
    lemma_steps_i_distinct(s, t, 0);
}

/// Inside the container of `i` at chord `j`, the groups from `lo` on hold
/// different chords at position `j`, and none of these chords, after the
/// first `j` chords of `i`, begins a hotkey between `i` and `lo`.
proof fn lemma_entries_chords(s: Seq<Shortcut>, i: int, j: int, lo: int)
    requires
        grouped(s),
        prefix_free(s),
        0 <= i < s.len(),
        0 <= j < chords_of(s[i]).len(),
        i <= lo <= block_end(s, i, j),
        lo < block_end(s, i, j) && lo > i ==> !begins_with(
            s,
            lo - 1,
            chords_of(s[i]).take(j).push(chords_of(s[lo])[j]),
        ),
    ensures
        forall|x: int, y: int|
            0 <= x < y < entries(s, lo, block_end(s, i, j), j).len() ==> (#[trigger] entries(
                s,
                lo,
                block_end(s, i, j),
                j,
            )[x]).0 != (#[trigger] entries(s, lo, block_end(s, i, j), j)[y]).0,
        forall|x: int, m: int|
            0 <= x < entries(s, lo, block_end(s, i, j), j).len() && i <= m < lo ==> !#[trigger] begins_with(
                s,
                m,
                chords_of(s[i]).take(j).push(entries(s, lo, block_end(s, i, j), j)[x].0),
            ),
    decreases block_end(s, i, j) - lo,
{
    let p = chords_of(s[i]).take(j);
    let hi = block_end(s, i, j);
    lemma_prefix_run_end(s, p, i + 1);
    lemma_begins_with_own(s, i, j);
    if lo < hi {
        assert(begins_with(s, lo, p));
        let cl = chords_of(s[lo]);
        if cl.len() <= j {
            assert(cl =~= p);
            assert(is_prefix(cl, chords_of(s[i])));
            assert(false);
        }
        assert(opens_group(s, lo, hi, j));
        let e = group_end(s, lo, hi, j);
        lemma_run_end(s, lo, lo + 1, hi, j);
        lemma_run_end_is_block(s, i, j, lo, lo + 1);
        let q = cl.take(j + 1);
        assert(cl.take(j) =~= p);
        assert(q =~= p.push(cl[j]));
        lemma_prefix_run_end(s, q, lo + 1);
        assert(e == prefix_run_end(s, q, lo + 1));
        lemma_begins_with_own(s, lo, j + 1);
        if e < hi && e > i {
            let ce = chords_of(s[e]);
            if begins_with(s, e - 1, p.push(ce[j])) {
                if e - 1 > lo {
                    assert(begins_with(s, e - 1, q));
                }
                let c1 = chords_of(s[e - 1]);
                assert(begins_with(s, e - 1, q));
                assert(c1.take(j + 1) == q);
                assert(c1.take(j + 1) == p.push(ce[j]));
                assert(p.push(ce[j])[j] == ce[j]);
                assert(q[j] == cl[j]);
                assert(c1.take(j + 1)[j] == c1[j]);
                assert(ce[j] == cl[j]);
                assert(begins_with(s, e, p));
                assert(ce.take(j) =~= p);
                if ce.len() <= j {
                    assert(ce =~= p);
                    assert(is_prefix(ce, chords_of(s[i])));
                    assert(false);
                }
                assert(ce.take(j + 1) =~= q);
                assert(false);
            }
        }
        lemma_entries_chords(s, i, j, e);
        let head = partition_entry(s.subrange(lo, e), j);
        let rest = entries(s, e, hi, j);
        let all = entries(s, lo, hi, j);
        assert(all == seq![head] + rest);
        assert(s.subrange(lo, e)[0] == s[lo]);
        assert(head.0 == cl[j]);
        lemma_begins_with_own(s, lo, j + 1);
        assert forall|x: int, m: int| 0 <= x < all.len() && i <= m < lo implies !#[trigger] begins_with(
            s,
            m,
            p.push(all[x].0),
        ) by {
            if x == 0 {
                if begins_with(s, m, q) {
                    if m < lo - 1 {
                        assert(begins_with(s, m, q) && begins_with(s, lo - 1, q) && begins_with(s, lo, q) ==> true);
                    }
                    assert(false);
                }
            } else {
                assert(all[x] == rest[x - 1]);
            }
        }
        assert forall|x: int, y: int| 0 <= x < y < all.len() implies (#[trigger] all[x]).0 != (#[trigger] all[y]).0 by {
            if x == 0 {
                assert(all[y] == rest[y - 1]);
                if rest[y - 1].0 == cl[j] {
                    assert(!begins_with(s, lo, p.push(rest[y - 1].0)));
                    assert(false);
                }
            } else {
                assert(all[x] == rest[x - 1]);
                assert(all[y] == rest[y - 1]);
            }
        }
    }
}

/// The keyspaces made along shortcut `i`'s chords each map a chord to one
/// entry at most.
proof fn lemma_steps_j_chords(s: Seq<Shortcut>, t: Seq<(usize, usize)>, i: int, j: int)
    requires
        grouped(s),
        prefix_free(s),
        s.len() <= usize::MAX,
        0 <= i < s.len(),
        0 <= j <= chords_of(s[i]).len(),
        round_state(s, t, i, j),
    ensures
        forall|z: int, x: int, y: int|
            0 <= z < steps_j(s, t, i, j, chords_of(s[i]).len() as int).0.len() && 0 <= x < y < steps_j(
                s,
                t,
                i,
                j,
                chords_of(s[i]).len() as int,
            ).0[z].list.len() ==> (#[trigger] steps_j(s, t, i, j, chords_of(s[i]).len() as int).0[z].list[x]).0
                != (#[trigger] steps_j(s, t, i, j, chords_of(s[i]).len() as int).0[z].list[y]).0,
    decreases chords_of(s[i]).len() - j,
{
    let stop = chords_of(s[i]).len() as int;
    if j < stop {
        lemma_round_step(s, t, i, j);
        let t2 = refined(s, t, i, j);
        lemma_steps_j_chords(s, t2, i, j + 1);
        lemma_entries_chords(s, i, j, i);
        let sv = space_view(s, t, i, j);
        assert(sv.list == entries(s, i, block_end(s, i, j), j));
        let rest = steps_j(s, t2, i, j + 1, stop);
        let all = steps_j(s, t, i, j, stop).0;
        assert(all == seq![sv] + rest.0);
        assert forall|z: int, x: int, y: int|
            0 <= z < all.len() && 0 <= x < y < all[z].list.len() implies (#[trigger] all[z].list[x]).0 != (
            #[trigger] all[z].list[y]).0 by {
            if z > 0 {
                assert(all[z] == rest.0[z - 1]);
                assert(all[z].list[x] == rest.0[z - 1].list[x]);
                assert(all[z].list[y] == rest.0[z - 1].list[y]);
            } else {
                let en = entries(s, i, block_end(s, i, j), j);
                assert(all[z].list[x] == en[x]);
                assert(all[z].list[y] == en[y]);
            }
        }
        assert(forall|z: int, x: int, y: int|
            0 <= z < steps_j(s, t, i, j, stop).0.len() && 0 <= x < y < steps_j(s, t, i, j, stop).0[z].list.len() ==> (
            #[trigger] steps_j(s, t, i, j, stop).0[z].list[x]).0 != (#[trigger] steps_j(
                s,
                t,
                i,
                j,
                stop,
            ).0[z].list[y]).0);
    } else {
        assert(steps_j(s, t, i, j, stop).0.len() == 0);
    }
}

proof fn lemma_steps_i_chords(s: Seq<Shortcut>, t: Seq<(usize, usize)>, i: int)
    requires
        grouped(s),
        prefix_free(s),
        s.len() <= usize::MAX,
        0 <= i <= s.len(),
        settled(s, t, i),
        forall|k: int| 0 <= k < s.len() ==> chords_of(#[trigger] s[k]).len() > 0,
    ensures
        forall|z: int, x: int, y: int|
            0 <= z < steps_i(s, t, i).len() && 0 <= x < y < steps_i(s, t, i)[z].list.len() ==> (
            #[trigger] steps_i(s, t, i)[z].list[x]).0 != (#[trigger] steps_i(s, t, i)[z].list[y]).0,
    decreases s.len() - i,
{
    if i < s.len() {
        let d = t[i].0 as int;
        let stop = chords_of(s[i]).len() as int;
        assert(t[i] == t[i]);
        lemma_round_start(s, t, i);
        lemma_round(s, t, i, d);
        lemma_steps_j_chords(s, t, i, d);
        let r = steps_j(s, t, i, d, stop);
        lemma_steps_i_chords(s, r.1, i + 1);
        let rest = steps_i(s, r.1, i + 1);
        let all = steps_i(s, t, i);
        assert(all == r.0 + rest);
        assert forall|z: int, x: int, y: int|
            0 <= z < all.len() && 0 <= x < y < all[z].list.len() implies (#[trigger] all[z].list[x]).0 != (
            #[trigger] all[z].list[y]).0 by {
            if z < r.0.len() {
                assert(all[z] == r.0[z]);
                assert(all[z].list[x] == r.0[z].list[x]);
                assert(all[z].list[y] == r.0[z].list[y]);
            } else {
                assert(all[z] == rest[z - r.0.len()]);
                assert(all[z].list[x] == rest[z - r.0.len()].list[x]);
                assert(all[z].list[y] == rest[z - r.0.len()].list[y]);
            }
        }
    }
}

/// Law: in a list whose hotkeys are not empty, none of which is a prefix of
/// another, and whose hotkeys that begin alike stand together (a sorted
/// list), no keyspace holds two entries for the same chord: inside a state,
/// a chord does one thing.
pub proof fn law_chords_distinct(s: Seq<Shortcut>)
    requires
        s.len() <= usize::MAX,
        prefix_free(s),
        grouped(s),
        forall|k: int| 0 <= k < s.len() ==> chords_of(#[trigger] s[k]).len() > 0,
    ensures
        forall|z: int, x: int, y: int|
            0 <= z < keyspaces_of(s).len() && 0 <= x < y < keyspaces_of(s)[z].list.len() ==> (
            #[trigger] keyspaces_of(s)[z].list[x]).0 != (#[trigger] keyspaces_of(s)[z].list[y]).0,
{
    let t = init_tracker(s.len());
    assert forall|k: int| 0 <= k < s.len() implies (#[trigger] t[k]).0 == 0 && t[k].1 == s.len() by {}
    lemma_steps_i_chords(s, t, 0);
}

/// Some keyspace of `v` is titled `p`.
pub open spec fn has_title(v: Seq<KeyspaceView>, p: Seq<Chord>) -> bool {
    exists|x: int| #![trigger v[x]] 0 <= x < v.len() && v[x].title == p
}

/// Some entry of `list` is for chord `c`.
pub open spec fn has_chord(list: Seq<(Chord, ActionView)>, c: Chord) -> bool {
    exists|y: int| #![trigger list[y]] 0 <= y < list.len() && list[y].0 == c
}

/// `p` is a proper prefix of some hotkey of the list.
pub open spec fn is_state(s: Seq<Shortcut>, p: Seq<Chord>) -> bool {
    exists|a: int| #![trigger s[a]] 0 <= a < s.len() && p.len() < chords_of(s[a]).len() && chords_of(s[a]).take(p.len() as int) == p
}

/// Each state that an entry of `list` enters is a proper prefix of some
/// hotkey.
pub open spec fn states_open(s: Seq<Shortcut>, list: Seq<(Chord, ActionView)>) -> bool {
    forall|y: int|
        #![trigger list[y]]
        0 <= y < list.len() ==> match list[y].1 {
            ActionView::SetState(st) => is_state(s, st),
            ActionView::Action(_) => true,
        }
}

/// Every hotkey that goes on past the keyspace's title has an entry there
/// for its next chord.
pub open spec fn children_listed(s: Seq<Shortcut>, ks: KeyspaceView) -> bool {
    forall|k: int|
        #![trigger s[k]]
        0 <= k < s.len() && is_prefix(ks.title, chords_of(s[k])) && ks.title.len() < chords_of(s[k]).len()
            ==> has_chord(ks.list, chords_of(s[k])[ks.title.len() as int])
}

/// Inside the container of `i` at chord `j`, the groups from `lo` on have an
/// entry for the chord `j` of each shortcut from `lo` on, and the states
/// they enter are proper prefixes of hotkeys.
proof fn lemma_entries_closed(s: Seq<Shortcut>, i: int, j: int, lo: int)
    requires
        grouped(s),
        prefix_free(s),
        0 <= i < s.len(),
        0 <= j < chords_of(s[i]).len(),
        i <= lo <= block_end(s, i, j),
    ensures
        forall|k: int|
            lo <= k < block_end(s, i, j) ==> has_chord(entries(s, lo, block_end(s, i, j), j), chords_of(#[trigger] s[k])[j]),
        states_open(s, entries(s, lo, block_end(s, i, j), j)),
    decreases block_end(s, i, j) - lo,
{
    let p = chords_of(s[i]).take(j);
    let hi = block_end(s, i, j);
    lemma_prefix_run_end(s, p, i + 1);
    lemma_begins_with_own(s, i, j);
    let all = entries(s, lo, hi, j);
    if lo < hi {
        assert(begins_with(s, lo, p));
        let cl = chords_of(s[lo]);
        if cl.len() <= j {
            assert(cl =~= p);
            assert(is_prefix(cl, chords_of(s[i])));
            assert(false);
        }
        assert(opens_group(s, lo, hi, j));
        let e = group_end(s, lo, hi, j);
        lemma_run_end(s, lo, lo + 1, hi, j);
        lemma_entries_closed(s, i, j, e);
        let head = partition_entry(s.subrange(lo, e), j);
        let rest = entries(s, e, hi, j);
        assert(all == seq![head] + rest);
        assert(s.subrange(lo, e)[0] == s[lo]);
        assert(head.0 == cl[j]);
        assert forall|k: int| lo <= k < hi implies has_chord(all, chords_of(#[trigger] s[k])[j]) by {
            if k < e {
                if k > lo {
                    assert(shares_chord(s, lo, k, j));
                }
                assert(all[0].0 == chords_of(s[k])[j]);
            } else {
                assert(has_chord(rest, chords_of(s[k])[j]));
                let y = choose|y: int| #![trigger rest[y]] 0 <= y < rest.len() && rest[y].0 == chords_of(s[k])[j];
                assert(all[y + 1] == rest[y]);
            }
        }
        assert forall|y: int| #![trigger all[y]] 0 <= y < all.len() implies match all[y].1 {
            ActionView::SetState(st) => is_state(s, st),
            ActionView::Action(_) => true,
        } by {
            if y == 0 {
                assert(all[0] == head);
                if e - lo >= 2 || j + 1 != cl.len() {
                    if cl.len() == j + 1 {
                        // a group of two: the second continues the whole first hotkey
                        assert(e - lo >= 2);
                        assert(shares_chord(s, lo, lo + 1, j));
                        let c1 = chords_of(s[lo + 1]);
                        assert(begins_with(s, lo + 1, p));
                        assert(c1.take(j) =~= p);
                        assert(cl.take(j) =~= p);
                        assert(c1.take(j + 1) =~= cl);
                        assert(is_prefix(cl, c1));
                        assert(false);
                    }
                    assert(cl.take(j + 1).len() == j + 1);
                    assert(chords_of(s[lo]).take(j + 1) == cl.take(j + 1));
                    assert(is_state(s, cl.take(j + 1)));
                }
            } else {
                assert(all[y] == rest[y - 1]);
            }
        }
    }
}

/// The keyspaces made along shortcut `i`'s chords from `j` on list every
/// next chord and enter only proper prefixes of hotkeys.
proof fn lemma_steps_j_closed(s: Seq<Shortcut>, t: Seq<(usize, usize)>, i: int, j: int)
    requires
        grouped(s),
        prefix_free(s),
        s.len() <= usize::MAX,
        0 <= i < s.len(),
        0 <= j <= chords_of(s[i]).len(),
        round_state(s, t, i, j),
        unused_before(s, chords_of(s[i]).take(j), i),
    ensures
        forall|z: int|
            0 <= z < steps_j(s, t, i, j, chords_of(s[i]).len() as int).0.len() ==> children_listed(
                s,
                #[trigger] steps_j(s, t, i, j, chords_of(s[i]).len() as int).0[z],
            ) && states_open(s, steps_j(s, t, i, j, chords_of(s[i]).len() as int).0[z].list),
    decreases chords_of(s[i]).len() - j,
{
    let stop = chords_of(s[i]).len() as int;
    if j < stop {
        let p = chords_of(s[i]).take(j);
        let hi = block_end(s, i, j);
        lemma_round_step(s, t, i, j);
        let t2 = refined(s, t, i, j);
        lemma_begins_with_own(s, i, j);
        lemma_begins_with_own(s, i, j + 1);
        assert forall|m: int| 0 <= m < i implies !#[trigger] begins_with(s, m, chords_of(s[i]).take(j + 1)) by {
            if begins_with(s, m, chords_of(s[i]).take(j + 1)) {
                lemma_take_prefix(chords_of(s[i]), chords_of(s[m]), j, j + 1);
                assert(begins_with(s, m, p));
            }
        }
        lemma_steps_j_closed(s, t2, i, j + 1);
        lemma_entries_closed(s, i, j, i);
        lemma_block_extent(s, i, p);
        let sv = space_view(s, t, i, j);
        assert(sv.list == entries(s, i, hi, j));
        assert(sv.title == p);
        assert forall|k: int|
            #![trigger s[k]]
            0 <= k < s.len() && is_prefix(sv.title, chords_of(s[k])) && sv.title.len() < chords_of(s[k]).len()
                implies has_chord(sv.list, chords_of(s[k])[sv.title.len() as int]) by {
            assert(begins_with(s, k, p));
            if k < i {
                assert(!begins_with(s, k, p));
            }
            if k > i {
                assert(k < prefix_run_end(s, p, i + 1));
            }
        }
        let rest = steps_j(s, t2, i, j + 1, stop);
        let all = steps_j(s, t, i, j, stop).0;
        assert(all == seq![sv] + rest.0);
        assert forall|z: int| 0 <= z < all.len() implies children_listed(s, #[trigger] all[z]) && states_open(
            s,
            all[z].list,
        ) by {
            if z > 0 {
                assert(all[z] == rest.0[z - 1]);
            }
        }
    } else {
        assert(steps_j(s, t, i, j, stop).0.len() == 0);
    }
}

proof fn lemma_steps_i_closed(s: Seq<Shortcut>, t: Seq<(usize, usize)>, i: int)
    requires
        grouped(s),
        prefix_free(s),
        s.len() <= usize::MAX,
        forall|k: int| 0 <= k < s.len() ==> chords_of(#[trigger] s[k]).len() > 0,
        0 <= i <= s.len(),
        settled(s, t, i),
    ensures
        forall|z: int|
            0 <= z < steps_i(s, t, i).len() ==> children_listed(s, #[trigger] steps_i(s, t, i)[z]) && states_open(
                s,
                steps_i(s, t, i)[z].list,
            ),
        forall|k: int, d: int|
            i <= k < s.len() && 0 <= d < chords_of(s[k]).len() && (k == 0 || !begins_with(
                s,
                k - 1,
                chords_of(s[k]).take(d),
            )) ==> has_title(steps_i(s, t, i), #[trigger] chords_of(s[k]).take(d)),
    decreases s.len() - i,
{
    if i < s.len() {
        let d0 = t[i].0 as int;
        let stop = chords_of(s[i]).len() as int;
        let c = chords_of(s[i]);
        assert(t[i] == t[i]);
        lemma_round_start(s, t, i);
        lemma_round(s, t, i, d0);
        lemma_begins_with_own(s, i, d0);
        if i > 0 {
            assert(parted_from(s, t, i - 1, i));
        }
        assert forall|m: int| 0 <= m < i implies !#[trigger] begins_with(s, m, c.take(d0)) by {
            if begins_with(s, m, c.take(d0)) && m < i - 1 {
                assert(begins_with(s, m, c.take(d0)) && begins_with(s, i - 1, c.take(d0)) && begins_with(
                    s,
                    i,
                    c.take(d0),
                ) ==> true);
            }
        }
        lemma_steps_j_closed(s, t, i, d0);
        lemma_steps_j_titles(s, t, i, d0, stop);
        let r = steps_j(s, t, i, d0, stop);
        lemma_steps_i_closed(s, r.1, i + 1);
        let rest = steps_i(s, r.1, i + 1);
        let v = steps_i(s, t, i);
        assert(v == r.0 + rest);
        assert forall|z: int| 0 <= z < v.len() implies children_listed(s, #[trigger] v[z]) && states_open(
            s,
            v[z].list,
        ) by {
            if z < r.0.len() {
                assert(v[z] == r.0[z]);
            } else {
                assert(v[z] == rest[z - r.0.len()]);
            }
        }
        assert forall|k: int, d: int|
            i <= k < s.len() && 0 <= d < chords_of(s[k]).len() && (k == 0 || !begins_with(
                s,
                k - 1,
                chords_of(s[k]).take(d),
            )) implies has_title(v, #[trigger] chords_of(s[k]).take(d)) by {
            if k == i {
                if i > 0 && d0 > d {
                    lemma_take_prefix(c, chords_of(s[i - 1]), d, d0 - 1);
                    assert(false);
                }
                assert(v[d - d0] == r.0[d - d0]);
                assert(r.0[d - d0].title == c.take(d0 + (d - d0)));
            } else {
                assert(has_title(rest, chords_of(s[k]).take(d)));
                let x = choose|x: int| #![trigger rest[x]] 0 <= x < rest.len() && rest[x].title == chords_of(s[k]).take(d);
                assert(v[r.0.len() + x] == rest[x]);
            }
        }
    }
}

/// The first shortcut, going back from `k`, of the run that begins with `p`.
pub open spec fn run_start(s: Seq<Shortcut>, p: Seq<Chord>, k: int) -> int
    decreases k,
{
    if k > 0 && begins_with(s, k - 1, p) {
        run_start(s, p, k - 1)
    } else {
        k
    }
}

proof fn lemma_run_start(s: Seq<Shortcut>, p: Seq<Chord>, k: int)
    requires
        0 <= k < s.len(),
        begins_with(s, k, p),
    ensures
        0 <= run_start(s, p, k) <= k,
        begins_with(s, run_start(s, p, k), p),
        run_start(s, p, k) > 0 ==> !begins_with(s, run_start(s, p, k) - 1, p),
    decreases k,
{
    if k > 0 && begins_with(s, k - 1, p) {
        lemma_run_start(s, p, k - 1);
    }
}

/// Law: for a list whose hotkeys are not empty, none of which is a prefix
/// of another, and whose hotkeys that begin alike stand together (a sorted
/// list), the keyspaces are the whole flattened tree of hotkey prefixes:
/// every proper prefix of a hotkey is the title of a keyspace; every state
/// that an entry enters is the title of a keyspace; and a keyspace lists an
/// entry for the next chord of every hotkey that goes on past its title.
pub proof fn law_tree_complete(s: Seq<Shortcut>)
    requires
        s.len() <= usize::MAX,
        prefix_free(s),
        grouped(s),
        forall|k: int| 0 <= k < s.len() ==> chords_of(#[trigger] s[k]).len() > 0,
    ensures
        forall|k: int, d: int|
            0 <= k < s.len() && 0 <= d < chords_of(s[k]).len() ==> has_title(
                keyspaces_of(s),
                #[trigger] chords_of(s[k]).take(d),
            ),
        forall|z: int, y: int|
            0 <= z < keyspaces_of(s).len() && 0 <= y < keyspaces_of(s)[z].list.len() ==> match (
            #[trigger] keyspaces_of(s)[z].list[y]).1 {
                ActionView::SetState(st) => has_title(keyspaces_of(s), st),
                ActionView::Action(_) => true,
            },
        forall|z: int| 0 <= z < keyspaces_of(s).len() ==> children_listed(s, #[trigger] keyspaces_of(s)[z]),
{
    let t = init_tracker(s.len());
    let v = keyspaces_of(s);
    assert forall|k: int| 0 <= k < s.len() implies (#[trigger] t[k]).0 == 0 && t[k].1 == s.len() by {}
    lemma_steps_i_closed(s, t, 0);
    assert forall|k: int, d: int| 0 <= k < s.len() && 0 <= d < chords_of(s[k]).len() implies has_title(
        v,
        #[trigger] chords_of(s[k]).take(d),
    ) by {
        let p = chords_of(s[k]).take(d);
        lemma_begins_with_own(s, k, d);
        lemma_run_start(s, p, k);
        let r = run_start(s, p, k);
        let cr = chords_of(s[r]);
        assert(cr.take(d) =~= p);
        if cr.len() <= d {
            assert(cr =~= p);
            assert(r != k);
            assert(is_prefix(cr, chords_of(s[k])));
            assert(false);
        }
        assert(has_title(v, cr.take(d)));
    }
    assert forall|z: int, y: int|
        0 <= z < v.len() && 0 <= y < v[z].list.len() implies match (#[trigger] v[z].list[y]).1 {
        ActionView::SetState(st) => has_title(v, st),
        ActionView::Action(_) => true,
    } by {
        assert(states_open(s, v[z].list));
        match v[z].list[y].1 {
            ActionView::SetState(st) => {
                assert(is_state(s, st));
                let a = choose|a: int|
                    #![trigger s[a]]
                    0 <= a < s.len() && st.len() < chords_of(s[a]).len() && chords_of(s[a]).take(st.len() as int) == st;
                assert(has_title(v, chords_of(s[a]).take(st.len() as int)));
            },
            ActionView::Action(_) => {},
        }
    }
}

} // verus!
