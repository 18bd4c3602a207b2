use chordscript::keyspace::{allocate_keyspaces, KeyspaceAction, SharedChordPartitioner, VisitedTracker};
use chordscript::structs::{Chord, Hotkey, Shortcut};

fn ch(key: usize) -> Chord {
    Chord { key, modifiers: 0 }
}

#[test]
fn tracker_starts_with_whole_list() {
    let (a, b) = (ch(12), ch(13));
    let h1 = [a, b];
    let h2 = [b];
    let c: Vec<String> = vec![];
    let list = [Shortcut { hotkey: Hotkey(&h1), action: &c }, Shortcut { hotkey: Hotkey(&h2), action: &c }];
    let t = VisitedTracker::new(&list);
    assert_eq!(t.tracker, vec![(0, 2), (0, 2)]);
    assert_eq!(t.unvisited_chord_indicies(0), 0..2);
    assert_eq!(t.unvisited_chord_indicies(1), 0..1);
}

#[test]
fn partitioner_groups_by_chord() {
    let (a, b, c) = (ch(12), ch(13), ch(14));
    let hs = [vec![a, b], vec![a, c], vec![b], vec![a], vec![c, c], vec![a, a]];
    let cmd: Vec<String> = vec![];
    let list: Vec<Shortcut> = hs.iter().map(|h| Shortcut { hotkey: Hotkey(h), action: &cmd }).collect();
    let mut p = SharedChordPartitioner { list: &list, start: 0, end: 6, chord_index: 0 };
    assert_eq!(p.next().map(|g| g.len()), Some(2));
    assert_eq!(p.start, 2);
    assert_eq!(p.next().map(|g| g.len()), Some(1));
    assert_eq!(p.next().map(|g| g.len()), Some(1));
    assert_eq!(p.next().map(|g| g.len()), Some(1));
    assert_eq!(p.next().map(|g| g.len()), Some(1));
    assert!(p.next().is_none());
    assert_eq!(p.start, 6);

    // a hotkey too short for the chord position ends the walk
    let mut q = SharedChordPartitioner { list: &list, start: 0, end: 6, chord_index: 1 };
    assert_eq!(q.next().map(|g| g.len()), Some(1));
    assert_eq!(q.next().map(|g| g.len()), Some(1));
    assert!(q.next().is_none());
    assert_eq!(q.start, 2);
}

#[test]
fn refining_records_group_ends() {
    let (a, b, c) = (ch(12), ch(13), ch(14));
    let hs = [vec![a, b], vec![a, c], vec![b], vec![c]];
    let cmd: Vec<String> = vec![];
    let list: Vec<Shortcut> = hs.iter().map(|h| Shortcut { hotkey: Hotkey(h), action: &cmd }).collect();
    let mut t = VisitedTracker::new(&list);
    let mut walk = t.refine_container_for_i_partitioning_by_chord_j(0, 0);
    assert_eq!(t.tracker, vec![(1, 2), (1, 2), (1, 3), (1, 4)]);
    assert_eq!((walk.start, walk.end, walk.chord_index), (0, 4, 0));
    assert_eq!(walk.next().map(|g| g.len()), Some(2));
    let walk2 = t.refine_container_for_i_partitioning_by_chord_j(0, 1);
    assert_eq!(t.tracker, vec![(2, 1), (2, 2), (1, 3), (1, 4)]);
    assert_eq!((walk2.start, walk2.end), (0, 2));
    assert_eq!(t.unvisited_chord_indicies(1), 2..2);
}

#[test]
fn pushing_entries() {
    let (a, b, c) = (ch(12), ch(13), ch(14));
    let h1 = [a, b];
    let h2 = [a, c];
    let cmd = vec!["run".to_string()];
    let list = vec![Shortcut { hotkey: Hotkey(&h1), action: &cmd }, Shortcut { hotkey: Hotkey(&h2), action: &cmd }];
    let mut spaces = allocate_keyspaces(&list);
    let ks = &mut spaces[0];
    let before = ks.entries().len();
    ks.push_shortcut(&list[0], 0);
    ks.push_shortcut(&list[0], 1);
    ks.push_partition(&list[0..2], 0);
    ks.push_partition(&list[1..2], 1);
    let e = ks.entries();
    assert_eq!(e.len(), before + 4);
    assert!(matches!(e[before], (x, KeyspaceAction::SetState(s)) if x == a && s == &[a][..]));
    assert!(matches!(e[before + 1], (x, KeyspaceAction::Action(r)) if x == b && r == &cmd[..]));
    assert!(matches!(e[before + 2], (x, KeyspaceAction::SetState(s)) if x == a && s == &[a][..]));
    assert!(matches!(e[before + 3], (x, KeyspaceAction::Action(r)) if x == c && r == &cmd[..]));
}

#[test]
fn walk_covers_the_container() {
    // Law: the groups, one after another, are the container up to where the
    // walk stops; it stops at the end exactly when every hotkey is long enough.
    let (a, b) = (ch(12), ch(13));
    let hs = [vec![a, b], vec![a, a], vec![b, b], vec![a], vec![b, a]];
    let cmd: Vec<String> = vec![];
    let list: Vec<Shortcut> = hs.iter().map(|h| Shortcut { hotkey: Hotkey(h), action: &cmd }).collect();
    for (j, expect_end) in [(0usize, 5usize), (1, 3), (2, 0)] {
        let mut p = SharedChordPartitioner { list: &list, start: 0, end: 5, chord_index: j };
        let mut seen: Vec<usize> = Vec::new();
        while let Some(g) = p.next() {
            assert!(!g.is_empty());
            for sc in g {
                seen.push(list.iter().position(|x| std::ptr::eq(x, sc)).unwrap());
            }
        }
        assert_eq!(p.start, expect_end);
        assert_eq!(seen, (0..expect_end).collect::<Vec<_>>());
        assert_eq!(expect_end == 5, hs.iter().all(|h| h.len() > j));
    }
}

#[test]
fn refining_twice_changes_nothing() {
    // Law: a second split of the same container by the same chord keeps the
    // record, and its walk yields only the first group of the first split.
    let (a, b, c) = (ch(12), ch(13), ch(14));
    let hs = [vec![a, b], vec![a, c], vec![a, c, b], vec![b], vec![c]];
    let cmd: Vec<String> = vec![];
    let list: Vec<Shortcut> = hs.iter().map(|h| Shortcut { hotkey: Hotkey(h), action: &cmd }).collect();
    let mut t = VisitedTracker::new(&list);
    let mut first = t.refine_container_for_i_partitioning_by_chord_j(0, 0);
    let first_group = first.next().unwrap().len();
    let after_one = t.tracker.clone();
    let mut second = t.refine_container_for_i_partitioning_by_chord_j(0, 0);
    assert_eq!(t.tracker, after_one);
    assert_eq!(second.next().map(|g| g.len()), Some(first_group));
    assert!(second.next().is_none());
    assert_eq!(first_group, 3);
}
