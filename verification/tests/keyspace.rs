use chordscript::keyspace::{allocate_keyspaces, Keyspace, KeyspaceAction, KeyspaceList};
use chordscript::structs::{Chord, Hotkey, Shortcut};

#[derive(Clone, Debug, PartialEq)]
enum Does {
    Enter(Vec<Chord>),
    Run(Vec<String>),
}

fn describe(list: &[Keyspace]) -> Vec<(Vec<Chord>, Vec<(Chord, Does)>)> {
    list.iter()
        .map(|ks| {
            let entries = ks
                .entries()
                .iter()
                .map(|(c, a)| {
                    let d = match a {
                        KeyspaceAction::SetState(s) => Does::Enter(s.to_vec()),
                        KeyspaceAction::Action(cmd) => Does::Run(cmd.to_vec()),
                    };
                    (*c, d)
                })
                .collect();
            (ks.title().to_vec(), entries)
        })
        .collect()
}

fn ch(key: usize, modifiers: u8) -> Chord {
    Chord { key, modifiers }
}

fn cmd(s: &str) -> Vec<String> {
    vec![s.to_string()]
}

#[test]
fn two_level_tree() {
    let (a, b, c, d) = (ch(12, 8), ch(13, 8), ch(14, 8), ch(15, 0));
    let h1 = [a, b];
    let h2 = [a, c];
    let h3 = [d];
    let (c1, c2, c3) = (cmd("one"), cmd("two"), cmd("three"));
    let list = vec![
        Shortcut { hotkey: Hotkey(&h1), action: &c1 },
        Shortcut { hotkey: Hotkey(&h2), action: &c2 },
        Shortcut { hotkey: Hotkey(&h3), action: &c3 },
    ];
    let got = describe(&allocate_keyspaces(&list));
    let expected = vec![
        (vec![], vec![(a, Does::Enter(vec![a])), (d, Does::Run(c3.clone()))]),
        (vec![a], vec![(b, Does::Run(c1.clone())), (c, Does::Run(c2.clone()))]),
    ];
    assert_eq!(got, expected);
}

#[test]
fn three_level_tree() {
    let (a, b, c, d, e) = (ch(12, 1), ch(13, 0), ch(14, 0), ch(15, 0), ch(16, 0));
    let h1 = [a, b, c];
    let h2 = [a, b, d];
    let h3 = [a, e];
    let (x, y, z) = (cmd("x"), cmd("y"), cmd("z"));
    let list = vec![
        Shortcut { hotkey: Hotkey(&h1), action: &x },
        Shortcut { hotkey: Hotkey(&h2), action: &y },
        Shortcut { hotkey: Hotkey(&h3), action: &z },
    ];
    let got = describe(&allocate_keyspaces(&list));
    let expected = vec![
        (vec![], vec![(a, Does::Enter(vec![a]))]),
        (vec![a], vec![(b, Does::Enter(vec![a, b])), (e, Does::Run(z.clone()))]),
        (vec![a, b], vec![(c, Does::Run(x.clone())), (d, Does::Run(y.clone()))]),
    ];
    assert_eq!(got, expected);
}

#[test]
fn hotkey_that_is_a_prefix_of_another_loses_its_command() {
    let (a, b) = (ch(12, 0), ch(13, 0));
    let h1 = [a];
    let h2 = [a, b];
    let (c1, c2) = (cmd("short"), cmd("long"));
    let list = vec![
        Shortcut { hotkey: Hotkey(&h1), action: &c1 },
        Shortcut { hotkey: Hotkey(&h2), action: &c2 },
    ];
    let got = describe(&allocate_keyspaces(&list));
    let expected = vec![
        (vec![], vec![(a, Does::Enter(vec![a]))]),
        (vec![a], vec![(b, Does::Run(c2.clone()))]),
    ];
    assert_eq!(got, expected);
}

#[test]
fn unsorted_list_repeats_states() {
    let (a, b, c, d) = (ch(12, 0), ch(13, 0), ch(14, 0), ch(15, 0));
    let h1 = [a, b];
    let h2 = [c];
    let h3 = [a, d];
    let (c1, c2, c3) = (cmd("1"), cmd("2"), cmd("3"));
    let list = vec![
        Shortcut { hotkey: Hotkey(&h1), action: &c1 },
        Shortcut { hotkey: Hotkey(&h2), action: &c2 },
        Shortcut { hotkey: Hotkey(&h3), action: &c3 },
    ];
    let got = describe(&allocate_keyspaces(&list));
    let expected = vec![
        (vec![], vec![(a, Does::Enter(vec![a])), (c, Does::Run(c2.clone())), (a, Does::Enter(vec![a]))]),
        (vec![a], vec![(b, Does::Run(c1.clone()))]),
        (vec![a], vec![(d, Does::Run(c3.clone()))]),
    ];
    assert_eq!(got, expected);
}

#[test]
fn empty_list_and_empty_hotkey() {
    let none: Vec<Shortcut> = Vec::new();
    assert!(allocate_keyspaces(&none).is_empty());
    let h: [Chord; 0] = [];
    let c = cmd("nothing");
    let list = vec![Shortcut { hotkey: Hotkey(&h), action: &c }];
    assert!(allocate_keyspaces(&list).is_empty());
}

#[test]
fn single_chord_shortcuts_share_one_keyspace() {
    let (a, b) = (ch(1, 0), ch(1, 4));
    let h1 = [a];
    let h2 = [b];
    let (c1, c2) = (cmd("a"), vec!["b".to_string(), "c".to_string()]);
    let list = vec![
        Shortcut { hotkey: Hotkey(&h1), action: &c1 },
        Shortcut { hotkey: Hotkey(&h2), action: &c2 },
    ];
    let got = describe(&list.allocate_keyspace_list().unwrap());
    let expected = vec![(vec![], vec![(a, Does::Run(c1.clone())), (b, Does::Run(c2.clone()))])];
    assert_eq!(got, expected);
}

#[test]
fn every_command_is_reached_in_a_prefix_free_list() {
    // Law: in a prefix-free list of non-empty hotkeys, each command is listed
    // under the title of its hotkey without the last chord.
    let (a, b, c, d) = (ch(20, 0), ch(21, 0), ch(22, 0), ch(23, 0));
    let hs = [vec![a, b, c], vec![a, d], vec![b], vec![a, b, d], vec![c, c]];
    let cmds: Vec<Vec<String>> = (0..hs.len()).map(|k| cmd(&format!("c{}", k))).collect();
    let list: Vec<Shortcut> =
        hs.iter().zip(cmds.iter()).map(|(h, c)| Shortcut { hotkey: Hotkey(h), action: c }).collect();
    let got = describe(&allocate_keyspaces(&list));
    for (h, c) in hs.iter().zip(cmds.iter()) {
        let title = h[..h.len() - 1].to_vec();
        let last = h[h.len() - 1];
        assert!(got.iter().any(|(t, es)| *t == title && es.iter().any(|e| *e == (last, Does::Run(c.clone())))));
    }
}

#[test]
fn entries_are_backed_by_the_list() {
    // Law: a state entry enters the title plus the chord; a command entry
    // runs the command of the shortcut whose hotkey is the title plus the chord.
    let (a, b, c) = (ch(30, 0), ch(31, 0), ch(32, 0));
    let hs = [vec![a], vec![a, b], vec![b, c, a], vec![b, c], vec![a, c]];
    let cmds: Vec<Vec<String>> = (0..hs.len()).map(|k| cmd(&format!("c{}", k))).collect();
    let list: Vec<Shortcut> =
        hs.iter().zip(cmds.iter()).map(|(h, c)| Shortcut { hotkey: Hotkey(h), action: c }).collect();
    let got = describe(&allocate_keyspaces(&list));
    for (title, entries) in got.iter() {
        assert!(hs.iter().any(|h| h.len() > title.len() && h[..title.len()] == title[..]));
        for (chord, does) in entries.iter() {
            let mut next = title.clone();
            next.push(*chord);
            match does {
                Does::Enter(s) => assert_eq!(*s, next),
                Does::Run(r) => assert!(hs.iter().zip(cmds.iter()).any(|(h, c)| *h == next && c == r)),
            }
        }
    }
}

#[test]
fn sorted_list_makes_each_state_once_and_each_chord_once_per_state() {
    // Laws: for a sorted, prefix-free list, keyspace titles are distinct and
    // each keyspace maps a chord to one entry only.
    let (a, b, c, d) = (ch(12, 0), ch(13, 0), ch(14, 0), ch(15, 0));
    let hs = [
        vec![a, a, b],
        vec![a, a, c],
        vec![a, b],
        vec![a, c, d],
        vec![b, a],
        vec![b, b, a],
        vec![c],
        vec![d, a, a, a],
    ];
    let cmds: Vec<Vec<String>> = (0..hs.len()).map(|k| cmd(&format!("c{}", k))).collect();
    let list: Vec<Shortcut> =
        hs.iter().zip(cmds.iter()).map(|(h, c)| Shortcut { hotkey: Hotkey(h), action: c }).collect();
    let got = describe(&allocate_keyspaces(&list));
    let titles: Vec<Vec<Chord>> = got.iter().map(|(t, _)| t.clone()).collect();
    for x in 0..titles.len() {
        for y in x + 1..titles.len() {
            assert_ne!(titles[x], titles[y]);
        }
    }
    for (_, entries) in got.iter() {
        for x in 0..entries.len() {
            for y in x + 1..entries.len() {
                assert_ne!(entries[x].0, entries[y].0);
            }
        }
    }
    // the inner nodes of the tree: [], [a], [a a], [a c], [b], [b b], [d], [d a], [d a a]
    assert_eq!(
        titles,
        vec![
            vec![],
            vec![a],
            vec![a, a],
            vec![a, c],
            vec![b],
            vec![b, b],
            vec![d],
            vec![d, a],
            vec![d, a, a],
        ]
    );
}

#[test]
fn appending_a_shortcut_with_a_new_first_chord() {
    // Law: the first keyspace gains the new chord's entry, the others stay,
    // and one keyspace per further prefix of the new hotkey comes last.
    let (a, b, c, d, e) = (ch(12, 0), ch(13, 0), ch(14, 0), ch(15, 0), ch(16, 0));
    let hs = [vec![a, b], vec![a, c, d], vec![b]];
    let cmds: Vec<Vec<String>> = (0..4).map(|k| cmd(&format!("c{}", k))).collect();
    let mut list: Vec<Shortcut> =
        hs.iter().zip(cmds.iter()).map(|(h, c)| Shortcut { hotkey: Hotkey(h), action: c }).collect();
    let before = describe(&allocate_keyspaces(&list));
    let new_hotkey = vec![e, a, b];
    list.push(Shortcut { hotkey: Hotkey(&new_hotkey), action: &cmds[3] });
    let after = describe(&allocate_keyspaces(&list));
    assert_eq!(after.len(), before.len() + 2);
    let mut first = before[0].clone();
    first.1.push((e, Does::Enter(vec![e])));
    assert_eq!(after[0], first);
    assert_eq!(&after[1..before.len()], &before[1..]);
    assert_eq!(after[before.len()], (vec![e], vec![(a, Does::Enter(vec![e, a]))]));
    assert_eq!(after[before.len() + 1], (vec![e, a], vec![(b, Does::Run(cmds[3].clone()))]));
}

#[test]
fn sorted_list_flattens_the_whole_tree() {
    // Law: every proper prefix of a hotkey is a title, every state entered
    // is a title, and each keyspace lists the next chord of every hotkey
    // that goes on past its title.
    let (a, b, c) = (ch(12, 0), ch(13, 0), ch(14, 0));
    let hs = [vec![a, a, b], vec![a, b], vec![a, c, a], vec![a, c, b], vec![b, c], vec![c]];
    let cmds: Vec<Vec<String>> = (0..hs.len()).map(|k| cmd(&format!("c{}", k))).collect();
    let list: Vec<Shortcut> =
        hs.iter().zip(cmds.iter()).map(|(h, c)| Shortcut { hotkey: Hotkey(h), action: c }).collect();
    let got = describe(&allocate_keyspaces(&list));
    let titles: Vec<Vec<Chord>> = got.iter().map(|(t, _)| t.clone()).collect();
    for h in hs.iter() {
        for d in 0..h.len() {
            assert!(titles.contains(&h[..d].to_vec()));
        }
    }
    for (title, entries) in got.iter() {
        for (_, does) in entries.iter() {
            if let Does::Enter(s) = does {
                assert!(titles.contains(s));
            }
        }
        for h in hs.iter() {
            if h.len() > title.len() && h[..title.len()] == title[..] {
                assert!(entries.iter().any(|(c, _)| *c == h[title.len()]));
            }
        }
    }
}
