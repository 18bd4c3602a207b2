use chordscript::constants::{AVAILABLE_KEYS, KEYCODES, KEYSTR_UTF8_MAX_LEN, MODIFIERS, SEPARATOR, WHITESPACE};

fn assert_is_unique<T: Ord>(mut input: Vec<T>, msg: &str) {
    let before_sort_len = input.len();
    input.sort_unstable();
    input.dedup();
    assert_eq!(before_sort_len, input.len(), "'{}' has a duplicate", msg);
}

#[test]
fn arrays_are_unique_and_valid() {
    assert!(WHITESPACE.iter().all(|c| c.is_whitespace()));
    assert_eq!(&WHITESPACE, &SEPARATOR[0..WHITESPACE.len()]);

    assert_is_unique(WHITESPACE.to_vec(), "WHITESPACE");
    assert_is_unique(SEPARATOR.to_vec(), "SEPARATOR");
    assert_is_unique(KEYCODES.to_vec(), "KEYCODES");
}

#[test]
fn keycodes_is_sorted() {
    // Check if KEYCODES is sorted
    let mut sorted = KEYCODES.clone();
    sorted.sort_by(|a, b| {
        if a.len() == b.len() {
            a.cmp(b)
        } else {
            a.len().cmp(&b.len())
        }
    });
    assert_eq!(KEYCODES, sorted);
}

#[test]
fn key_and_mod_for_stats_and_overlap() {
    let mut combined = MODIFIERS.to_vec();
    combined.append(&mut KEYCODES.to_vec());
    let combined = combined; // remove mut

    assert!(combined.iter().all(|k| k.len() <= KEYSTR_UTF8_MAX_LEN));
    assert!(combined.iter().any(|k| k.len() == KEYSTR_UTF8_MAX_LEN));

    // Make sure they do not intersect
    assert_is_unique(combined.clone(), "KEYCODE' together with 'MODIFIER");

    // Make sure we built 'AVAILABLE_KEYS' correctly
    assert_eq!(combined.clone().join(" "), AVAILABLE_KEYS);
}

#[test]
fn no_invalid_punctuation() {
    let invalid_chars = ['"', ';', ' '];
    assert!(KEYCODES.iter().find(|s| s.contains(&invalid_chars[..])).is_none());
    assert!(MODIFIERS.iter().find(|s| s.contains(&invalid_chars[..])).is_none());
}

#[test]
fn separator_ends_with_plus() {
    assert_eq!(SEPARATOR.len(), WHITESPACE.len() + 1);
    assert_eq!(SEPARATOR[WHITESPACE.len()], '+');
}
