use layout_optimizer::keyboard::{has_enough_keys, make_char_key_map, make_qwerty_map};
use layout_optimizer::params::Parameters;

fn names(list: &[&str]) -> Vec<String> {
    list.iter().map(|s| s.to_string()).collect()
}

#[test]
fn qwerty_map_names_the_swedish_layout() {
    let rows = [
        ("AD", "qwertyuiop\u{e5}"),
        ("AC", "asdfghjkl\u{f6}\u{e4}"),
        ("AB", "zxcvbnm,."),
    ];
    let mut key_names = Vec::new();
    let mut letters = Vec::new();
    for (row, row_letters) in rows.iter() {
        for (i, c) in row_letters.chars().enumerate() {
            key_names.push(format!("{}{:02}", row, i + 1));
            letters.push(c);
        }
    }
    key_names.push("BKSL".to_string());
    letters.push('\'');
    let m = make_qwerty_map(&key_names);
    assert_eq!(m.len(), 32);
    for (k, c) in letters.iter().enumerate() {
        assert_eq!(m.get(*c), Some(k));
    }
}

#[test]
fn qwerty_map_ignores_unknown_keys() {
    let m = make_qwerty_map(&names(&["SPCE", "AD01", "AD12", "AB10", "AC00", "AD1"]));
    assert_eq!(m.len(), 1);
    assert_eq!(m.get('q'), Some(1));
}

#[test]
fn qwerty_map_later_key_of_a_name_wins() {
    let m = make_qwerty_map(&names(&["AC01", "AC01"]));
    assert_eq!(m.get('a'), Some(1));
}

fn params() -> Parameters {
    Parameters {
        nr_min_loss_target: 3,
        keyboard_file: "keyboard".to_string(),
        letters: vec!['a', 'b', 'c', 'd'],
        free_letters: vec!['a', 'c', 'd'],
        unused_keys: vec!["K1".to_string()],
        locked_letters: vec![('b', "K3".to_string())],
    }
}

#[test]
fn char_key_map_pins_locked_letters_and_skips_taken_keys() {
    let key_names = names(&["K0", "K1", "K2", "K3", "K4", "K5"]);
    let p = params();
    assert!(has_enough_keys(&p, &key_names));
    let m = make_char_key_map(&p, &key_names);
    // a on K0, b pinned to K3, c skips the unused K1, d skips the pinned K3
    assert_eq!(m.get('a'), Some(0));
    assert_eq!(m.get('b'), Some(3));
    assert_eq!(m.get('c'), Some(2));
    assert_eq!(m.get('d'), Some(4));
    assert_eq!(m.as_pairs(), &vec![('a', 0), ('b', 3), ('c', 2), ('d', 4)]);
}

#[test]
fn char_key_map_leaves_a_letter_pinned_to_a_missing_key_unplaced() {
    let key_names = names(&["K0", "K2", "K4"]);
    let p = params();
    assert!(has_enough_keys(&p, &key_names));
    let m = make_char_key_map(&p, &key_names);
    assert_eq!(m.get('b'), None);
    assert_eq!(m.get('d'), Some(2));
}

#[test]
fn too_few_keys_are_detected() {
    let key_names = names(&["K0", "K1", "K2", "K3"]);
    assert!(!has_enough_keys(&params(), &key_names));
}

#[test]
fn first_pin_of_a_letter_counts() {
    let mut p = params();
    p.locked_letters = vec![('b', "K5".to_string()), ('b', "K4".to_string())];
    let key_names = names(&["K0", "K1", "K2", "K3", "K4", "K5"]);
    let m = make_char_key_map(&p, &key_names);
    assert_eq!(m.get('b'), Some(5));
    // both pinned names are taken
    assert_eq!(m.get('d'), Some(3));
}
