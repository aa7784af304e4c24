use layout_optimizer::keymap::KeyMap;
use layout_optimizer::layout::{
    get_swappable_pairs, legal_swap, make_valid_keyboard, shuffle_keys, stringify_map, swap_by_indices, swap_keys,
};
use layout_optimizer::params::Parameters;

fn params(letters: &str, free: &str) -> Parameters {
    Parameters {
        nr_min_loss_target: 3,
        keyboard_file: "keyboard".to_string(),
        letters: letters.chars().collect(),
        free_letters: free.chars().collect(),
        unused_keys: Vec::new(),
        locked_letters: Vec::new(),
    }
}

#[test]
fn swappable_pairs_are_each_pair_once() {
    let p = params("abcd", "abcd");
    let pairs = get_swappable_pairs(&p);
    assert_eq!(
        pairs,
        vec![('a', 'b'), ('a', 'c'), ('a', 'd'), ('b', 'c'), ('b', 'd'), ('c', 'd')]
    );
}

#[test]
fn swap_keys_trades_keys() {
    let mut m = KeyMap::new();
    m.insert('a', 0);
    m.insert('b', 1);
    swap_keys(&('a', 'b'), &mut m);
    assert_eq!(m.get('a'), Some(1));
    assert_eq!(m.get('b'), Some(0));
}

#[test]
fn legal_swap_reads_the_table() {
    let mut m = KeyMap::new();
    m.insert('a', 0);
    m.insert('b', 1);
    let mut q = KeyMap::new();
    q.insert('a', 0);
    q.insert('b', 1);
    // keys 0 and 1 are far apart, each key is close to itself
    let apart = vec![vec![false, true], vec![true, false]];
    assert!(legal_swap(&m, &q, &('a', 'b'), &apart));
    let close = vec![vec![false, false], vec![true, false]];
    assert!(!legal_swap(&m, &q, &('a', 'b'), &close));
}

fn map_of(pairs: &[(char, usize)]) -> KeyMap {
    let mut m = KeyMap::new();
    for &(c, k) in pairs {
        m.insert(c, k);
    }
    m
}

/// A table in which key `a` of a layout is far from key `b` of the reference
/// layout unless the two are the same key.
fn apart_unless_same(n: usize) -> Vec<Vec<bool>> {
    (0..n).map(|a| (0..n).map(|b| a != b).collect()).collect()
}

#[test]
fn keymap_keeps_first_placement_order() {
    let mut m = map_of(&[('x', 3), ('y', 5)]);
    m.insert('x', 7);
    m.insert('z', 1);
    assert_eq!(m.len(), 3);
    assert_eq!(m.as_pairs(), &vec![('x', 7), ('y', 5), ('z', 1)]);
    assert_eq!(m.get('w'), None);
}

#[test]
fn number_of_pairs_is_n_choose_two() {
    let p = params("abcdefg", "abcdefg");
    assert_eq!(get_swappable_pairs(&p).len(), 21);
    let empty = params("", "");
    assert!(get_swappable_pairs(&empty).is_empty());
}

#[test]
fn swapping_twice_restores_the_layout() {
    let mut m = map_of(&[('a', 0), ('b', 1), ('c', 2)]);
    swap_keys(&('a', 'c'), &mut m);
    assert_eq!(m.as_pairs(), &vec![('a', 2), ('b', 1), ('c', 0)]);
    swap_keys(&('a', 'c'), &mut m);
    assert_eq!(m.as_pairs(), &vec![('a', 0), ('b', 1), ('c', 2)]);
}

#[test]
fn legal_swap_treats_keys_outside_the_table_as_close() {
    let m = map_of(&[('a', 0), ('b', 5)]);
    let q = map_of(&[('a', 0), ('b', 1)]);
    let apart = apart_unless_same(2);
    assert!(!legal_swap(&m, &q, &('a', 'b'), &apart));
}

#[test]
fn make_valid_keyboard_moves_every_free_letter_off_its_reference_key() {
    let p = params("abcd", "abcd");
    // every letter starts on its reference key
    let mut m = map_of(&[('a', 0), ('b', 1), ('c', 2), ('d', 3)]);
    let q = map_of(&[('a', 0), ('b', 1), ('c', 2), ('d', 3)]);
    let apart = apart_unless_same(4);
    assert!(make_valid_keyboard(&p, &mut m, &q, &apart).is_ok());
    for c in "abcd".chars() {
        assert_ne!(m.get(c), q.get(c));
    }
    let mut keys: Vec<usize> = m.as_pairs().iter().map(|e| e.1).collect();
    keys.sort();
    assert_eq!(keys, vec![0, 1, 2, 3]);
}

#[test]
fn make_valid_keyboard_fails_without_a_legal_swap() {
    let p = params("ab", "ab");
    let mut m = map_of(&[('a', 0), ('b', 1)]);
    let q = map_of(&[('a', 0), ('b', 1)]);
    // no key is far enough from any other
    let apart = vec![vec![false, false], vec![false, false]];
    match make_valid_keyboard(&p, &mut m, &q, &apart) {
        Err(e) => assert_eq!(e.letter, 'a'),
        Ok(()) => panic!("the keyboard cannot be valid"),
    }
    assert_eq!(m.as_pairs(), &vec![('a', 0), ('b', 1)]);
}

#[test]
fn make_valid_keyboard_leaves_a_valid_keyboard_alone() {
    let p = params("ab", "ab");
    let mut m = map_of(&[('a', 1), ('b', 0)]);
    let q = map_of(&[('a', 0), ('b', 1)]);
    let apart = apart_unless_same(2);
    assert!(make_valid_keyboard(&p, &mut m, &q, &apart).is_ok());
    assert_eq!(m.as_pairs(), &vec![('a', 1), ('b', 0)]);
}

#[test]
fn swap_by_indices_makes_the_legal_trades_in_order() {
    let p = params("abc", "abc");
    let mut m = map_of(&[('a', 0), ('b', 1), ('c', 2)]);
    let q = map_of(&[('a', 5), ('b', 5), ('c', 5)]);
    let apart = vec![vec![true; 6]; 3];
    // a trades with c, then b with itself, then c with a
    swap_by_indices(&mut m, &q, &p, &apart, &vec![2, 1, 0]);
    assert_eq!(m.as_pairs(), &vec![('a', 0), ('b', 1), ('c', 2)]);
    swap_by_indices(&mut m, &q, &p, &apart, &vec![1, 0, 2]);
    assert_eq!(m.as_pairs(), &vec![('a', 0), ('b', 1), ('c', 2)]);
    swap_by_indices(&mut m, &q, &p, &apart, &vec![1, 2, 2]);
    assert_eq!(m.as_pairs(), &vec![('a', 1), ('b', 2), ('c', 0)]);
}

#[test]
fn swap_by_indices_skips_illegal_trades() {
    let p = params("ab", "ab");
    let mut m = map_of(&[('a', 0), ('b', 1)]);
    let q = map_of(&[('a', 1), ('b', 0)]);
    let apart = apart_unless_same(2);
    swap_by_indices(&mut m, &q, &p, &apart, &vec![1, 0]);
    assert_eq!(m.as_pairs(), &vec![('a', 0), ('b', 1)]);
}

#[test]
fn shuffle_keys_reorders_free_letters_and_keeps_locked_ones() {
    let free: String = "abcdefghijklmnopqrst".to_string();
    let mut p = params(&(free.clone() + "z"), &free);
    p.locked_letters = vec![('z', "K20".to_string())];
    let mut m = KeyMap::new();
    for (i, c) in free.chars().enumerate() {
        m.insert(c, i);
    }
    m.insert('z', 20);
    let q = map_of(&[]);
    let q = {
        let mut q = q;
        for (i, c) in free.chars().enumerate() {
            q.insert(c, 100 + i);
        }
        q
    };
    let apart = vec![vec![true; 200]; 21];
    let before: Vec<(char, usize)> = m.as_pairs().clone();
    shuffle_keys(&mut m, &q, &p, &apart);
    assert_eq!(m.get('z'), Some(20));
    let mut keys: Vec<usize> = m.as_pairs().iter().map(|e| e.1).collect();
    keys.sort();
    assert_eq!(keys, (0..21).collect::<Vec<usize>>());
    // twenty letters in their starting order after a random shuffle is
    // practically impossible
    assert_ne!(m.as_pairs(), &before);
}

#[test]
fn stringify_map_writes_one_line_per_letter() {
    let m = map_of(&[('a', 1), ('\u{e5}', 0)]);
    let names = vec!["AC01".to_string(), "AD11".to_string()];
    assert_eq!(stringify_map(&m, &names), "a AD11\n\u{e5} AC01\n");
}

#[test]
fn shuffling_a_valid_keyboard_keeps_it_valid() {
    let free = "abcdefgh";
    let p = params(free, free);
    let mut q = KeyMap::new();
    for (i, c) in free.chars().enumerate() {
        q.insert(c, i);
    }
    // a key is too close to itself and to its neighbours
    let apart: Vec<Vec<bool>> = (0..8)
        .map(|a: usize| (0..8).map(|b: usize| a != b && (a + 8 - b) % 8 != 1 && (b + 8 - a) % 8 != 1).collect())
        .collect();
    // start from a valid keyboard: every letter two keys away
    let mut m2 = KeyMap::new();
    for (i, c) in free.chars().enumerate() {
        m2.insert(c, (i + 2) % 8);
    }
    for _ in 0..20 {
        shuffle_keys(&mut m2, &q, &p, &apart);
        for c in free.chars() {
            let k = m2.get(c).unwrap();
            let r = q.get(c).unwrap();
            assert!(apart[k][r], "letter {} too close after a shuffle", c);
        }
    }
}

#[test]
fn insert_replaces_in_place() {
    let mut m = map_of(&[('a', 0), ('b', 1), ('c', 2)]);
    m.insert('b', 9);
    assert_eq!(m.as_pairs(), &vec![('a', 0), ('b', 9), ('c', 2)]);
}
