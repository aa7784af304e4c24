use layout_optimizer::keymap::KeyMap;
use layout_optimizer::params::Parameters;
use layout_optimizer::layout::{make_valid_keyboard, shuffle_keys};
use layout_optimizer::search::SwapSearch;

fn params(free: &str) -> Parameters {
    Parameters {
        nr_min_loss_target: 3,
        keyboard_file: String::new(),
        letters: free.chars().collect(),
        free_letters: free.chars().collect(),
        unused_keys: Vec::new(),
        locked_letters: Vec::new(),
    }
}

fn map_of(pairs: &[(char, usize)]) -> KeyMap {
    let mut m = KeyMap::new();
    for &(c, k) in pairs {
        m.insert(c, k);
    }
    m
}

#[test]
fn proposals_walk_the_pairs_and_rejections_undo_them() {
    let p = params("abc");
    let mut search = SwapSearch::new(&p);
    let mut m = map_of(&[('a', 0), ('b', 1), ('c', 2)]);
    let q = map_of(&[('a', 9), ('b', 9), ('c', 9)]);
    let apart = vec![vec![true; 10]; 3];
    let mut seen = Vec::new();
    while let Some(pair) = search.propose(&mut m, &q, &apart) {
        seen.push(pair);
        assert_ne!(m.as_pairs(), &vec![('a', 0), ('b', 1), ('c', 2)]);
        search.reject(&mut m);
        assert_eq!(m.as_pairs(), &vec![('a', 0), ('b', 1), ('c', 2)]);
    }
    assert_eq!(seen, vec![('a', 'b'), ('a', 'c'), ('b', 'c')]);
}

#[test]
fn illegal_pairs_are_passed_over() {
    let p = params("abc");
    let mut search = SwapSearch::new(&p);
    let mut m = map_of(&[('a', 0), ('b', 1), ('c', 2)]);
    let q = map_of(&[('a', 1), ('b', 0), ('c', 2)]);
    // a key is too close only to itself
    let apart: Vec<Vec<bool>> = (0..3).map(|a| (0..3).map(|b| a != b).collect()).collect();
    // a-b would put a on key 1, its reference key; a-c is legal
    let first = search.propose(&mut m, &q, &apart);
    assert_eq!(first, Some(('a', 'c')));
    assert_eq!(m.get('a'), Some(2));
    assert_eq!(m.get('c'), Some(0));
    search.accept();
    let mut count = 0;
    while search.propose(&mut m, &q, &apart).is_some() {
        search.reject(&mut m);
        count += 1;
    }
    assert!(count <= 3);
    assert_eq!(m.get('a'), Some(2));
}

fn check_worker_layout(m: &KeyMap, q: &KeyMap) {
    for c in ['a', 'b', 'c', 'd'] {
        assert_ne!(m.get(c), q.get(c));
    }
    assert_eq!(m.get('z'), Some(4));
    let mut keys: Vec<usize> = ['a', 'b', 'c', 'd'].iter().map(|&c| m.get(c).unwrap()).collect();
    keys.sort();
    assert_eq!(keys, vec![0, 1, 2, 3]);
    assert_eq!(m.len(), 5);
}

#[test]
fn worker_layouts_stay_valid_and_only_rearrange_free_letters() {
    let p = params("abcd");
    let mut m = map_of(&[('a', 0), ('b', 1), ('c', 2), ('d', 3), ('z', 4)]);
    let q = map_of(&[('a', 0), ('b', 1), ('c', 2), ('d', 3), ('z', 4)]);
    // a key is too close only to itself
    let apart: Vec<Vec<bool>> = (0..5).map(|a| (0..5).map(|b| a != b).collect()).collect();
    assert!(make_valid_keyboard(&p, &mut m, &q, &apart).is_ok());
    check_worker_layout(&m, &q);
    let mut search = SwapSearch::new(&p);
    for round in 0..20 {
        shuffle_keys(&mut m, &q, &p, &apart);
        check_worker_layout(&m, &q);
        search.restart();
        let mut accepted = 0;
        while let Some(pair) = search.propose(&mut m, &q, &apart) {
            check_worker_layout(&m, &q);
            assert!(m.get(pair.0) != q.get(pair.0) && m.get(pair.1) != q.get(pair.1));
            if (round + accepted) % 3 == 0 && accepted < 4 {
                search.accept();
                accepted += 1;
            } else {
                let before: Vec<(char, usize)> = m.as_pairs().clone();
                search.reject(&mut m);
                assert_ne!(m.as_pairs(), &before);
            }
            check_worker_layout(&m, &q);
        }
    }
}
