use vstd::prelude::*;
use vstd::string::*;
use crate::keymap::{placed_letters, KeyMap};
use crate::params::Parameters;

verus! {

// ---------------------------------------------------------------------------
// The reference (qwerty) layout
// ---------------------------------------------------------------------------

/// The reference layout: each key name with the letter that the Swedish
/// qwerty layout puts on it.
pub open spec fn qwerty_keys() -> Seq<(Seq<char>, char)> {
    seq![
        (seq!['A', 'D', '0', '1'], 'q'), (seq!['A', 'D', '0', '2'], 'w'),
        (seq!['A', 'D', '0', '3'], 'e'), (seq!['A', 'D', '0', '4'], 'r'),
        (seq!['A', 'D', '0', '5'], 't'), (seq!['A', 'D', '0', '6'], 'y'),
        (seq!['A', 'D', '0', '7'], 'u'), (seq!['A', 'D', '0', '8'], 'i'),
        (seq!['A', 'D', '0', '9'], 'o'), (seq!['A', 'D', '1', '0'], 'p'),
        (seq!['A', 'D', '1', '1'], '\u{e5}'),
        (seq!['A', 'C', '0', '1'], 'a'), (seq!['A', 'C', '0', '2'], 's'),
        (seq!['A', 'C', '0', '3'], 'd'), (seq!['A', 'C', '0', '4'], 'f'),
        (seq!['A', 'C', '0', '5'], 'g'), (seq!['A', 'C', '0', '6'], 'h'),
        (seq!['A', 'C', '0', '7'], 'j'), (seq!['A', 'C', '0', '8'], 'k'),
        (seq!['A', 'C', '0', '9'], 'l'), (seq!['A', 'C', '1', '0'], '\u{f6}'),
        (seq!['A', 'C', '1', '1'], '\u{e4}'),
        (seq!['B', 'K', 'S', 'L'], '\''),
        (seq!['A', 'B', '0', '1'], 'z'), (seq!['A', 'B', '0', '2'], 'x'),
        (seq!['A', 'B', '0', '3'], 'c'), (seq!['A', 'B', '0', '4'], 'v'),
        (seq!['A', 'B', '0', '5'], 'b'), (seq!['A', 'B', '0', '6'], 'n'),
        (seq!['A', 'B', '0', '7'], 'm'), (seq!['A', 'B', '0', '8'], ','),
        (seq!['A', 'B', '0', '9'], '.'),
    ]
}

/// The letter of the first entry of `table`, from position `start` on,
/// whose key name is `name`.
pub open spec fn letter_named(table: Seq<(Seq<char>, char)>, name: Seq<char>, start: nat) -> Option<char>
    decreases table.len() - start,
{
    if start >= table.len() {
        None
    } else if table[start as int].0 == name {
        Some(table[start as int].1)
    } else {
        letter_named(table, name, start + 1)
    }
}

/// The reference layout as a map: key `k` of `names` takes the letter that
/// the reference layout puts on a key of its name; where two keys share a
/// name, the later one wins.
pub open spec fn qwerty_map(names: Seq<String>) -> Map<char, usize>
    decreases names.len(),
{
    if names.len() == 0 {
        Map::empty()
    } else {
        let prev = qwerty_map(names.drop_last());
        match letter_named(qwerty_keys(), names.last()@, 0) {
            Some(c) => prev.insert(c, (names.len() - 1) as usize),
            None => prev,
        }
    }
}

/// The reference layout, held as in `qwerty_keys`.
fn qwerty_table() -> (t: Vec<([char; 4], char)>)
    ensures
        t@.len() == qwerty_keys().len(),
        forall|i: int| #![trigger t@[i]] 0 <= i < t@.len() ==> t@[i].0@ == qwerty_keys()[i].0 && t@[i].1 == qwerty_keys()[i].1,
{
    let t = vec![
        (['A', 'D', '0', '1'], 'q'), (['A', 'D', '0', '2'], 'w'),
        (['A', 'D', '0', '3'], 'e'), (['A', 'D', '0', '4'], 'r'),
        (['A', 'D', '0', '5'], 't'), (['A', 'D', '0', '6'], 'y'),
        (['A', 'D', '0', '7'], 'u'), (['A', 'D', '0', '8'], 'i'),
        (['A', 'D', '0', '9'], 'o'), (['A', 'D', '1', '0'], 'p'),
        (['A', 'D', '1', '1'], '\u{e5}'),
        (['A', 'C', '0', '1'], 'a'), (['A', 'C', '0', '2'], 's'),
        (['A', 'C', '0', '3'], 'd'), (['A', 'C', '0', '4'], 'f'),
        (['A', 'C', '0', '5'], 'g'), (['A', 'C', '0', '6'], 'h'),
        (['A', 'C', '0', '7'], 'j'), (['A', 'C', '0', '8'], 'k'),
        (['A', 'C', '0', '9'], 'l'), (['A', 'C', '1', '0'], '\u{f6}'),
        (['A', 'C', '1', '1'], '\u{e4}'),
        (['B', 'K', 'S', 'L'], '\''),
        (['A', 'B', '0', '1'], 'z'), (['A', 'B', '0', '2'], 'x'),
        (['A', 'B', '0', '3'], 'c'), (['A', 'B', '0', '4'], 'v'),
        (['A', 'B', '0', '5'], 'b'), (['A', 'B', '0', '6'], 'n'),
        (['A', 'B', '0', '7'], 'm'), (['A', 'B', '0', '8'], ','),
        (['A', 'B', '0', '9'], '.'),
    ];
    t
}

/// Whether the text of `name` is the four characters of `code`.
fn name_is(name: &String, code: &[char; 4]) -> (r: bool)
    ensures
        r == (name@ == code@),
{
    let s = name.as_str();
    if s.unicode_len() != 4 {
        return false;
    }
    let mut i: usize = 0;
    while i < 4
        invariant
            s@ == name@,
            s@.len() == 4,
            code@.len() == 4,
            i <= 4,
            forall|j: int| 0 <= j < i ==> s@[j] == code@[j],
        decreases 4 - i,
    {
        if s.get_char(i) != code[i] {
            return false;
        }
        i = i + 1;
    }
    assert(s@ =~= code@);
    true
}

/// The letter that the reference layout puts on the key named `name`.
fn qwerty_letter(table: &Vec<([char; 4], char)>, name: &String) -> (r: Option<char>)
    requires
        table@.len() == qwerty_keys().len(),
        forall|i: int| #![trigger table@[i]] 0 <= i < table@.len() ==> table@[i].0@ == qwerty_keys()[i].0 && table@[i].1 == qwerty_keys()[i].1,
    ensures
        r == letter_named(qwerty_keys(), name@, 0),
{
    let mut i: usize = 0;
    while i < table.len()
        invariant
            table@.len() == qwerty_keys().len(),
            forall|i: int| #![trigger table@[i]] 0 <= i < table@.len() ==> table@[i].0@ == qwerty_keys()[i].0 && table@[i].1 == qwerty_keys()[i].1,
            i <= table@.len(),
            letter_named(qwerty_keys(), name@, 0) == letter_named(qwerty_keys(), name@, i as nat),
        decreases table@.len() - i,
    {
        let entry = &table[i];
        assert(table@[i as int].0@ == qwerty_keys()[i as int].0);
        if name_is(name, &entry.0) {
            return Some(entry.1);
        }
        i = i + 1;
    }
    None
}

/// Places each letter of the reference layout on the key of the keyboard
/// whose name the reference layout gives it.
pub fn make_qwerty_map(key_names: &Vec<String>) -> (key_map: KeyMap)
    ensures
        key_map.wf(),
        key_map@ == qwerty_map(key_names@),
{
    let table = qwerty_table();
    let mut key_map = KeyMap::new();
    for k in 0..key_names.len()
        invariant
            table@.len() == qwerty_keys().len(),
            forall|i: int| #![trigger table@[i]] 0 <= i < table@.len() ==> table@[i].0@ == qwerty_keys()[i].0 && table@[i].1 == qwerty_keys()[i].1,
            key_map.wf(),
            key_map@ == qwerty_map(key_names@.take(k as int)),
    {
        assert(key_names@.take(k + 1).drop_last() =~= key_names@.take(k as int));
        assert(key_names@.take(k + 1).last() == key_names@[k as int]);
        match qwerty_letter(&table, &key_names[k]) {
            Some(c) => {
                key_map.insert(c, k);
            },
            None => {},
        }
    }
    assert(key_names@.take(key_names@.len() as int) =~= key_names@);
    key_map
}

// ---------------------------------------------------------------------------
// The starting layout
// ---------------------------------------------------------------------------

/// The key name that `locked` pins `c` to: its first listing.
pub open spec fn locked_name(locked: Seq<(char, String)>, c: char) -> Option<Seq<char>>
    decreases locked.len(),
{
    if locked.len() == 0 {
        None
    } else if locked[0].0 == c {
        Some(locked[0].1@)
    } else {
        locked_name(locked.drop_first(), c)
    }
}

/// Some letter is pinned to the key named `name`.
pub open spec fn is_locked_key(locked: Seq<(char, String)>, name: Seq<char>) -> bool {
    exists|i: int| 0 <= i < locked.len() && #[trigger] locked[i].1@ == name
}

/// The key named `name` is listed as unused.
pub open spec fn is_unused_key(unused: Seq<String>, name: Seq<char>) -> bool {
    exists|i: int| 0 <= i < unused.len() && #[trigger] unused[i]@ == name
}

/// Key `k` may take a letter that is not pinned: no letter is pinned to its
/// name and its name is not listed as unused.
pub open spec fn key_available(
    names: Seq<String>,
    locked: Seq<(char, String)>,
    unused: Seq<String>,
    k: int,
) -> bool {
    !is_locked_key(locked, names[k]@) && !is_unused_key(unused, names[k]@)
}

/// The available keys among the first `k`, in order.
pub open spec fn available_keys(
    names: Seq<String>,
    locked: Seq<(char, String)>,
    unused: Seq<String>,
    k: nat,
) -> Seq<usize>
    decreases k,
{
    if k == 0 {
        Seq::empty()
    } else {
        let prev = available_keys(names, locked, unused, (k - 1) as nat);
        if key_available(names, locked, unused, k - 1) {
            prev.push((k - 1) as usize)
        } else {
            prev
        }
    }
}

/// The first key, from position `start` on, named `name`.
pub open spec fn first_named(names: Seq<String>, name: Seq<char>, start: nat) -> Option<usize>
    decreases names.len() - start,
{
    if start >= names.len() {
        None
    } else if names[start as int]@ == name {
        Some(start as usize)
    } else {
        first_named(names, name, start + 1)
    }
}

/// How many of `letters` are not pinned.
pub open spec fn unpinned_count(letters: Seq<char>, locked: Seq<(char, String)>) -> nat
    decreases letters.len(),
{
    if letters.len() == 0 {
        0
    } else {
        unpinned_count(letters.drop_last(), locked) + if locked_name(locked, letters.last()) is None {
            1nat
        } else {
            0nat
        }
    }
}

/// The starting layout.  In the order of `letters`, a pinned letter goes
/// to the first key with the name it is pinned to (and stays unplaced when
/// there is none), and the `j`-th letter that is not pinned goes to the
/// `j`-th available key.  A letter listed twice keeps its last placement.
pub open spec fn char_key_map(
    letters: Seq<char>,
    locked: Seq<(char, String)>,
    names: Seq<String>,
    unused: Seq<String>,
) -> Map<char, usize>
    decreases letters.len(),
{
    if letters.len() == 0 {
        Map::empty()
    } else {
        let prev = char_key_map(letters.drop_last(), locked, names, unused);
        let c = letters.last();
        match locked_name(locked, c) {
            Some(name) => match first_named(names, name, 0) {
                Some(k) => prev.insert(c, k),
                None => prev,
            },
            None => prev.insert(
                c,
                available_keys(names, locked, unused, names.len())[unpinned_count(letters.drop_last(), locked) as int],
            ),
        }
    }
}

/// Every letter that is not pinned finds an available key.
pub open spec fn enough_keys(par: Parameters, names: Seq<String>) -> bool {
    unpinned_count(par.letters@, par.locked_letters@)
        <= available_keys(names, par.locked_letters@, par.unused_keys@, names.len()).len()
}

/// The available keys among the first `a` are the first ones among the
/// first `b`.
proof fn lemma_available_prefix(
    names: Seq<String>,
    locked: Seq<(char, String)>,
    unused: Seq<String>,
    a: nat,
    b: nat,
)
    requires
        a <= b,
    ensures
        available_keys(names, locked, unused, a).len() <= available_keys(names, locked, unused, b).len(),
        forall|i: int| 0 <= i < available_keys(names, locked, unused, a).len()
            ==> #[trigger] available_keys(names, locked, unused, b)[i] == available_keys(names, locked, unused, a)[i],
    decreases b - a,
{
    if a < b {
        lemma_available_prefix(names, locked, unused, a, (b - 1) as nat);
    }
}

/// Fewer letters have fewer unpinned letters among them.
proof fn lemma_unpinned_monotone(letters: Seq<char>, locked: Seq<(char, String)>, a: nat, b: nat)
    requires
        a <= b <= letters.len(),
    ensures
        unpinned_count(letters.take(a as int), locked) <= unpinned_count(letters.take(b as int), locked),
    decreases b - a,
{
    if a < b {
        lemma_unpinned_monotone(letters, locked, a, (b - 1) as nat);
        assert(letters.take(b as int).drop_last() =~= letters.take(b - 1));
    }
}

/// The pinned key name of `c`, found by scanning the pins.
fn find_locked<'a>(locked: &'a Vec<(char, String)>, c: char) -> (r: Option<&'a String>)
    ensures
        match r {
            Some(name) => locked_name(locked@, c) == Some(name@),
            None => locked_name(locked@, c) is None,
        },
{
    let mut i: usize = 0;
    assert(locked@.skip(0) =~= locked@);
    while i < locked.len()
        invariant
            i <= locked@.len(),
            locked_name(locked@, c) == locked_name(locked@.skip(i as int), c),
        decreases locked@.len() - i,
    {
        assert(locked@.skip(i as int).drop_first() =~= locked@.skip(i + 1));
        if locked[i].0 == c {
            return Some(&locked[i].1);
        }
        i = i + 1;
    }
    None
}

/// Whether some letter is pinned to the key named `name`.
fn locked_key(locked: &Vec<(char, String)>, name: &String) -> (r: bool)
    ensures
        r == is_locked_key(locked@, name@),
{
    for i in 0..locked.len()
        invariant
            forall|j: int| 0 <= j < i ==> locked@[j].1@ != name@,
    {
        if locked[i].1 == *name {
            return true;
        }
    }
    false
}

/// Whether the key named `name` is listed as unused.
fn unused_key(unused: &Vec<String>, name: &String) -> (r: bool)
    ensures
        r == is_unused_key(unused@, name@),
{
    for i in 0..unused.len()
        invariant
            forall|j: int| 0 <= j < i ==> unused@[j]@ != name@,
    {
        if unused[i] == *name {
            return true;
        }
    }
    false
}

/// The first key named `name`.
fn first_key_named(names: &Vec<String>, name: &String) -> (r: Option<usize>)
    ensures
        r == first_named(names@, name@, 0),
{
    let mut k: usize = 0;
    while k < names.len()
        invariant
            k <= names@.len(),
            first_named(names@, name@, 0) == first_named(names@, name@, k as nat),
        decreases names@.len() - k,
    {
        if names[k] == *name {
            return Some(k);
        }
        k = k + 1;
    }
    None
}

/// Whether every letter that is not pinned finds an available key, so that
/// `make_char_key_map` can place them all.
pub fn has_enough_keys(par_struct: &Parameters, key_names: &Vec<String>) -> (r: bool)
    ensures
        r == enough_keys(*par_struct, key_names@),
{
    let mut unpinned: usize = 0;
    for i in 0..par_struct.letters.len()
        invariant
            unpinned == unpinned_count(par_struct.letters@.take(i as int), par_struct.locked_letters@),
            unpinned <= i,
    {
        assert(par_struct.letters@.take(i + 1).drop_last() =~= par_struct.letters@.take(i as int));
        if find_locked(&par_struct.locked_letters, par_struct.letters[i]).is_none() {
            unpinned = unpinned + 1;
        }
    }
    assert(par_struct.letters@.take(par_struct.letters@.len() as int) =~= par_struct.letters@);
    let mut available: usize = 0;
    for k in 0..key_names.len()
        invariant
            available == available_keys(key_names@, par_struct.locked_letters@, par_struct.unused_keys@, k as nat).len(),
            available <= k,
    {
        if !locked_key(&par_struct.locked_letters, &key_names[k]) && !unused_key(&par_struct.unused_keys, &key_names[k]) {
            available = available + 1;
        }
    }
    unpinned <= available
}

/// The starting layout: pinned letters on the keys they are pinned to, the
/// other letters, in order, on the available keys, in order.
pub fn make_char_key_map(par_struct: &Parameters, key_names: &Vec<String>) -> (map: KeyMap)
    requires
        enough_keys(*par_struct, key_names@),
    ensures
        map.wf(),
        map@ == char_key_map(par_struct.letters@, par_struct.locked_letters@, key_names@, par_struct.unused_keys@),
        forall|c: char| #[trigger] map@.contains_key(c) && locked_name(par_struct.locked_letters@, c) is None ==> {
            &&& (map@[c] as int) < key_names@.len()
            &&& forall|j: int| 0 <= j < par_struct.unused_keys@.len()
                ==> key_names@[map@[c] as int]@ != #[trigger] par_struct.unused_keys@[j]@
            &&& forall|j: int| 0 <= j < par_struct.locked_letters@.len()
                ==> key_names@[map@[c] as int]@ != #[trigger] par_struct.locked_letters@[j].1@
        },
{
    let letters = &par_struct.letters;
    let locked = &par_struct.locked_letters;
    let unused = &par_struct.unused_keys;
    let n_keys = key_names.len();
    let ghost n = key_names@.len();
    let ghost all_available = available_keys(key_names@, locked@, unused@, n);
    let mut map = KeyMap::new();
    let mut key_index: usize = 0;
    let ghost mut unpinned: nat = 0;
    for li in 0..letters.len()
        invariant
            letters@ == par_struct.letters@,
            locked@ == par_struct.locked_letters@,
            unused@ == par_struct.unused_keys@,
            n == key_names@.len(),
            n == n_keys,
            all_available == available_keys(key_names@, locked@, unused@, n),
            enough_keys(*par_struct, key_names@),
            map.wf(),
            map@ == char_key_map(letters@.take(li as int), locked@, key_names@, unused@),
            unpinned == unpinned_count(letters@.take(li as int), locked@),
            key_index <= n,
            available_keys(key_names@, locked@, unused@, key_index as nat).len() == unpinned,
    {
        let letter = letters[li];
        let ghost prefix = letters@.take(li + 1);
        proof {
            assert(prefix.drop_last() =~= letters@.take(li as int));
            assert(prefix.last() == letter);
        }
        match find_locked(locked, letter) {
            Some(key_name) => {
                // this letter is pinned
                match first_key_named(key_names, key_name) {
                    Some(k) => {
                        map.insert(letter, k);
                    },
                    None => {},
                }
            },
            None => {
                // take the next available key
                proof {
                    lemma_unpinned_monotone(letters@, locked@, (li + 1) as nat, letters@.len());
                    assert(letters@.take(letters@.len() as int) =~= letters@);
                    lemma_available_prefix(key_names@, locked@, unused@, key_index as nat, n);
                }
                let ghost map_before = map@;
                let mut not_found_key = true;
                while not_found_key
                    invariant
                        n == key_names@.len(),
                        n == n_keys,
                        locked@ == par_struct.locked_letters@,
                        unused@ == par_struct.unused_keys@,
                        all_available == available_keys(key_names@, locked@, unused@, n),
                        key_index <= n,
                        unpinned < all_available.len(),
                        map.wf(),
                        not_found_key ==> available_keys(key_names@, locked@, unused@, key_index as nat).len() == unpinned,
                        not_found_key ==> map@ == map_before,
                        !not_found_key ==> key_index >= 1 && all_available[unpinned as int] == key_index - 1,
                        !not_found_key ==> available_keys(key_names@, locked@, unused@, key_index as nat).len() == unpinned + 1,
                        !not_found_key ==> map@ == map_before.insert(letter, (key_index - 1) as usize),
                    decreases n - key_index,
                {
                    proof {
                        if key_index == n {
                            assert(false);
                        }
                    }
                    let key_name = &key_names[key_index];
                    if !locked_key(locked, key_name) && !unused_key(unused, key_name) {
                        // the key is neither pinned nor unused
                        proof {
                            assert(key_available(key_names@, locked@, unused@, key_index as int));
                            lemma_available_prefix(key_names@, locked@, unused@, (key_index + 1) as nat, n);
                            assert(available_keys(key_names@, locked@, unused@, (key_index + 1) as nat)[unpinned as int] == key_index);
                        }
                        not_found_key = false;
                        map.insert(letter, key_index);
                    }
                    key_index = key_index + 1;
                }
                proof { unpinned = unpinned + 1; }
            },
        }
    }
    assert(letters@.take(letters@.len() as int) =~= letters@);
    proof {
        assert forall|c: char| #[trigger] map@.contains_key(c) && locked_name(locked@, c) is None implies {
            &&& (map@[c] as int) < key_names@.len()
            &&& forall|j: int| 0 <= j < unused@.len() ==> key_names@[map@[c] as int]@ != #[trigger] unused@[j]@
            &&& forall|j: int| 0 <= j < locked@.len() ==> key_names@[map@[c] as int]@ != #[trigger] locked@[j].1@
        } by {
            lemma_unpinned_letter_avoids_unused_and_pinned_keys(letters@, locked@, key_names@, unused@, c);
        }
    }
    map
}

/// Each of the available keys among the first `k` lies below `k` and may
/// take a letter that is not pinned.
proof fn lemma_available_members(
    names: Seq<String>,
    locked: Seq<(char, String)>,
    unused: Seq<String>,
    k: nat,
)
    requires
        k <= usize::MAX,
    ensures
        forall|i: int| 0 <= i < available_keys(names, locked, unused, k).len() ==> {
            let key = #[trigger] available_keys(names, locked, unused, k)[i];
            key < k && key_available(names, locked, unused, key as int)
        },
    decreases k,
{
    if k > 0 {
        let prev = available_keys(names, locked, unused, (k - 1) as nat);
        lemma_available_members(names, locked, unused, (k - 1) as nat);
        assert(available_keys(names, locked, unused, k) == if key_available(names, locked, unused, k - 1) {
            prev.push((k - 1) as usize)
        } else {
            prev
        });
        assert forall|i: int| 0 <= i < available_keys(names, locked, unused, k).len() implies {
            let key = #[trigger] available_keys(names, locked, unused, k)[i];
            key < k && key_available(names, locked, unused, key as int)
        } by {
            if i < prev.len() {
                assert(available_keys(names, locked, unused, k)[i] == prev[i]);
                let key = prev[i];
                assert(key < k - 1 && key_available(names, locked, unused, key as int));
            }
        }
    }
}

/// A pinned letter sits on the first key with the name it is pinned to,
/// where there is such a key.
pub proof fn lemma_pinned_letter_on_its_key(
    letters: Seq<char>,
    locked: Seq<(char, String)>,
    names: Seq<String>,
    unused: Seq<String>,
    c: char,
    name: Seq<char>,
    k: usize,
)
    requires
        letters.contains(c),
        locked_name(locked, c) == Some(name),
        first_named(names, name, 0) == Some(k),
    ensures
        char_key_map(letters, locked, names, unused).contains_key(c),
        char_key_map(letters, locked, names, unused)[c] == k,
    decreases letters.len(),
{
    if letters.last() != c {
        let i = choose|i: int| 0 <= i < letters.len() && letters[i] == c;
        assert(letters.drop_last()[i] == c);
        lemma_pinned_letter_on_its_key(letters.drop_last(), locked, names, unused, c, name, k);
    }
}

/// A letter that is not pinned sits on an available key: one that no letter
/// is pinned to and that is not listed as unused.
pub proof fn lemma_unpinned_letter_on_available_key(
    letters: Seq<char>,
    locked: Seq<(char, String)>,
    names: Seq<String>,
    unused: Seq<String>,
    c: char,
)
    requires
        names.len() <= usize::MAX,
        unpinned_count(letters, locked) <= available_keys(names, locked, unused, names.len()).len(),
        char_key_map(letters, locked, names, unused).contains_key(c),
        locked_name(locked, c) is None,
    ensures
        char_key_map(letters, locked, names, unused)[c] < names.len(),
        key_available(names, locked, unused, char_key_map(letters, locked, names, unused)[c] as int),
    decreases letters.len(),
{
    lemma_available_members(names, locked, unused, names.len());
    if letters.len() > 0 && letters.last() != c {
        lemma_unpinned_letter_on_available_key(letters.drop_last(), locked, names, unused, c);
    } else if letters.len() > 0 {
        let all = available_keys(names, locked, unused, names.len());
        let j = unpinned_count(letters.drop_last(), locked) as int;
        assert(0 <= j < all.len());
        assert(all[j] < names.len() && key_available(names, locked, unused, all[j] as int));
    }
}

/// A letter that is not pinned never sits on a key whose name is listed
/// among the unused keys, wherever in that list it stands, nor on a key
/// whose name some letter is pinned to.
pub proof fn lemma_unpinned_letter_avoids_unused_and_pinned_keys(
    letters: Seq<char>,
    locked: Seq<(char, String)>,
    names: Seq<String>,
    unused: Seq<String>,
    c: char,
)
    requires
        names.len() <= usize::MAX,
        unpinned_count(letters, locked) <= available_keys(names, locked, unused, names.len()).len(),
        char_key_map(letters, locked, names, unused).contains_key(c),
        locked_name(locked, c) is None,
    ensures
        ({
            let k = char_key_map(letters, locked, names, unused)[c] as int;
            &&& k < names.len()
            &&& forall|j: int| 0 <= j < unused.len() ==> names[k]@ != #[trigger] unused[j]@
            &&& forall|j: int| 0 <= j < locked.len() ==> names[k]@ != #[trigger] locked[j].1@
        }),
{
    lemma_unpinned_letter_on_available_key(letters, locked, names, unused, c);
    let k = char_key_map(letters, locked, names, unused)[c] as int;
    assert forall|j: int| 0 <= j < unused.len() implies names[k]@ != #[trigger] unused[j]@ by {
        if names[k]@ == unused[j]@ {
            assert(is_unused_key(unused, names[k]@));
        }
    }
    assert forall|j: int| 0 <= j < locked.len() implies names[k]@ != #[trigger] locked[j].1@ by {
        if names[k]@ == locked[j].1@ {
            assert(is_locked_key(locked, names[k]@));
        }
    }
}

/// The keys that letters that are not pinned take, in order: among the
/// first `n` keys, in increasing order, exactly those whose name no letter
/// is pinned to and that is listed nowhere among the unused keys.
pub proof fn lemma_available_keys_in_order(
    names: Seq<String>,
    locked: Seq<(char, String)>,
    unused: Seq<String>,
    n: nat,
)
    requires
        n <= names.len(),
        n <= usize::MAX,
    ensures
        forall|i: int, j: int| 0 <= i < j < available_keys(names, locked, unused, n).len()
            ==> #[trigger] available_keys(names, locked, unused, n)[i] < #[trigger] available_keys(names, locked, unused, n)[j],
        forall|i: int| 0 <= i < available_keys(names, locked, unused, n).len()
            ==> #[trigger] available_keys(names, locked, unused, n)[i] < n,
        forall|k: usize| k < n ==> (#[trigger] available_keys(names, locked, unused, n).contains(k) <==> {
            &&& forall|j: int| 0 <= j < unused.len() ==> names[k as int]@ != #[trigger] unused[j]@
            &&& forall|j: int| 0 <= j < locked.len() ==> names[k as int]@ != #[trigger] locked[j].1@
        }),
    decreases n,
{
    if n > 0 {
        let m = (n - 1) as nat;
        lemma_available_keys_in_order(names, locked, unused, m);
        let prev = available_keys(names, locked, unused, m);
        let cur = available_keys(names, locked, unused, n);
        assert(cur == if key_available(names, locked, unused, m as int) { prev.push(m as usize) } else { prev });
        assert forall|i: int| 0 <= i < cur.len() implies #[trigger] cur[i] < n by {
            if i < prev.len() {
                assert(cur[i] == prev[i]);
            }
        }
        assert forall|i: int, j: int| 0 <= i < j < cur.len() implies #[trigger] cur[i] < #[trigger] cur[j] by {
            assert(cur[i] == prev[i]);
            if j < prev.len() {
                assert(cur[j] == prev[j]);
            } else {
                assert(prev[i] < m);
            }
        }
        assert forall|k: usize| k < n implies (#[trigger] cur.contains(k) <==> {
            &&& forall|j: int| 0 <= j < unused.len() ==> names[k as int]@ != #[trigger] unused[j]@
            &&& forall|j: int| 0 <= j < locked.len() ==> names[k as int]@ != #[trigger] locked[j].1@
        }) by {
            let direct = {
                &&& forall|j: int| 0 <= j < unused.len() ==> names[k as int]@ != #[trigger] unused[j]@
                &&& forall|j: int| 0 <= j < locked.len() ==> names[k as int]@ != #[trigger] locked[j].1@
            };
            assert(key_available(names, locked, unused, k as int) <==> direct) by {
                if !direct {
                    if exists|j: int| 0 <= j < unused.len() && names[k as int]@ == #[trigger] unused[j]@ {
                        let j = choose|j: int| 0 <= j < unused.len() && names[k as int]@ == #[trigger] unused[j]@;
                        assert(unused[j]@ == names[k as int]@);
                    } else {
                        let j = choose|j: int| 0 <= j < locked.len() && names[k as int]@ == #[trigger] locked[j].1@;
                        assert(locked[j].1@ == names[k as int]@);
                    }
                }
            }
            if k < m {
                if cur.contains(k) {
                    let i = choose|i: int| 0 <= i < cur.len() && cur[i] == k;
                    if i < prev.len() {
                        assert(cur[i] == prev[i]);
                    }
                    assert(prev.contains(k));
                }
                if prev.contains(k) {
                    let i = choose|i: int| 0 <= i < prev.len() && prev[i] == k;
                    assert(cur[i] == prev[i]);
                    assert(cur.contains(k));
                }
            } else {
                assert(k == m);
                if key_available(names, locked, unused, m as int) {
                    assert(cur[cur.len() - 1] == k);
                    assert(cur.contains(k));
                } else {
                    if cur.contains(k) {
                        let i = choose|i: int| 0 <= i < cur.len() && cur[i] == k;
                        assert(prev[i] < m);
                    }
                }
            }
        }
    }
}

} // verus!
