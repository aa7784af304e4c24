use vstd::prelude::*;
use crate::keymap::{lemma_entries_map_at, placed_letters, KeyMap};
use crate::text::{push_char, push_text};
use crate::params::Parameters;
use crate::random::shuffle;

verus! {

/// Whether key `a` of a layout lies far enough from key `b` of the
/// reference layout, as the table `apart` records it in row `a`, column
/// `b`.  A key outside the table counts as too close.
pub open spec fn far_apart(apart: Seq<Vec<bool>>, a: usize, b: usize) -> bool {
    a < apart.len() && b < apart[a as int]@.len() && apart[a as int]@[b as int]
}

/// The assignment after the two letters of `pair` trade keys.
pub open spec fn swapped(m: Map<char, usize>, pair: (char, char)) -> Map<char, usize> {
    m.insert(pair.0, m[pair.1]).insert(pair.1, m[pair.0])
}

/// Letter `c` sits far enough from where the reference layout puts it.
pub open spec fn well_placed(
    m: Map<char, usize>,
    reference: Map<char, usize>,
    apart: Seq<Vec<bool>>,
    c: char,
) -> bool {
    far_apart(apart, m[c], reference[c])
}

/// Every letter of `letters` sits far enough from its reference key.
pub open spec fn all_well_placed(
    m: Map<char, usize>,
    reference: Map<char, usize>,
    apart: Seq<Vec<bool>>,
    letters: Seq<char>,
) -> bool {
    forall|i: int| 0 <= i < letters.len() ==> #[trigger] well_placed(m, reference, apart, letters[i])
}

/// A swap is legal when, after it, each of the two letters sits far enough
/// from where the reference layout puts it.
pub open spec fn swap_is_legal(
    m: Map<char, usize>,
    reference: Map<char, usize>,
    apart: Seq<Vec<bool>>,
    pair: (char, char),
) -> bool {
    &&& far_apart(apart, m[pair.1], reference[pair.0])
    &&& far_apart(apart, m[pair.0], reference[pair.1])
}

/// The assignment after the swaps of `swaps`, in order.
pub open spec fn after_swaps(m: Map<char, usize>, swaps: Seq<(char, char)>) -> Map<char, usize>
    decreases swaps.len(),
{
    if swaps.len() == 0 {
        m
    } else {
        swapped(after_swaps(m, swaps.drop_last()), swaps.last())
    }
}

/// Each swap of `swaps` is legal at the moment it is made.
pub open spec fn swaps_legal(
    m: Map<char, usize>,
    reference: Map<char, usize>,
    apart: Seq<Vec<bool>>,
    swaps: Seq<(char, char)>,
) -> bool
    decreases swaps.len(),
{
    swaps.len() == 0 || {
        &&& swaps_legal(m, reference, apart, swaps.drop_last())
        &&& swap_is_legal(after_swaps(m, swaps.drop_last()), reference, apart, swaps.last())
    }
}

/// Each swap of `swaps` trades two letters of `letters`.
pub open spec fn swaps_within(swaps: Seq<(char, char)>, letters: Seq<char>) -> bool {
    forall|i: int| #![trigger swaps[i]] 0 <= i < swaps.len() ==> letters.contains(swaps[i].0) && letters.contains(swaps[i].1)
}

/// `after` comes from `before` by legal swaps of letters of `letters`.
pub open spec fn reachable_by_legal_swaps(
    before: Map<char, usize>,
    after: Map<char, usize>,
    reference: Map<char, usize>,
    apart: Seq<Vec<bool>>,
    letters: Seq<char>,
) -> bool {
    exists|swaps: Seq<(char, char)>|
        #![trigger after_swaps(before, swaps)]
        {
            &&& swaps_legal(before, reference, apart, swaps)
            &&& swaps_within(swaps, letters)
            &&& after_swaps(before, swaps) == after
        }
}

/// A legal swap leaves every letter that was well placed well placed: the
/// two letters it moves land far enough from their reference keys, and the
/// others stay where they were.
pub proof fn lemma_legal_swap_keeps_placement(
    m: Map<char, usize>,
    reference: Map<char, usize>,
    apart: Seq<Vec<bool>>,
    pair: (char, char),
    c: char,
)
    requires
        swap_is_legal(m, reference, apart, pair),
        c == pair.0 || c == pair.1 || well_placed(m, reference, apart, c),
    ensures
        well_placed(swapped(m, pair), reference, apart, c),
{
}

/// A letter is well placed exactly when the table `apart` has an entry for
/// its key against its reference key, and that entry is true.
pub proof fn lemma_well_placed_reads_the_table(
    m: Map<char, usize>,
    reference: Map<char, usize>,
    apart: Seq<Vec<bool>>,
    c: char,
)
    ensures
        well_placed(m, reference, apart, c) <==> {
            &&& (m[c] as int) < apart.len()
            &&& (reference[c] as int) < apart[m[c] as int]@.len()
            &&& apart[m[c] as int]@[reference[c] as int]
        },
{
}

/// A swap is legal exactly when, after it, each of the two letters sits on
/// a key that the table `apart` marks as far from its own reference key:
/// the first letter on the second one's key, the second on the first one's.
/// Nothing else, such as how far apart the two letters' keys are, counts.
pub proof fn lemma_swap_is_legal_reads_the_table(
    m: Map<char, usize>,
    reference: Map<char, usize>,
    apart: Seq<Vec<bool>>,
    pair: (char, char),
)
    ensures
        swap_is_legal(m, reference, apart, pair) <==> {
            &&& (m[pair.1] as int) < apart.len()
            &&& (reference[pair.0] as int) < apart[m[pair.1] as int]@.len()
            &&& apart[m[pair.1] as int]@[reference[pair.0] as int]
            &&& (m[pair.0] as int) < apart.len()
            &&& (reference[pair.1] as int) < apart[m[pair.0] as int]@.len()
            &&& apart[m[pair.0] as int]@[reference[pair.1] as int]
        },
        swapped(m, pair)[pair.0] == m[pair.1],
        swapped(m, pair)[pair.1] == m[pair.0],
{
}

/// A swap after which both letters are well placed is legal, and a legal
/// swap leaves both letters well placed.
pub proof fn lemma_swap_legal_iff_both_land_well(
    m: Map<char, usize>,
    reference: Map<char, usize>,
    apart: Seq<Vec<bool>>,
    pair: (char, char),
)
    ensures
        swap_is_legal(m, reference, apart, pair) <==> {
            &&& well_placed(swapped(m, pair), reference, apart, pair.0)
            &&& well_placed(swapped(m, pair), reference, apart, pair.1)
        },
{
    lemma_swap_is_legal_reads_the_table(m, reference, apart, pair);
    lemma_well_placed_reads_the_table(swapped(m, pair), reference, apart, pair.0);
    lemma_well_placed_reads_the_table(swapped(m, pair), reference, apart, pair.1);
}

/// A sequence of legal swaps keeps a valid keyboard valid.
pub proof fn lemma_legal_swaps_keep_valid(
    m: Map<char, usize>,
    reference: Map<char, usize>,
    apart: Seq<Vec<bool>>,
    swaps: Seq<(char, char)>,
    letters: Seq<char>,
)
    requires
        swaps_legal(m, reference, apart, swaps),
        all_well_placed(m, reference, apart, letters),
    ensures
        all_well_placed(after_swaps(m, swaps), reference, apart, letters),
    decreases swaps.len(),
{
    if swaps.len() > 0 {
        let prev = swaps.drop_last();
        lemma_legal_swaps_keep_valid(m, reference, apart, prev, letters);
        let mid = after_swaps(m, prev);
        assert forall|i: int| 0 <= i < letters.len() implies #[trigger] well_placed(
            after_swaps(m, swaps),
            reference,
            apart,
            letters[i],
        ) by {
            assert(well_placed(mid, reference, apart, letters[i]));
            lemma_legal_swap_keeps_placement(mid, reference, apart, swaps.last(), letters[i]);
        }
    }
}

/// Trading the same two keys twice gives the assignment back.
pub proof fn lemma_swap_twice(m: Map<char, usize>, pair: (char, char))
    requires
        m.contains_key(pair.0),
        m.contains_key(pair.1),
    ensures
        swapped(swapped(m, pair), pair) == m,
        swapped(m, pair).dom() == m.dom(),
{
    assert(swapped(swapped(m, pair), pair) =~= m);
    assert(swapped(m, pair).dom() =~= m.dom());
}

/// Appending a legal swap extends a legal chain.
proof fn lemma_chain_push(
    m: Map<char, usize>,
    reference: Map<char, usize>,
    apart: Seq<Vec<bool>>,
    swaps: Seq<(char, char)>,
    pair: (char, char),
    letters: Seq<char>,
)
    requires
        swaps_legal(m, reference, apart, swaps),
        swaps_within(swaps, letters),
        swap_is_legal(after_swaps(m, swaps), reference, apart, pair),
        letters.contains(pair.0),
        letters.contains(pair.1),
    ensures
        swaps_legal(m, reference, apart, swaps.push(pair)),
        swaps_within(swaps.push(pair), letters),
        after_swaps(m, swaps.push(pair)) == swapped(after_swaps(m, swaps), pair),
{
    assert(swaps.push(pair).drop_last() =~= swaps);
    assert forall|i: int| #![trigger swaps.push(pair)[i]] 0 <= i < swaps.push(pair).len() implies letters.contains(
        swaps.push(pair)[i].0,
    ) && letters.contains(swaps.push(pair)[i].1) by {
        if i < swaps.len() {
            assert(swaps.push(pair)[i] == swaps[i]);
            assert(letters.contains(swaps[i].0) && letters.contains(swaps[i].1));
        } else {
            assert(swaps.push(pair)[i] == pair);
        }
    }
}

/// One legal swap of two letters of `letters` is a legal chain of swaps.
pub proof fn lemma_reachable_one_swap(
    m: Map<char, usize>,
    reference: Map<char, usize>,
    apart: Seq<Vec<bool>>,
    pair: (char, char),
    letters: Seq<char>,
)
    requires
        swap_is_legal(m, reference, apart, pair),
        letters.contains(pair.0),
        letters.contains(pair.1),
    ensures
        reachable_by_legal_swaps(m, swapped(m, pair), reference, apart, letters),
{
    let none = Seq::<(char, char)>::empty();
    assert(after_swaps(m, none) == m);
    assert(swaps_legal(m, reference, apart, none));
    lemma_chain_push(m, reference, apart, none, pair, letters);
    assert(after_swaps(m, none.push(pair)) == swapped(m, pair));
}

/// Makes the two letters of `pair` trade keys.
pub fn swap_keys(pair: &(char, char), key_map: &mut KeyMap)
    requires
        old(key_map).wf(),
        old(key_map)@.contains_key(pair.0),
        old(key_map)@.contains_key(pair.1),
    ensures
        final(key_map).wf(),
        final(key_map)@ == swapped(old(key_map)@, *pair),
        placed_letters(final(key_map).entries()) == placed_letters(old(key_map).entries()),
{
    let k0 = match key_map.get(pair.0) {
        Some(k) => k,
        None => { return; },
    };
    let k1 = match key_map.get(pair.1) {
        Some(k) => k,
        None => { return; },
    };
    key_map.insert(pair.0, k1);
    key_map.insert(pair.1, k0);
}

/// Reads the table `apart` at row `a`, column `b`.
fn is_far(apart: &Vec<Vec<bool>>, a: usize, b: usize) -> (r: bool)
    ensures
        r == far_apart(apart@, a, b),
{
    a < apart.len() && b < apart[a].len() && apart[a][b]
}

/// Whether trading the keys of `swap_pair` keeps both letters far enough
/// from where the reference layout `qwerty_key_map` puts them.
pub fn legal_swap(
    key_map: &KeyMap,
    qwerty_key_map: &KeyMap,
    swap_pair: &(char, char),
    apart: &Vec<Vec<bool>>,
) -> (legal: bool)
    requires
        key_map.wf(),
        qwerty_key_map.wf(),
        key_map@.contains_key(swap_pair.0),
        key_map@.contains_key(swap_pair.1),
        qwerty_key_map@.contains_key(swap_pair.0),
        qwerty_key_map@.contains_key(swap_pair.1),
    ensures
        legal == swap_is_legal(key_map@, qwerty_key_map@, apart@, *swap_pair),
        legal <==> {
            &&& (key_map@[swap_pair.1] as int) < apart@.len()
            &&& (qwerty_key_map@[swap_pair.0] as int) < apart@[key_map@[swap_pair.1] as int]@.len()
            &&& apart@[key_map@[swap_pair.1] as int]@[qwerty_key_map@[swap_pair.0] as int]
            &&& (key_map@[swap_pair.0] as int) < apart@.len()
            &&& (qwerty_key_map@[swap_pair.1] as int) < apart@[key_map@[swap_pair.0] as int]@.len()
            &&& apart@[key_map@[swap_pair.0] as int]@[qwerty_key_map@[swap_pair.1] as int]
        },
{
    // letter 0 would take the key that letter 1 has now, and the other way round
    let (Some(k0), Some(k1), Some(q0), Some(q1)) = (
        key_map.get(swap_pair.0),
        key_map.get(swap_pair.1),
        qwerty_key_map.get(swap_pair.0),
        qwerty_key_map.get(swap_pair.1),
    ) else {
        return false;
    };
    if !is_far(apart, k1, q0) {
        return false;
    }
    if !is_far(apart, k0, q1) {
        return false;
    }
    true
}

/// The pairs `(s[i], s[j])` with `i < j`, ordered by `i` and then by `j`.
pub open spec fn pairs_of(s: Seq<char>) -> Seq<(char, char)>
    decreases s.len(),
{
    if s.len() == 0 {
        Seq::<(char, char)>::empty()
    } else {
        s.drop_first().map_values(|d: char| (s[0], d)) + pairs_of(s.drop_first())
    }
}

/// The pairs of `s` are exactly the pairs of two letters at distinct
/// positions, the earlier one first.
pub proof fn lemma_pairs_of_members(s: Seq<char>)
    ensures
        forall|i: int, j: int| 0 <= i < j < s.len() ==> pairs_of(s).contains((s[i], s[j])),
        forall|k: int| 0 <= k < pairs_of(s).len() ==> exists|i: int, j: int|
            0 <= i < j < s.len() && #[trigger] pairs_of(s)[k] == (s[i], s[j]),
    decreases s.len(),
{
    if s.len() > 0 {
        let t = s.drop_first();
        let row = t.map_values(|d: char| (s[0], d));
        lemma_pairs_of_members(t);
        assert(pairs_of(s) == row + pairs_of(t));
        assert forall|i: int, j: int| 0 <= i < j < s.len() implies pairs_of(s).contains((s[i], s[j])) by {
            if i == 0 {
                assert(row[j - 1] == (s[i], s[j]));
                assert(pairs_of(s)[j - 1] == (s[i], s[j]));
            } else {
                assert(t[i - 1] == s[i] && t[j - 1] == s[j]);
                assert(pairs_of(t).contains((t[i - 1], t[j - 1])));
                let k = choose|k: int| 0 <= k < pairs_of(t).len() && pairs_of(t)[k] == (t[i - 1], t[j - 1]);
                assert(pairs_of(s)[row.len() + k] == (s[i], s[j]));
            }
        }
        assert forall|k: int| 0 <= k < pairs_of(s).len() implies exists|i: int, j: int|
            0 <= i < j < s.len() && #[trigger] pairs_of(s)[k] == (s[i], s[j]) by {
            if k < row.len() {
                assert(pairs_of(s)[k] == (s[0], s[k + 1]));
            } else {
                let k2 = k - row.len();
                assert(pairs_of(s)[k] == pairs_of(t)[k2]);
                let (i, j) = choose|i: int, j: int| 0 <= i < j < t.len() && #[trigger] pairs_of(t)[k2] == (t[i], t[j]);
                assert(pairs_of(s)[k] == (s[i + 1], s[j + 1]));
            }
        }
    }
}

/// A list of `n` letters has `n * (n - 1) / 2` pairs.
pub proof fn lemma_pairs_of_len(s: Seq<char>)
    ensures
        2 * pairs_of(s).len() == s.len() * (s.len() - 1),
    decreases s.len(),
{
    if s.len() > 0 {
        lemma_pairs_of_len(s.drop_first());
        let n = s.len() as int;
        assert(2 * pairs_of(s).len() == 2 * (n - 1) + (n - 1) * (n - 2));
        assert(2 * (n - 1) + (n - 1) * (n - 2) == n * (n - 1)) by (nonlinear_arith);
    }
}

/// All pairs of free letters, each pair once: `(free[i], free[j])` for
/// `i < j`, ordered by `i` and then by `j`.
pub fn get_swappable_pairs(par_struct: &Parameters) -> (swap_pairs: Vec<(char, char)>)
    ensures
        swap_pairs@ == pairs_of(par_struct.free_letters@),
{
    let free = &par_struct.free_letters;
    let n = free.len();
    let mut swap_pairs: Vec<(char, char)> = Vec::new();
    assert(free@.skip(0) =~= free@);
    assert(swap_pairs@ + pairs_of(free@.skip(0)) =~= pairs_of(free@));
    for i in 0..n
        invariant
            n == free@.len(),
            pairs_of(free@) == swap_pairs@ + pairs_of(free@.skip(i as int)),
    {
        let ghost before = swap_pairs@;
        let ghost rest = free@.skip(i as int);
        assert(rest.drop_first() =~= free@.skip(i + 1));
        assert(rest[0] == free@[i as int]);
        for j in (i + 1)..n
            invariant
                n == free@.len(),
                i < n,
                swap_pairs@ == before + free@.subrange(i + 1, j as int).map_values(|d: char| (free@[i as int], d)),
        {
            swap_pairs.push((free[i], free[j]));
            assert(free@.subrange(i + 1, j + 1).map_values(|d: char| (free@[i as int], d)) =~= free@.subrange(
                i + 1,
                j as int,
            ).map_values(|d: char| (free@[i as int], d)).push((free@[i as int], free@[j as int])));
        }
        assert(free@.subrange(i + 1, n as int) =~= rest.drop_first());
        assert(swap_pairs@ + pairs_of(free@.skip(i + 1)) =~= before + pairs_of(rest));
    }
    assert(free@.skip(n as int) =~= Seq::<char>::empty());
    assert(swap_pairs@ =~= pairs_of(free@));
    swap_pairs
}

/// Whether letter `c` sits far enough from its reference key.
fn letter_well_placed(
    key_map: &KeyMap,
    qwerty_key_map: &KeyMap,
    apart: &Vec<Vec<bool>>,
    c: char,
) -> (r: bool)
    requires
        key_map.wf(),
        qwerty_key_map.wf(),
        key_map@.contains_key(c),
        qwerty_key_map@.contains_key(c),
    ensures
        r == well_placed(key_map@, qwerty_key_map@, apart@, c),
        r <==> {
            &&& (key_map@[c] as int) < apart@.len()
            &&& (qwerty_key_map@[c] as int) < apart@[key_map@[c] as int]@.len()
            &&& apart@[key_map@[c] as int]@[qwerty_key_map@[c] as int]
        },
{
    match (key_map.get(c), qwerty_key_map.get(c)) {
        (Some(k), Some(q)) => is_far(apart, k, q),
        _ => false,
    }
}

/// Pair `p` moves letter `c`.
pub open spec fn moves(p: (char, char), c: char) -> bool {
    p.0 == c || p.1 == c
}

/// The first pair of `pairs` that moves `c` and may legally be swapped.
fn find_legal_pair(
    pairs: &Vec<(char, char)>,
    c: char,
    key_map: &KeyMap,
    qwerty_key_map: &KeyMap,
    apart: &Vec<Vec<bool>>,
    letters: Ghost<Seq<char>>,
) -> (r: Option<usize>)
    requires
        key_map.wf(),
        qwerty_key_map.wf(),
        forall|k: int| #![trigger pairs@[k]] 0 <= k < pairs@.len() ==> letters@.contains(pairs@[k].0) && letters@.contains(pairs@[k].1),
        forall|i: int| 0 <= i < letters@.len() ==> key_map@.contains_key(#[trigger] letters@[i]) && qwerty_key_map@.contains_key(letters@[i]),
    ensures
        match r {
            Some(k) => k < pairs@.len() && moves(pairs@[k as int], c)
                && swap_is_legal(key_map@, qwerty_key_map@, apart@, pairs@[k as int]),
            None => forall|k: int| 0 <= k < pairs@.len() && #[trigger] moves(pairs@[k], c)
                ==> !swap_is_legal(key_map@, qwerty_key_map@, apart@, pairs@[k]),
        },
{
    let mut swap_counter: usize = 0;
    while swap_counter < pairs.len()
        invariant
            swap_counter <= pairs@.len(),
            key_map.wf(),
            qwerty_key_map.wf(),
            forall|k: int| #![trigger pairs@[k]] 0 <= k < pairs@.len() ==> letters@.contains(pairs@[k].0) && letters@.contains(pairs@[k].1),
            forall|i: int| 0 <= i < letters@.len() ==> key_map@.contains_key(#[trigger] letters@[i]) && qwerty_key_map@.contains_key(letters@[i]),
            forall|k: int| 0 <= k < swap_counter && #[trigger] moves(pairs@[k], c)
                ==> !swap_is_legal(key_map@, qwerty_key_map@, apart@, pairs@[k]),
        decreases pairs@.len() - swap_counter,
    {
        let pair = pairs[swap_counter];
        if c == pair.0 || c == pair.1 {
            proof {
                assert(pairs@[swap_counter as int] == pair);
                let i0 = choose|i: int| 0 <= i < letters@.len() && letters@[i] == pair.0;
                let i1 = choose|i: int| 0 <= i < letters@.len() && letters@[i] == pair.1;
                assert(key_map@.contains_key(letters@[i0]));
                assert(key_map@.contains_key(letters@[i1]));
            }
            if legal_swap(key_map, qwerty_key_map, &pair, apart) {
                return Some(swap_counter);
            }
        }
        swap_counter = swap_counter + 1;
    }
    None
}

/// Each pair of a reordering of the pairs of `free` trades two letters of
/// `free`.
proof fn lemma_reordered_pairs(shuffled: Seq<(char, char)>, free: Seq<char>)
    requires
        shuffled.to_multiset() == pairs_of(free).to_multiset(),
    ensures
        forall|k: int| #![trigger shuffled[k]] 0 <= k < shuffled.len() ==> free.contains(shuffled[k].0) && free.contains(shuffled[k].1),
        forall|p: (char, char)| #[trigger] pairs_of(free).contains(p) ==> shuffled.contains(p),
{
    broadcast use vstd::seq_lib::group_to_multiset_ensures;
    lemma_pairs_of_members(free);
    assert forall|k: int| #![trigger shuffled[k]] 0 <= k < shuffled.len() implies free.contains(shuffled[k].0) && free.contains(shuffled[k].1) by {
        assert(shuffled.contains(shuffled[k]));
        assert(shuffled.to_multiset().count(shuffled[k]) > 0);
        assert(pairs_of(free).to_multiset().count(shuffled[k]) > 0);
        assert(pairs_of(free).contains(shuffled[k]));
        let m = choose|m: int| 0 <= m < pairs_of(free).len() && pairs_of(free)[m] == shuffled[k];
        let (i, j) = choose|i: int, j: int| 0 <= i < j < free.len() && #[trigger] pairs_of(free)[m] == (free[i], free[j]);
        assert(free[i] == shuffled[k].0 && free[j] == shuffled[k].1);
    }
    assert forall|p: (char, char)| #[trigger] pairs_of(free).contains(p) implies shuffled.contains(p) by {
        assert(pairs_of(free).to_multiset().count(p) > 0);
        assert(shuffled.to_multiset().count(p) > 0);
    }
}

/// The assignment after a run of `make_valid_keyboard` over the first
/// `choices.len()` free letters: for each letter in turn, `None` leaves the
/// keys as they are and `Some(pair)` makes that swap.
pub open spec fn fix_run_map(
    m: Map<char, usize>,
    choices: Seq<Option<(char, char)>>,
) -> Map<char, usize>
    decreases choices.len(),
{
    if choices.len() == 0 {
        m
    } else {
        let prev = fix_run_map(m, choices.drop_last());
        match choices.last() {
            Some(pair) => swapped(prev, pair),
            None => prev,
        }
    }
}

/// `choices` is what a run of `make_valid_keyboard` may do with the first
/// `choices.len()` free letters: a letter that sits far enough from its
/// reference key when its turn comes is left alone, and any other letter
/// is moved by a legal swap with another free letter.
pub open spec fn fix_run_ok(
    m: Map<char, usize>,
    reference: Map<char, usize>,
    apart: Seq<Vec<bool>>,
    free: Seq<char>,
    choices: Seq<Option<(char, char)>>,
) -> bool
    decreases choices.len(),
{
    choices.len() == 0 || {
        let t = choices.len() - 1;
        let prev = fix_run_map(m, choices.drop_last());
        &&& fix_run_ok(m, reference, apart, free, choices.drop_last())
        &&& match choices.last() {
            None => well_placed(prev, reference, apart, free[t]),
            Some(pair) => {
                &&& !well_placed(prev, reference, apart, free[t])
                &&& moves(pair, free[t])
                &&& pairs_of(free).contains(pair)
                &&& swap_is_legal(prev, reference, apart, pair)
            },
        }
    }
}

/// Why a keyboard could not be made valid: `letter` sits too close to its
/// reference key and no legal swap moves it.
pub struct InvalidKeyboard {
    pub letter: char,
}

/// Moves every free letter that sits too close to its reference key, by
/// a legal swap with another free letter taken in random order.  A letter
/// that no legal swap can move makes the keyboard impossible to fix.
pub fn make_valid_keyboard(
    par_struct: &Parameters,
    key_map: &mut KeyMap,
    qwerty_key_map: &KeyMap,
    apart: &Vec<Vec<bool>>,
) -> (r: Result<(), InvalidKeyboard>)
    requires
        old(key_map).wf(),
        qwerty_key_map.wf(),
        forall|i: int| 0 <= i < par_struct.free_letters@.len() ==> old(key_map)@.contains_key(
            #[trigger] par_struct.free_letters@[i],
        ) && qwerty_key_map@.contains_key(par_struct.free_letters@[i]),
    ensures
        final(key_map).wf(),
        placed_letters(final(key_map).entries()) == placed_letters(old(key_map).entries()),
        reachable_by_legal_swaps(old(key_map)@, final(key_map)@, qwerty_key_map@, apart@, par_struct.free_letters@),
        r is Ok ==> all_well_placed(final(key_map)@, qwerty_key_map@, apart@, par_struct.free_letters@),
        r is Ok ==> forall|i: int| 0 <= i < par_struct.free_letters@.len() ==> {
            let c = #[trigger] par_struct.free_letters@[i];
            &&& (final(key_map)@[c] as int) < apart@.len()
            &&& (qwerty_key_map@[c] as int) < apart@[final(key_map)@[c] as int]@.len()
            &&& apart@[final(key_map)@[c] as int]@[qwerty_key_map@[c] as int]
        },
        exists|choices: Seq<Option<(char, char)>>|
            #![trigger fix_run_map(old(key_map)@, choices)]
            {
                &&& fix_run_ok(old(key_map)@, qwerty_key_map@, apart@, par_struct.free_letters@, choices)
                &&& fix_run_map(old(key_map)@, choices) == final(key_map)@
                &&& r is Ok ==> choices.len() == par_struct.free_letters@.len()
                &&& r matches Err(e) ==> choices.len() < par_struct.free_letters@.len()
                    && par_struct.free_letters@[choices.len() as int] == e.letter
            },
        r matches Err(e) ==> {
            &&& !well_placed(final(key_map)@, qwerty_key_map@, apart@, e.letter)
            &&& forall|p: (char, char)| #[trigger] pairs_of(par_struct.free_letters@).contains(p) && moves(p, e.letter)
                ==> !swap_is_legal(final(key_map)@, qwerty_key_map@, apart@, p)
        },
{
    let free = &par_struct.free_letters;
    let ghost start = old(key_map)@;
    let ghost start_letters = placed_letters(old(key_map).entries());
    let mut swappable_pairs = get_swappable_pairs(par_struct);
    let ghost mut swaps: Seq<(char, char)> = Seq::empty();
    let ghost mut choices: Seq<Option<(char, char)>> = Seq::empty();
    let n = free.len();
    for ci in 0..n
        invariant
            choices.len() == ci,
            fix_run_ok(start, qwerty_key_map@, apart@, free@, choices),
            fix_run_map(start, choices) == key_map@,
            n == free@.len(),
            free@ == par_struct.free_letters@,
            start == old(key_map)@,
            start_letters == placed_letters(old(key_map).entries()),
            key_map.wf(),
            qwerty_key_map.wf(),
            placed_letters(key_map.entries()) == start_letters,
            forall|i: int| 0 <= i < free@.len() ==> key_map@.contains_key(#[trigger] free@[i])
                && qwerty_key_map@.contains_key(free@[i]),
            swaps_legal(start, qwerty_key_map@, apart@, swaps),
            swaps_within(swaps, free@),
            after_swaps(start, swaps) == key_map@,
            forall|j: int| 0 <= j < ci ==> #[trigger] well_placed(key_map@, qwerty_key_map@, apart@, free@[j]),
            swappable_pairs@.to_multiset() == pairs_of(free@).to_multiset(),
    {
        let c = free[ci];
        let ghost before_choices = choices;
        proof {
            assert(choices.push(None).drop_last() =~= choices);
        }
        if !letter_well_placed(key_map, qwerty_key_map, apart, c) {
            shuffle(&mut swappable_pairs);
            proof { lemma_reordered_pairs(swappable_pairs@, free@); }
            match find_legal_pair(&swappable_pairs, c, key_map, qwerty_key_map, apart, Ghost(free@)) {
                Some(k) => {
                    let pair = swappable_pairs[k];
                    let ghost before = key_map@;
                    proof {
                        assert(swappable_pairs@[k as int] == pair);
                        lemma_chain_push(start, qwerty_key_map@, apart@, swaps, pair, free@);
                        let i0 = choose|i: int| 0 <= i < free@.len() && free@[i] == pair.0;
                        let i1 = choose|i: int| 0 <= i < free@.len() && free@[i] == pair.1;
                        assert(key_map@.contains_key(free@[i0]));
                        assert(key_map@.contains_key(free@[i1]));
                    }
                    swap_keys(&pair, key_map);
                    proof {
                        assert(choices.push(Some(pair)).drop_last() =~= choices);
                        assert(pairs_of(free@).contains(pair)) by {
                            broadcast use vstd::seq_lib::group_to_multiset_ensures;
                            assert(swappable_pairs@.contains(pair));
                            assert(swappable_pairs@.to_multiset().count(pair) > 0);
                            assert(pairs_of(free@).to_multiset().count(pair) > 0);
                        }
                        choices = choices.push(Some(pair));
                        swaps = swaps.push(pair);
                        assert forall|j: int| 0 <= j <= ci implies #[trigger] well_placed(
                            key_map@,
                            qwerty_key_map@,
                            apart@,
                            free@[j],
                        ) by {
                            lemma_legal_swap_keeps_placement(before, qwerty_key_map@, apart@, pair, free@[j]);
                        }
                        assert forall|i: int| 0 <= i < free@.len() implies key_map@.contains_key(#[trigger] free@[i])
                            && qwerty_key_map@.contains_key(free@[i]) by {
                            assert(before.contains_key(free@[i]));
                        }
                    }
                },
                None => {
                    proof {
                        assert(free@[ci as int] == c);
                        assert forall|p: (char, char)| #[trigger] pairs_of(free@).contains(p) && moves(p, c)
                            implies !swap_is_legal(key_map@, qwerty_key_map@, apart@, p) by {
                            let k = choose|k: int| 0 <= k < swappable_pairs@.len() && swappable_pairs@[k] == p;
                            assert(moves(swappable_pairs@[k], c));
                        }
                        assert(after_swaps(start, swaps) == key_map@);
                        assert(fix_run_map(start, choices) == key_map@);
                        assert(reachable_by_legal_swaps(start, key_map@, qwerty_key_map@, apart@, free@));
                    }
                    return Err(InvalidKeyboard { letter: c });
                },
            }
        } else {
            proof {
                choices = choices.push(None);
            }
        }
    }
    assert(after_swaps(start, swaps) == key_map@);
    assert(fix_run_map(start, choices) == key_map@);
    proof {
        assert forall|i: int| 0 <= i < free@.len() implies {
            let c = #[trigger] free@[i];
            &&& (key_map@[c] as int) < apart@.len()
            &&& (qwerty_key_map@[c] as int) < apart@[key_map@[c] as int]@.len()
            &&& apart@[key_map@[c] as int]@[qwerty_key_map@[c] as int]
        } by {
            assert(well_placed(key_map@, qwerty_key_map@, apart@, free@[i]));
            lemma_well_placed_reads_the_table(key_map@, qwerty_key_map@, apart@, free@[i]);
        }
    }
    Ok(())
}

/// Whatever is reached from a valid keyboard by legal swaps is valid.
pub proof fn lemma_reachable_keeps_valid(
    before: Map<char, usize>,
    after: Map<char, usize>,
    reference: Map<char, usize>,
    apart: Seq<Vec<bool>>,
    movable: Seq<char>,
    letters: Seq<char>,
)
    requires
        reachable_by_legal_swaps(before, after, reference, apart, movable),
        all_well_placed(before, reference, apart, letters),
    ensures
        all_well_placed(after, reference, apart, letters),
{
    let swaps = choose|swaps: Seq<(char, char)>|
        #![trigger after_swaps(before, swaps)]
        {
            &&& swaps_legal(before, reference, apart, swaps)
            &&& swaps_within(swaps, movable)
            &&& after_swaps(before, swaps) == after
        };
    lemma_legal_swaps_keep_valid(before, reference, apart, swaps, letters);
}

/// The assignment after trading, for each position `i` of `new_inds` in
/// turn, the keys of `free[i]` and `free[new_inds[i]]`, where that trade is
/// legal at the time.
pub open spec fn index_swaps(
    m: Map<char, usize>,
    reference: Map<char, usize>,
    apart: Seq<Vec<bool>>,
    free: Seq<char>,
    new_inds: Seq<u8>,
) -> Map<char, usize>
    decreases new_inds.len(),
{
    if new_inds.len() == 0 {
        m
    } else {
        let prev = index_swaps(m, reference, apart, free, new_inds.drop_last());
        let pair = (free[new_inds.len() - 1], free[new_inds.last() as int]);
        if swap_is_legal(prev, reference, apart, pair) {
            swapped(prev, pair)
        } else {
            prev
        }
    }
}

/// The positions `0, 1, ..., n - 1` of a list of `n` letters.
pub open spec fn positions(n: nat) -> Seq<u8> {
    Seq::new(n, |i: int| i as u8)
}

/// For each position `i` of `new_inds` in turn, trades the keys of
/// `free_letters[i]` and `free_letters[new_inds[i]]` where the trade is
/// legal.
pub fn swap_by_indices(
    key_map: &mut KeyMap,
    qwerty_key_map: &KeyMap,
    par_struct: &Parameters,
    apart: &Vec<Vec<bool>>,
    new_inds: &Vec<u8>,
)
    requires
        old(key_map).wf(),
        qwerty_key_map.wf(),
        new_inds@.len() <= par_struct.free_letters@.len(),
        forall|i: int| 0 <= i < new_inds@.len() ==> #[trigger] new_inds@[i] < par_struct.free_letters@.len(),
        forall|i: int| 0 <= i < par_struct.free_letters@.len() ==> old(key_map)@.contains_key(
            #[trigger] par_struct.free_letters@[i],
        ) && qwerty_key_map@.contains_key(par_struct.free_letters@[i]),
    ensures
        final(key_map).wf(),
        placed_letters(final(key_map).entries()) == placed_letters(old(key_map).entries()),
        final(key_map)@ == index_swaps(old(key_map)@, qwerty_key_map@, apart@, par_struct.free_letters@, new_inds@),
        reachable_by_legal_swaps(old(key_map)@, final(key_map)@, qwerty_key_map@, apart@, par_struct.free_letters@),
{
    let free = &par_struct.free_letters;
    let ghost start = key_map@;
    let ghost mut swaps: Seq<(char, char)> = Seq::empty();
    for i in 0..new_inds.len()
        invariant
            free@ == par_struct.free_letters@,
            start == old(key_map)@,
            placed_letters(key_map.entries()) == placed_letters(old(key_map).entries()),
            key_map.wf(),
            qwerty_key_map.wf(),
            new_inds@.len() <= free@.len(),
            forall|i: int| 0 <= i < new_inds@.len() ==> #[trigger] new_inds@[i] < free@.len(),
            forall|i: int| 0 <= i < free@.len() ==> key_map@.contains_key(#[trigger] free@[i])
                && qwerty_key_map@.contains_key(free@[i]),
            key_map@ == index_swaps(start, qwerty_key_map@, apart@, free@, new_inds@.take(i as int)),
            swaps_legal(start, qwerty_key_map@, apart@, swaps),
            swaps_within(swaps, free@),
            after_swaps(start, swaps) == key_map@,
    {
        let j = new_inds[i] as usize;
        let swap_pair: (char, char) = (free[i], free[j]);
        let ghost before = key_map@;
        proof {
            assert(new_inds@.take(i + 1).drop_last() =~= new_inds@.take(i as int));
            assert(key_map@.contains_key(free@[i as int]));
            assert(key_map@.contains_key(free@[j as int]));
            assert(qwerty_key_map@.contains_key(free@[i as int]));
            assert(qwerty_key_map@.contains_key(free@[j as int]));
            assert(free@.contains(swap_pair.0));
            assert(free@.contains(swap_pair.1));
        }
        // make sure that the swap would not bring a letter too close to its
        // reference position
        if legal_swap(key_map, qwerty_key_map, &swap_pair, apart) {
            proof { lemma_chain_push(start, qwerty_key_map@, apart@, swaps, swap_pair, free@); }
            swap_keys(&swap_pair, key_map);
            proof {
                swaps = swaps.push(swap_pair);
                assert forall|k: int| 0 <= k < free@.len() implies key_map@.contains_key(#[trigger] free@[k])
                    && qwerty_key_map@.contains_key(free@[k]) by {
                    assert(before.contains_key(free@[k]));
                }
            }
        }
    }
    proof {
        assert(new_inds@.take(new_inds@.len() as int) =~= new_inds@);
        assert(after_swaps(start, swaps) == key_map@);
    }
}

/// Trades keys among the free letters in a random order: the positions of
/// the free letters are shuffled, and each letter trades keys with the
/// letter at its shuffled position where that trade is legal.
pub fn shuffle_keys(
    key_map: &mut KeyMap,
    qwerty_key_map: &KeyMap,
    par_struct: &Parameters,
    apart: &Vec<Vec<bool>>,
)
    requires
        old(key_map).wf(),
        qwerty_key_map.wf(),
        par_struct.free_letters@.len() <= 256,
        forall|i: int| 0 <= i < par_struct.free_letters@.len() ==> old(key_map)@.contains_key(
            #[trigger] par_struct.free_letters@[i],
        ) && qwerty_key_map@.contains_key(par_struct.free_letters@[i]),
    ensures
        final(key_map).wf(),
        placed_letters(final(key_map).entries()) == placed_letters(old(key_map).entries()),
        exists|new_inds: Seq<u8>|
            #![trigger index_swaps(old(key_map)@, qwerty_key_map@, apart@, par_struct.free_letters@, new_inds)]
            {
                &&& new_inds.to_multiset() == positions(par_struct.free_letters@.len()).to_multiset()
                &&& final(key_map)@ == index_swaps(old(key_map)@, qwerty_key_map@, apart@, par_struct.free_letters@, new_inds)
            },
        reachable_by_legal_swaps(old(key_map)@, final(key_map)@, qwerty_key_map@, apart@, par_struct.free_letters@),
{
    let n = par_struct.free_letters.len();
    let mut new_inds: Vec<u8> = Vec::new();
    for i in 0..n
        invariant
            n == par_struct.free_letters@.len(),
            n <= 256,
            new_inds@ == positions(i as nat),
    {
        new_inds.push(i as u8);
        assert(new_inds@ =~= positions((i + 1) as nat));
    }
    let ghost ordered = new_inds@;
    shuffle(&mut new_inds);
    proof {
        broadcast use vstd::seq_lib::group_to_multiset_ensures;
        assert forall|i: int| 0 <= i < new_inds@.len() implies #[trigger] new_inds@[i] < n by {
            assert(new_inds@.contains(new_inds@[i]));
            assert(new_inds@.to_multiset().count(new_inds@[i]) > 0);
            assert(ordered.to_multiset().count(new_inds@[i]) > 0);
            assert(ordered.contains(new_inds@[i]));
        }
    }
    swap_by_indices(key_map, qwerty_key_map, par_struct, apart, &new_inds);
}

/// The layout as text: a line `letter key-name` for each placed letter, in
/// the order of the placements.
pub open spec fn layout_text(entries: Seq<(char, usize)>, names: Seq<String>) -> Seq<char>
    decreases entries.len(),
{
    if entries.len() == 0 {
        Seq::empty()
    } else {
        layout_text(entries.drop_last(), names) + seq![entries.last().0, ' '] + names[entries.last().1 as int]@
            + seq!['\n']
    }
}

/// The text of a layout is its lines one after the other, in order, each
/// line the letter, a space, the name of its key and a line break.
pub proof fn lemma_layout_text_lines(a: Seq<(char, usize)>, b: Seq<(char, usize)>, names: Seq<String>, c: char, k: usize)
    ensures
        layout_text(a + b, names) == layout_text(a, names) + layout_text(b, names),
        layout_text(seq![(c, k)], names) == seq![c, ' '] + names[k as int]@ + seq!['\n'],
    decreases b.len(),
{
    let one = seq![(c, k)];
    assert(one.drop_last() =~= Seq::<(char, usize)>::empty());
    assert(layout_text(Seq::<(char, usize)>::empty(), names) == Seq::<char>::empty());
    assert(layout_text(one, names) =~= seq![c, ' '] + names[k as int]@ + seq!['\n']);
    if b.len() == 0 {
        assert(a + b =~= a);
        assert(layout_text(a, names) + layout_text(b, names) =~= layout_text(a, names));
    } else {
        lemma_layout_text_lines(a, b.drop_last(), names, c, k);
        assert((a + b).drop_last() =~= a + b.drop_last());
        assert((a + b).last() == b.last());
        assert(layout_text(a + b, names) =~= layout_text(a, names) + layout_text(b, names));
    }
}

/// The layout as text, one line per letter: the letter, a space and the
/// name of its key.
pub fn stringify_map(key_map: &KeyMap, key_names: &Vec<String>) -> (data: String)
    requires
        key_map.wf(),
        forall|c: char| #[trigger] key_map@.contains_key(c) ==> key_map@[c] < key_names@.len(),
    ensures
        data@ == layout_text(key_map.entries(), key_names@),
{
    let entries = key_map.as_pairs();
    let mut data = String::new();
    for i in 0..entries.len()
        invariant
            entries@ == key_map.entries(),
            key_map.wf(),
            forall|c: char| #[trigger] key_map@.contains_key(c) ==> key_map@[c] < key_names@.len(),
            data@ == layout_text(entries@.take(i as int), key_names@),
    {
        let (letter, key) = entries[i];
        proof {
            lemma_entries_map_at(key_map.entries(), i as int);
            assert(key_map@.contains_key(letter));
        }
        push_char(&mut data, letter);
        push_char(&mut data, ' ');
        push_text(&mut data, &key_names[key]);
        push_char(&mut data, '\n');
        proof {
            let t = entries@.take(i + 1);
            assert(t.drop_last() =~= entries@.take(i as int));
            assert(t.last() == entries@[i as int]);
            assert(data@ =~= layout_text(t, key_names@));
        }
    }
    assert(entries@.take(entries@.len() as int) =~= entries@);
    data
}

/// Swaps among `letters` leave every other letter on its key and, when
/// they only trade placed letters, place the same letters.
pub proof fn lemma_swaps_keep_others(m: Map<char, usize>, swaps: Seq<(char, char)>, letters: Seq<char>)
    requires
        swaps_within(swaps, letters),
        forall|i: int| 0 <= i < letters.len() ==> m.contains_key(#[trigger] letters[i]),
    ensures
        after_swaps(m, swaps).dom() == m.dom(),
        forall|c: char| #[trigger] m.contains_key(c) && !letters.contains(c) ==> after_swaps(m, swaps)[c] == m[c],
    decreases swaps.len(),
{
    if swaps.len() > 0 {
        let prev = swaps.drop_last();
        assert forall|i: int| #![trigger prev[i]] 0 <= i < prev.len() implies letters.contains(prev[i].0)
            && letters.contains(prev[i].1) by {
            assert(prev[i] == swaps[i]);
        }
        lemma_swaps_keep_others(m, prev, letters);
        let p = swaps.last();
        assert(swaps[swaps.len() - 1] == p);
        let i0 = choose|i: int| 0 <= i < letters.len() && letters[i] == p.0;
        let i1 = choose|i: int| 0 <= i < letters.len() && letters[i] == p.1;
        assert(m.contains_key(letters[i0]) && m.contains_key(letters[i1]));
        assert(after_swaps(m, swaps).dom() =~= m.dom());
    }
}

/// What legal swaps of free letters reach places the same letters, and
/// every letter that is not free, such as a locked letter, stays on its key.
pub proof fn lemma_reachable_keeps_others(
    before: Map<char, usize>,
    after: Map<char, usize>,
    reference: Map<char, usize>,
    apart: Seq<Vec<bool>>,
    letters: Seq<char>,
    c: char,
)
    requires
        reachable_by_legal_swaps(before, after, reference, apart, letters),
        forall|i: int| 0 <= i < letters.len() ==> before.contains_key(#[trigger] letters[i]),
    ensures
        after.dom() == before.dom(),
        before.contains_key(c) && !letters.contains(c) ==> after[c] == before[c],
{
    let swaps = choose|swaps: Seq<(char, char)>|
        #![trigger after_swaps(before, swaps)]
        {
            &&& swaps_legal(before, reference, apart, swaps)
            &&& swaps_within(swaps, letters)
            &&& after_swaps(before, swaps) == after
        };
    lemma_swaps_keep_others(before, swaps, letters);
}

/// Every assignment is reached from itself, by no swaps.
pub proof fn lemma_reachable_refl(
    m: Map<char, usize>,
    reference: Map<char, usize>,
    apart: Seq<Vec<bool>>,
    letters: Seq<char>,
)
    ensures
        reachable_by_legal_swaps(m, m, reference, apart, letters),
{
    let none = Seq::<(char, char)>::empty();
    assert(after_swaps(m, none) == m);
    assert(swaps_legal(m, reference, apart, none));
}

/// Running two sequences of swaps one after the other is running their
/// concatenation.
proof fn lemma_swaps_concat(
    m: Map<char, usize>,
    reference: Map<char, usize>,
    apart: Seq<Vec<bool>>,
    first: Seq<(char, char)>,
    second: Seq<(char, char)>,
)
    ensures
        after_swaps(m, first + second) == after_swaps(after_swaps(m, first), second),
        swaps_legal(m, reference, apart, first) && swaps_legal(after_swaps(m, first), reference, apart, second)
            ==> swaps_legal(m, reference, apart, first + second),
    decreases second.len(),
{
    if second.len() == 0 {
        assert(first + second =~= first);
    } else {
        lemma_swaps_concat(m, reference, apart, first, second.drop_last());
        assert((first + second).drop_last() =~= first + second.drop_last());
        assert((first + second).last() == second.last());
    }
}

/// Legal swaps of `letters` after legal swaps of `letters` are legal swaps
/// of `letters`.
pub proof fn lemma_reachable_trans(
    a: Map<char, usize>,
    b: Map<char, usize>,
    c: Map<char, usize>,
    reference: Map<char, usize>,
    apart: Seq<Vec<bool>>,
    letters: Seq<char>,
)
    requires
        reachable_by_legal_swaps(a, b, reference, apart, letters),
        reachable_by_legal_swaps(b, c, reference, apart, letters),
    ensures
        reachable_by_legal_swaps(a, c, reference, apart, letters),
{
    let s1 = choose|swaps: Seq<(char, char)>|
        #![trigger after_swaps(a, swaps)]
        {
            &&& swaps_legal(a, reference, apart, swaps)
            &&& swaps_within(swaps, letters)
            &&& after_swaps(a, swaps) == b
        };
    let s2 = choose|swaps: Seq<(char, char)>|
        #![trigger after_swaps(b, swaps)]
        {
            &&& swaps_legal(b, reference, apart, swaps)
            &&& swaps_within(swaps, letters)
            &&& after_swaps(b, swaps) == c
        };
    lemma_swaps_concat(a, reference, apart, s1, s2);
    let s = s1 + s2;
    assert forall|i: int| #![trigger s[i]] 0 <= i < s.len() implies letters.contains(s[i].0) && letters.contains(
        s[i].1,
    ) by {
        if i < s1.len() {
            assert(s[i] == s1[i]);
        } else {
            assert(s[i] == s2[i - s1.len()]);
        }
    }
    assert(after_swaps(a, s) == c);
}

/// `sigma` rearranges `letters`: it maps exactly the letters of `letters`,
/// to letters of `letters`, no two to the same one.
pub open spec fn permutes(sigma: Map<char, char>, letters: Seq<char>) -> bool {
    &&& forall|c: char| #[trigger] sigma.contains_key(c) <==> letters.contains(c)
    &&& forall|c: char| #[trigger] sigma.contains_key(c) ==> letters.contains(sigma[c])
    &&& forall|c: char, d: char| #[trigger] sigma.contains_key(c) && #[trigger] sigma.contains_key(d) && c != d
        ==> sigma[c] != sigma[d]
}

/// Swaps of `letters` only rearrange the keys that those letters hold:
/// each letter ends on the starting key of some letter, no two on the key
/// of the same letter.
pub proof fn lemma_swaps_permute_keys(m: Map<char, usize>, swaps: Seq<(char, char)>, letters: Seq<char>)
    requires
        swaps_within(swaps, letters),
    ensures
        exists|sigma: Map<char, char>|
            #![trigger permutes(sigma, letters)]
            permutes(sigma, letters) && forall|c: char| #[trigger] letters.contains(c)
                ==> after_swaps(m, swaps)[c] == m[sigma[c]],
    decreases swaps.len(),
{
    if swaps.len() == 0 {
        let sigma = Map::new(|c: char| letters.contains(c), |c: char| c);
        assert(permutes(sigma, letters));
        assert forall|c: char| #[trigger] letters.contains(c) implies after_swaps(m, swaps)[c] == m[sigma[c]] by {}
    } else {
        let prev = swaps.drop_last();
        assert forall|i: int| #![trigger prev[i]] 0 <= i < prev.len() implies letters.contains(prev[i].0)
            && letters.contains(prev[i].1) by {
            assert(prev[i] == swaps[i]);
        }
        lemma_swaps_permute_keys(m, prev, letters);
        let s = choose|sigma: Map<char, char>|
            #![trigger permutes(sigma, letters)]
            permutes(sigma, letters) && forall|c: char| #[trigger] letters.contains(c)
                ==> after_swaps(m, prev)[c] == m[sigma[c]];
        let p = swaps.last();
        assert(swaps[swaps.len() - 1] == p);
        assert(letters.contains(p.0) && letters.contains(p.1));
        assert(s.contains_key(p.0) && s.contains_key(p.1));
        let t = s.insert(p.0, s[p.1]).insert(p.1, s[p.0]);
        assert forall|c: char| #[trigger] t.contains_key(c) <==> letters.contains(c) by {
            assert(s.contains_key(c) <==> letters.contains(c));
        }
        assert forall|c: char| #[trigger] t.contains_key(c) implies letters.contains(t[c]) by {
            assert(s.contains_key(c));
        }
        assert forall|c: char, d: char| #[trigger] t.contains_key(c) && #[trigger] t.contains_key(d) && c != d
            implies t[c] != t[d] by {
            assert(s.contains_key(c) && s.contains_key(d));
        }
        assert(permutes(t, letters));
        assert forall|c: char| #[trigger] letters.contains(c) implies after_swaps(m, swaps)[c] == m[t[c]] by {
            assert(after_swaps(m, prev)[c] == m[s[c]]);
            assert(after_swaps(m, prev)[p.0] == m[s[p.0]]);
            assert(after_swaps(m, prev)[p.1] == m[s[p.1]]);
        }
    }
}

/// What legal swaps of `letters` reach gives `letters` a rearrangement of
/// the keys they held before.
pub proof fn lemma_reachable_permutes_keys(
    before: Map<char, usize>,
    after: Map<char, usize>,
    reference: Map<char, usize>,
    apart: Seq<Vec<bool>>,
    letters: Seq<char>,
)
    requires
        reachable_by_legal_swaps(before, after, reference, apart, letters),
    ensures
        exists|sigma: Map<char, char>|
            #![trigger permutes(sigma, letters)]
            permutes(sigma, letters) && forall|c: char| #[trigger] letters.contains(c) ==> after[c] == before[sigma[c]],
{
    let swaps = choose|swaps: Seq<(char, char)>|
        #![trigger after_swaps(before, swaps)]
        {
            &&& swaps_legal(before, reference, apart, swaps)
            &&& swaps_within(swaps, letters)
            &&& after_swaps(before, swaps) == after
        };
    lemma_swaps_permute_keys(before, swaps, letters);
}

} // verus!
