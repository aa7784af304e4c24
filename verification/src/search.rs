use vstd::prelude::*;
use crate::keymap::{placed_letters, KeyMap};
use crate::layout::{
    all_well_placed, get_swappable_pairs, lemma_reachable_keeps_others, lemma_reachable_keeps_valid,
    lemma_reachable_one_swap, lemma_reachable_permutes_keys, lemma_reachable_refl, lemma_reachable_trans, legal_swap,
    pairs_of, permutes, reachable_by_legal_swaps, swap_is_legal, swap_keys, swapped,
};
use crate::params::Parameters;
use crate::random::shuffle;

verus! {

/// The walk of one annealing round through the pairs of free letters.  The
/// pairs are visited in a random order; each legal swap is proposed in turn
/// until the caller accepts one, which starts the walk over in a fresh
/// order, or until every pair has been tried.
pub struct SwapSearch {
    pairs: Vec<(char, char)>,
    swap_counter: usize,
    free: Ghost<Seq<char>>,
}

impl SwapSearch {
    /// The pairs in the order of the current walk.
    pub closed spec fn pairs(&self) -> Seq<(char, char)> {
        self.pairs@
    }

    /// The position of the walk: pairs before it have been tried.
    pub closed spec fn position(&self) -> nat {
        self.swap_counter as nat
    }

    /// The letters whose pairs the walk visits.
    pub closed spec fn free(&self) -> Seq<char> {
        self.free@
    }

    /// The walk visits each pair of free letters once, and its position lies
    /// within it.
    pub open spec fn wf(&self) -> bool {
        &&& self.pairs().to_multiset() == pairs_of(self.free()).to_multiset()
        &&& self.position() <= self.pairs().len()
    }

    /// Every free letter is placed by `key_map`.
    pub open spec fn placed_in(&self, key_map: &KeyMap) -> bool {
        forall|i: int| 0 <= i < self.free().len() ==> key_map@.contains_key(#[trigger] self.free()[i])
    }

    /// A walk over the pairs of the free letters, in the order in which
    /// they are listed.
    pub fn new(par_struct: &Parameters) -> (s: SwapSearch)
        ensures
            s.wf(),
            s.free() == par_struct.free_letters@,
            s.pairs() == pairs_of(par_struct.free_letters@),
            s.position() == 0,
    {
        SwapSearch { pairs: get_swappable_pairs(par_struct), swap_counter: 0, free: Ghost(par_struct.free_letters@) }
    }

    /// Starts the walk over, in a fresh random order.
    pub fn restart(&mut self)
        requires
            old(self).wf(),
        ensures
            final(self).wf(),
            final(self).free() == old(self).free(),
            final(self).pairs().to_multiset() == old(self).pairs().to_multiset(),
            final(self).position() == 0,
    {
        shuffle(&mut self.pairs);
        self.swap_counter = 0;
    }

    /// Each pair of the walk trades two free letters.
    proof fn lemma_pair_letters(&self, k: int)
        requires
            self.wf(),
            0 <= k < self.pairs().len(),
        ensures
            self.free().contains(self.pairs()[k].0),
            self.free().contains(self.pairs()[k].1),
    {
        broadcast use vstd::seq_lib::group_to_multiset_ensures;
        crate::layout::lemma_pairs_of_members(self.free());
        let p = self.pairs()[k];
        assert(self.pairs().contains(p));
        assert(self.pairs().to_multiset().count(p) > 0);
        assert(pairs_of(self.free()).to_multiset().count(p) > 0);
        assert(pairs_of(self.free()).contains(p));
        let m = choose|m: int| 0 <= m < pairs_of(self.free()).len() && pairs_of(self.free())[m] == p;
        let (i, j) = choose|i: int, j: int|
            0 <= i < j < self.free().len() && #[trigger] pairs_of(self.free())[m] == (self.free()[i], self.free()[j]);
        assert(self.free()[i] == p.0 && self.free()[j] == p.1);
    }

    /// Walks on to the next pair whose swap is legal and makes that swap.
    /// Returns `None` when no pair is left.
    pub fn propose(&mut self, key_map: &mut KeyMap, qwerty_key_map: &KeyMap, apart: &Vec<Vec<bool>>) -> (r: Option<
        (char, char),
    >)
        requires
            old(self).wf(),
            old(key_map).wf(),
            qwerty_key_map.wf(),
            old(self).placed_in(old(key_map)),
            old(self).placed_in(qwerty_key_map),
        ensures
            final(self).wf(),
            final(self).free() == old(self).free(),
            final(self).pairs() == old(self).pairs(),
            final(key_map).wf(),
            placed_letters(final(key_map).entries()) == placed_letters(old(key_map).entries()),
            old(self).position() <= final(self).position(),
            forall|k: int| old(self).position() <= k < final(self).position()
                ==> !swap_is_legal(old(key_map)@, qwerty_key_map@, apart@, #[trigger] old(self).pairs()[k]),
            reachable_by_legal_swaps(old(key_map)@, final(key_map)@, qwerty_key_map@, apart@, old(self).free()),
            match r {
                Some(p) => {
                    &&& final(self).position() < final(self).pairs().len()
                    &&& p == final(self).pairs()[final(self).position() as int]
                    &&& swap_is_legal(old(key_map)@, qwerty_key_map@, apart@, p)
                    &&& final(key_map)@ == swapped(old(key_map)@, p)
                },
                None => {
                    &&& final(self).position() == final(self).pairs().len()
                    &&& final(key_map)@ == old(key_map)@
                },
            },
    {
        while self.swap_counter < self.pairs.len()
            invariant
                self.wf(),
                self.free() == old(self).free(),
                self.pairs() == old(self).pairs(),
                old(self).position() <= self.position(),
                key_map.wf(),
                qwerty_key_map.wf(),
                *key_map == *old(key_map),
                self.placed_in(key_map),
                self.placed_in(qwerty_key_map),
                forall|k: int| old(self).position() <= k < self.position()
                    ==> !swap_is_legal(old(key_map)@, qwerty_key_map@, apart@, #[trigger] old(self).pairs()[k]),
            decreases self.pairs@.len() - self.swap_counter,
        {
            let pair = self.pairs[self.swap_counter];
            proof {
                self.lemma_pair_letters(self.swap_counter as int);
                let i0 = choose|i: int| 0 <= i < self.free().len() && self.free()[i] == pair.0;
                let i1 = choose|i: int| 0 <= i < self.free().len() && self.free()[i] == pair.1;
                assert(key_map@.contains_key(self.free()[i0]));
                assert(qwerty_key_map@.contains_key(self.free()[i0]));
                assert(key_map@.contains_key(self.free()[i1]));
                assert(qwerty_key_map@.contains_key(self.free()[i1]));
            }
            // a swap must keep both letters away from their reference keys
            if legal_swap(key_map, qwerty_key_map, &pair, apart) {
                proof {
                    lemma_reachable_one_swap(key_map@, qwerty_key_map@, apart@, pair, self.free());
                }
                swap_keys(&pair, key_map);
                return Some(pair);
            }
            self.swap_counter = self.swap_counter + 1;
        }
        proof {
            lemma_reachable_refl(key_map@, qwerty_key_map@, apart@, self.free());
        }
        None
    }

    /// Keeps the proposed swap: the walk starts over in a fresh order.
    pub fn accept(&mut self)
        requires
            old(self).wf(),
        ensures
            final(self).wf(),
            final(self).free() == old(self).free(),
            final(self).pairs().to_multiset() == old(self).pairs().to_multiset(),
            final(self).position() == 0,
    {
        self.restart();
    }

    /// Undoes the proposed swap and walks on past it.
    pub fn reject(&mut self, key_map: &mut KeyMap)
        requires
            old(self).wf(),
            old(self).position() < old(self).pairs().len(),
            old(key_map).wf(),
            old(self).placed_in(old(key_map)),
        ensures
            final(self).wf(),
            final(self).free() == old(self).free(),
            final(self).pairs() == old(self).pairs(),
            final(self).position() == old(self).position() + 1,
            final(key_map).wf(),
            placed_letters(final(key_map).entries()) == placed_letters(old(key_map).entries()),
            final(key_map)@ == swapped(old(key_map)@, old(self).pairs()[old(self).position() as int]),
    {
        let pair = self.pairs[self.swap_counter];
        proof {
            self.lemma_pair_letters(self.swap_counter as int);
            let i0 = choose|i: int| 0 <= i < self.free().len() && self.free()[i] == pair.0;
            let i1 = choose|i: int| 0 <= i < self.free().len() && self.free()[i] == pair.1;
            assert(key_map@.contains_key(self.free()[i0]));
            assert(key_map@.contains_key(self.free()[i1]));
        }
        swap_keys(&pair, key_map);
        let n = self.pairs.len();
        assert(self.swap_counter < n);
        self.swap_counter = self.swap_counter + 1;
    }
}

/// The layouts that an annealing worker sends.  The worker starts from the
/// layout `start` that the parameters give, makes it valid by legal swaps
/// of free letters (giving `valid`), and from then on only makes legal swaps
/// of free letters: the random reorderings of each round, the proposed
/// swaps, and the undoing of rejected ones.  Every layout `m` it reaches
/// that way is valid, places the same letters as `start`, leaves every
/// letter that is not free on its starting key, and gives the free letters
/// a rearrangement of the keys they started on.
pub proof fn lemma_worker_layout(
    start: Map<char, usize>,
    valid: Map<char, usize>,
    m: Map<char, usize>,
    reference: Map<char, usize>,
    apart: Seq<Vec<bool>>,
    free: Seq<char>,
)
    requires
        forall|i: int| 0 <= i < free.len() ==> start.contains_key(#[trigger] free[i]),
        reachable_by_legal_swaps(start, valid, reference, apart, free),
        all_well_placed(valid, reference, apart, free),
        reachable_by_legal_swaps(valid, m, reference, apart, free),
    ensures
        all_well_placed(m, reference, apart, free),
        m.dom() == start.dom(),
        forall|c: char| #[trigger] start.contains_key(c) && !free.contains(c) ==> m[c] == start[c],
        exists|sigma: Map<char, char>|
            #![trigger permutes(sigma, free)]
            permutes(sigma, free) && forall|c: char| #[trigger] free.contains(c) ==> m[c] == start[sigma[c]],
{
    lemma_reachable_keeps_valid(valid, m, reference, apart, free, free);
    lemma_reachable_trans(start, valid, m, reference, apart, free);
    lemma_reachable_permutes_keys(start, m, reference, apart, free);
    assert forall|c: char| #[trigger] start.contains_key(c) && !free.contains(c) implies m[c] == start[c] by {
        lemma_reachable_keeps_others(start, m, reference, apart, free, c);
    }
    lemma_reachable_keeps_others(start, m, reference, apart, free, ' ');
}

} // verus!
