use vstd::prelude::*;

verus! {

/// The letters that `entries` places, in the order in which they were first
/// placed.
pub open spec fn placed_letters(entries: Seq<(char, usize)>) -> Seq<char> {
    entries.map_values(|e: (char, usize)| e.0)
}

/// Whether some entry places `c`.
pub open spec fn places(entries: Seq<(char, usize)>, c: char) -> bool {
    exists|i: int| 0 <= i < entries.len() && entries[i].0 == c
}

/// The position of an entry that places `c`, where there is one.
pub open spec fn placement_index(entries: Seq<(char, usize)>, c: char) -> int {
    choose|i: int| 0 <= i < entries.len() && entries[i].0 == c
}

/// The map from letter to key that a list of placements describes (in a
/// well-formed map no letter is placed twice).
pub open spec fn entries_map(entries: Seq<(char, usize)>) -> Map<char, usize> {
    Map::new(
        |c: char| places(entries, c),
        |c: char| entries[placement_index(entries, c)].1,
    )
}

/// Where no letter is placed twice, entry `i` is what the map says of its
/// letter.
pub proof fn lemma_entries_map_at(entries: Seq<(char, usize)>, i: int)
    requires
        placed_letters(entries).no_duplicates(),
        0 <= i < entries.len(),
    ensures
        entries_map(entries).contains_key(entries[i].0),
        entries_map(entries)[entries[i].0] == entries[i].1,
        placement_index(entries, entries[i].0) == i,
{
    let c = entries[i].0;
    assert(places(entries, c));
    let j = placement_index(entries, c);
    assert(placed_letters(entries)[i] == c);
    assert(placed_letters(entries)[j] == c);
    assert(i == j);
    assert(entries_map(entries)[c] == entries[j].1);
}

/// Replacing the key of entry `i` updates the map at that entry's letter.
proof fn lemma_entries_map_set(entries: Seq<(char, usize)>, i: int, k: usize)
    requires
        placed_letters(entries).no_duplicates(),
        0 <= i < entries.len(),
    ensures
        placed_letters(entries.update(i, (entries[i].0, k))) == placed_letters(entries),
        entries_map(entries.update(i, (entries[i].0, k))) == entries_map(entries).insert(entries[i].0, k),
{
    let c = entries[i].0;
    let after = entries.update(i, (c, k));
    assert(placed_letters(after) =~= placed_letters(entries));
    let lhs = entries_map(after);
    let rhs = entries_map(entries).insert(c, k);
    assert forall|d: char| lhs.contains_key(d) <==> rhs.contains_key(d) by {
        if lhs.contains_key(d) {
            let j = choose|j: int| 0 <= j < after.len() && after[j].0 == d;
            assert(entries[j].0 == d);
        }
        if entries_map(entries).contains_key(d) {
            let j = choose|j: int| 0 <= j < entries.len() && entries[j].0 == d;
            assert(after[j].0 == d);
        }
        if d == c {
            assert(after[i].0 == c);
        }
    }
    assert forall|d: char| lhs.contains_key(d) implies lhs[d] == rhs[d] by {
        let j = choose|j: int| 0 <= j < after.len() && after[j].0 == d;
        lemma_entries_map_at(after, j);
        if j != i {
            lemma_entries_map_at(entries, j);
            assert(placed_letters(entries)[j] == d);
            assert(placed_letters(entries)[i] == c);
        }
    }
    assert(lhs =~= rhs);
}

/// Appending a placement of a letter not yet placed extends the map.
proof fn lemma_entries_map_push(entries: Seq<(char, usize)>, c: char, k: usize)
    requires
        placed_letters(entries).no_duplicates(),
        !places(entries, c),
    ensures
        placed_letters(entries.push((c, k))) == placed_letters(entries).push(c),
        placed_letters(entries.push((c, k))).no_duplicates(),
        entries_map(entries.push((c, k))) == entries_map(entries).insert(c, k),
{
    let after = entries.push((c, k));
    assert(placed_letters(after) =~= placed_letters(entries).push(c));
    assert forall|a: int, b: int| 0 <= a < b < placed_letters(after).len()
        implies placed_letters(after)[a] != placed_letters(after)[b] by {
        if b == entries.len() {
            assert(entries[a].0 == placed_letters(entries)[a]);
        } else {
            assert(placed_letters(entries)[a] != placed_letters(entries)[b]);
        }
    }
    let lhs = entries_map(after);
    let rhs = entries_map(entries).insert(c, k);
    assert forall|d: char| lhs.contains_key(d) <==> rhs.contains_key(d) by {
        if lhs.contains_key(d) && d != c {
            let j = choose|j: int| 0 <= j < after.len() && after[j].0 == d;
            assert(j < entries.len());
            assert(entries[j].0 == d);
        }
        if entries_map(entries).contains_key(d) {
            let j = choose|j: int| 0 <= j < entries.len() && entries[j].0 == d;
            assert(after[j].0 == d);
        }
        if d == c {
            assert(after[entries.len() as int].0 == c);
        }
    }
    assert forall|d: char| lhs.contains_key(d) implies lhs[d] == rhs[d] by {
        let j = choose|j: int| 0 <= j < after.len() && after[j].0 == d;
        lemma_entries_map_at(after, j);
        if j < entries.len() {
            lemma_entries_map_at(entries, j);
        }
    }
    assert(lhs =~= rhs);
}

/// An assignment of letters to keys.  A key is named by its position in the
/// keyboard's key list.  Each letter occurs at most once, and the entries
/// keep the order in which the letters were first placed.
pub struct KeyMap {
    entries: Vec<(char, usize)>,
}

impl KeyMap {
    /// The placements, in the order in which the letters were first placed.
    pub closed spec fn entries(&self) -> Seq<(char, usize)> {
        self.entries@
    }

    /// No letter is placed twice.
    pub open spec fn wf(&self) -> bool {
        placed_letters(self.entries()).no_duplicates()
    }

    /// The assignment as a map from letter to key.
    pub open spec fn view(&self) -> Map<char, usize> {
        entries_map(self.entries())
    }

    /// An empty assignment.
    pub fn new() -> (m: KeyMap)
        ensures
            m.wf(),
            m@ == Map::<char, usize>::empty(),
            m.entries() == Seq::<(char, usize)>::empty(),
    {
        let m = KeyMap { entries: Vec::new() };
        assert(m@ =~= Map::<char, usize>::empty());
        m
    }

    /// The number of letters placed.
    pub fn len(&self) -> (n: usize)
        requires
            self.wf(),
        ensures
            n == self@.len(),
            n == self.entries().len(),
    {
        proof { self.lemma_dom_len(); }
        self.entries.len()
    }

    /// The domain of a well-formed map has one letter per entry.
    proof fn lemma_dom_len(&self)
        requires
            self.wf(),
        ensures
            self@.dom() == placed_letters(self.entries()).to_set(),
            self@.len() == self.entries().len(),
    {
        let letters = placed_letters(self.entries());
        assert forall|c: char| self@.dom().contains(c) <==> letters.to_set().contains(c) by {
            if self@.dom().contains(c) {
                let i = choose|i: int| 0 <= i < self.entries().len() && self.entries()[i].0 == c;
                assert(letters[i] == c);
            }
            if letters.to_set().contains(c) {
                let i = choose|i: int| 0 <= i < letters.len() && letters[i] == c;
                assert(self.entries()[i].0 == c);
            }
        }
        assert(self@.dom() =~= letters.to_set());
        letters.unique_seq_to_set();
    }

    /// The position among the entries of the letter `c`, if it is placed.
    fn find(&self, c: char) -> (r: Option<usize>)
        requires
            self.wf(),
        ensures
            match r {
                Some(i) => i < self.entries().len() && self.entries()[i as int].0 == c,
                None => !self@.contains_key(c),
            },
    {
        let mut i: usize = 0;
        while i < self.entries.len()
            invariant
                i <= self.entries@.len(),
                forall|j: int| 0 <= j < i ==> self.entries@[j].0 != c,
            decreases self.entries@.len() - i,
        {
            if self.entries[i].0 == c {
                return Some(i);
            }
            i = i + 1;
        }
        None
    }

    /// The key on which `c` sits, if it is placed.
    pub fn get(&self, c: char) -> (r: Option<usize>)
        requires
            self.wf(),
        ensures
            r == (if self@.contains_key(c) { Some(self@[c]) } else { None::<usize> }),
    {
        match self.find(c) {
            Some(i) => {
                proof { lemma_entries_map_at(self.entries@, i as int); }
                Some(self.entries[i].1)
            },
            None => None,
        }
    }

    /// Places `c` on key `k`, replacing an earlier placement of `c`.  A
    /// letter placed for the first time comes last among the entries.
    pub fn insert(&mut self, c: char, k: usize)
        requires
            old(self).wf(),
        ensures
            final(self).wf(),
            final(self)@ == old(self)@.insert(c, k),
            old(self)@.contains_key(c) ==> final(self).entries() == old(self).entries().update(
                placement_index(old(self).entries(), c),
                (c, k),
            ),
            old(self)@.contains_key(c) ==> placed_letters(final(self).entries()) == placed_letters(old(self).entries()),
            !old(self)@.contains_key(c) ==> final(self).entries() == old(self).entries().push((c, k)),
    {
        let ghost before = self.entries@;
        match self.find(c) {
            Some(i) => {
                proof {
                    lemma_entries_map_set(before, i as int, k);
                    lemma_entries_map_at(before, i as int);
                }
                self.entries.set(i, (c, k));
                assert(self.entries@ == before.update(i as int, (before[i as int].0, k)));
            },
            None => {
                proof { lemma_entries_map_push(before, c, k); }
                self.entries.push((c, k));
            },
        }
    }

    /// The placements, in the order in which the letters were first placed.
    pub fn as_pairs(&self) -> (r: &Vec<(char, usize)>)
        ensures
            r@ == self.entries(),
    {
        &self.entries
    }
}

} // verus!
