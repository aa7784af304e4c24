use vstd::prelude::*;

verus! {

/// The settings of an optimisation run that the layout search reads.
/// `locked_letters` pins letters to keys by the keys' names; a letter that
/// is listed more than once is pinned by its first listing.  The weights of
/// the loss function are real numbers and are kept by the caller.
pub struct Parameters {
    /// How many times the best loss must be found before the search stops.
    pub nr_min_loss_target: u16,
    /// The file that describes the keyboard.
    pub keyboard_file: String,
    /// The letters to place, in the order in which they take keys.
    pub letters: Vec<char>,
    /// The letters that the search may move.
    pub free_letters: Vec<char>,
    /// Names of keys that take no letter.
    pub unused_keys: Vec<String>,
    /// Letters pinned to named keys.
    pub locked_letters: Vec<(char, String)>,
}

} // verus!
