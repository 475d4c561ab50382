//! An implementation of the Sardinas-Patterson test: check whether a
//! word list (a code) is uniquely decodable, that is, whether every
//! concatenation of code words can be parsed back into code words in
//! only one way.
use crate::sardinas_patterson_pruning::c_infinity;
use crate::sardinas_patterson_pruning::generate_c_infinity_with_a_halt_break;
use crate::sardinas_patterson_pruning::uniquely_decodable_spec;
use crate::text::contains_str;
use crate::text::dedup_words;
use crate::text::views_of;
use crate::text::word_set;
use vstd::prelude::*;

verus! {

/// Return true if the list is uniquely decodable, false if not:
/// whether no word of the list reappears among the dangling suffixes
/// that the Sardinas-Patterson closure produces. Duplicate words
/// collapse before the test runs, and the order of the list cannot
/// affect the verdict.
pub fn is_uniquely_decodable(c: &[String]) -> (r: bool)
    ensures
        r == uniquely_decodable_spec(word_set(c@)),
{
    let cd = dedup_words(c);
    sardinas_patterson_theorem(&cd)
}

/// Returns true if the words of `c` are disjoint from the closure of
/// their dangling suffixes.
fn sardinas_patterson_theorem(c: &Vec<String>) -> (r: bool)
    ensures
        r == uniquely_decodable_spec(word_set(c@)),
{
    let ghost cset = word_set(c@);
    let c_inf = generate_c_infinity_with_a_halt_break(c);
    let ghost inf_set = c_infinity(cset);
    let mut i: usize = 0;
    while i < c.len()
        invariant
            0 <= i <= c@.len(),
            cset == word_set(c@),
            views_of(c_inf@).to_set() == inf_set,
            inf_set == c_infinity(cset),
            forall|j: int| 0 <= j < i ==> !inf_set.contains(#[trigger] views_of(c@)[j]),
        decreases c@.len() - i,
    {
        if contains_str(&c_inf, c[i].as_str()) {
            proof {
                assert(cset.contains(views_of(c@)[i as int]));
                assert(!cset.disjoint(inf_set));
            }
            return false;
        }
        i = i + 1;
    }
    proof {
        assert forall|s: Seq<char>| cset.contains(s) implies !inf_set.contains(s) by {
            let ix = choose|ix: int| 0 <= ix < views_of(c@).len() && views_of(c@)[ix] == s;
            assert(views_of(c@)[ix] == s);
        }
    }
    true
}

} // verus!
