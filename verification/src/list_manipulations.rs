//! The list-level operations of the pipeline: pruning a list toward
//! unique decodability, enforcing a minimum pairwise edit distance and
//! a maximum shared prefix, removing prefix, suffix and homophone
//! words, de-duplicating, and the word-level clean-up steps.
use crate::sardinas_patterson_pruning::get_sardinas_patterson_final_intersection;
use crate::sardinas_patterson_pruning::offender_set;
use crate::edit_distance::find_edit_distance;
use crate::edit_distance::str_lev;
use crate::text::contains_str;
use crate::text::dedup_spec;
use crate::text::dedup_words;
use crate::text::is_prefix_spec;
use crate::text::is_suffix_spec;
use crate::text::is_prefix_of;
use crate::text::is_suffix_of;
use crate::text::str_eq;
use crate::text::push_char;
use crate::text::eq_ignore_case;
use crate::text::matches_ci;
use crate::text::lemma_views_push;
use crate::text::views_of;
use crate::text::word_set;
use crate::unicode::grapheme_clusters;
use crate::unicode::grapheme_split;
use crate::unicode::is_alphanumeric_char;
use crate::unicode::is_numeric_char;
use crate::unicode::nfc_of;
use crate::unicode::nfd_of;
use crate::unicode::nfkc_of;
use crate::unicode::nfkd_of;
use crate::unicode::to_nfc;
use crate::unicode::to_nfd;
use crate::unicode::to_nfkc;
use crate::unicode::to_nfkd;
use icu::collator::Collator;
use icu::collator::CollatorOptions;
use icu::collator::Strength;
use rand::seq::SliceRandom;
use vstd::multiset::Multiset;
use vstd::prelude::*;
use vstd::seq_lib::*;
use vstd::set_lib::*;
use vstd::string::*;

verus! {

/// The locale type of the icu crate, declared so that sorting can
/// take a locale; the crate alone reads what is inside it.
#[verifier::external_type_specification]
#[verifier::external_body]
pub struct ExLocale(icu::locid::Locale);

/// A word reversed grapheme cluster by grapheme cluster, so that
/// multi-code-point characters survive the reversal intact.
pub open spec fn grapheme_rev(s: Seq<char>) -> Seq<char> {
    grapheme_split(s).reverse().flatten()
}

/// The set of grapheme-reversed forms of the words of a set.
pub open spec fn rev_image(c: Set<Seq<char>>) -> Set<Seq<char>> {
    Set::new(|s: Seq<char>| exists|w: Seq<char>| c.contains(w) && s == grapheme_rev(w))
}

/// Reverse one word, grapheme cluster by grapheme cluster.
fn reverse_word(word: &str) -> (r: String)
    ensures
        r@ == grapheme_rev(word@),
{
    let cl = grapheme_clusters(word);
    let ghost gv = views_of(cl@);
    let mut out = String::new();
    let mut i: usize = cl.len();
    proof {
        assert(gv.skip(gv.len() as int) =~= Seq::<Seq<char>>::empty());
        assert(gv.skip(gv.len() as int).reverse() =~= Seq::<Seq<char>>::empty());
    }
    while i > 0
        invariant
            0 <= i <= cl@.len(),
            gv == views_of(cl@),
            out@ == gv.skip(i as int).reverse().flatten_alt(),
        decreases i,
    {
        i = i - 1;
        out.append(cl[i].as_str());
        proof {
            assert(gv.skip(i as int).reverse() =~= gv.skip(i + 1).reverse().push(gv[i as int]));
            assert(gv.skip(i as int).reverse().drop_last() =~= gv.skip(i + 1).reverse());
        }
    }
    proof {
        assert(gv.skip(0) =~= gv);
        gv.reverse().lemma_flatten_and_flatten_alt_are_equivalent();
    }
    out
}

/// Reverse all words on given list. Reverses grapheme cluster by
/// grapheme cluster, to handle accented characters correctly.
pub fn reverse_all_words(list: &[String]) -> (r: Vec<String>)
    ensures
        r@.len() == list@.len(),
        forall|i: int| 0 <= i < list@.len() ==> #[trigger] r@[i]@ == grapheme_rev(list@[i]@),
{
    let mut r: Vec<String> = Vec::new();
    let mut i: usize = 0;
    while i < list.len()
        invariant
            0 <= i <= list@.len(),
            r@.len() == i,
            forall|j: int| 0 <= j < i ==> #[trigger] r@[j]@ == grapheme_rev(list@[j]@),
        decreases list@.len() - i,
    {
        r.push(reverse_word(list[i].as_str()));
        i = i + 1;
    }
    r
}

/// Reversing every word of a list turns its word set into the set of
/// reversed words.
proof fn lemma_rev_word_set(list: Seq<String>, revd: Seq<String>)
    requires
        revd.len() == list.len(),
        forall|i: int| 0 <= i < list.len() ==> #[trigger] revd[i]@ == grapheme_rev(list[i]@),
    ensures
        word_set(revd) == rev_image(word_set(list)),
{
    assert forall|s: Seq<char>| word_set(revd).contains(s) implies rev_image(
        word_set(list),
    ).contains(s) by {
        let ix = choose|ix: int| 0 <= ix < views_of(revd).len() && views_of(revd)[ix] == s;
        assert(views_of(list)[ix] == list[ix]@);
        assert(views_of(list).contains(list[ix]@));
        assert(word_set(list).contains(list[ix]@) && s == grapheme_rev(list[ix]@));
    }
    assert forall|s: Seq<char>| rev_image(word_set(list)).contains(s) implies word_set(
        revd,
    ).contains(s) by {
        let w = choose|w: Seq<char>| word_set(list).contains(w) && s == grapheme_rev(w);
        let ix = choose|ix: int| 0 <= ix < views_of(list).len() && views_of(list)[ix] == w;
        assert(views_of(revd)[ix] == s);
    }
    assert(word_set(revd) =~= rev_image(word_set(list)));
}

/// The words of `list` whose character sequences avoid the set `bad`,
/// in their original order.
pub open spec fn retain_spec(list: Seq<String>, bad: Set<Seq<char>>) -> Seq<String> {
    list.filter(|w: String| !bad.contains(w@))
}

/// Keep the words whose character sequences are not among those of
/// `bad`.
fn retain_not_in(list: &[String], bad: &Vec<String>) -> (r: Vec<String>)
    ensures
        r@ == retain_spec(list@, views_of(bad@).to_set()),
{
    let ghost bad_set = views_of(bad@).to_set();
    let ghost pred = |w: String| !bad_set.contains(w@);
    let mut r: Vec<String> = Vec::new();
    let mut i: usize = 0;
    proof {
        reveal(Seq::filter);
        assert(list@.take(0).filter(pred) =~= Seq::<String>::empty());
    }
    while i < list.len()
        invariant
            0 <= i <= list@.len(),
            bad_set == views_of(bad@).to_set(),
            pred == (|w: String| !bad_set.contains(w@)),
            r@ == list@.take(i as int).filter(pred),
        decreases list@.len() - i,
    {
        proof {
            reveal(Seq::filter);
            assert(list@.take(i + 1).drop_last() =~= list@.take(i as int));
            assert(list@.take(i + 1).last() == list@[i as int]);
        }
        if !contains_str(bad, list[i].as_str()) {
            r.push(list[i].clone());
        }
        i = i + 1;
    }
    proof {
        assert(list@.take(list@.len() as int) =~= list@);
    }
    r
}

/// What the Schlinkert prune leaves: the list with the smaller of the
/// two offender sets removed, the forward one on ties.
pub open spec fn schlinkert_post(list: Seq<String>, r: Seq<String>) -> bool {
    let c = word_set(list);
    let fwd = offender_set(c);
    let bwd_pre = offender_set(rev_image(c));
    if fwd.len() <= bwd_pre.len() {
        r == retain_spec(list, fwd)
    } else {
        r == retain_spec(list, rev_image(bwd_pre))
    }
}

/// Executes Schlinkert prune. Attempts to make the list uniquely
/// decodable by removing the fewest number of code words possible,
/// guided by the Sardinas-Patterson offender sets. Runs the word list
/// both as given and with each word reversed, and removes whichever
/// offender set is smaller, ties favoring the forward direction;
/// surviving words keep their relative order. A single pass is
/// performed: the result is not re-checked or pruned again.
pub fn schlinkert_prune(list: &[String]) -> (r: Vec<String>)
    ensures
        schlinkert_post(list@, r@),
{
    let ghost c = word_set(list@);
    let offenders_forward = get_sardinas_patterson_final_intersection(list);
    let reversed_list = reverse_all_words(list);
    let offenders_reversed = get_sardinas_patterson_final_intersection(
        reversed_list.as_slice(),
    );
    let offenders_backward = reverse_all_words(offenders_reversed.as_slice());
    proof {
        lemma_rev_word_set(list@, reversed_list@);
        lemma_rev_word_set(offenders_reversed@, offenders_backward@);
        views_of(offenders_forward@).unique_seq_to_set();
        views_of(offenders_reversed@).unique_seq_to_set();
        assert(views_of(offenders_forward@).len() == offenders_forward@.len());
        assert(views_of(offenders_reversed@).len() == offenders_reversed@.len());
    }
    if offenders_forward.len() <= offenders_backward.len() {
        retain_not_in(list, &offenders_forward)
    } else {
        retain_not_in(list, &offenders_backward)
    }
}

/// De-duplicates a list of words while maintaining list order: the
/// first occurrence of each word survives.
pub fn dedup_without_sorting(list: &Vec<String>) -> (r: Vec<String>)
    ensures
        views_of(r@) == dedup_spec(views_of(list@)),
        views_of(r@).no_duplicates(),
        views_of(r@).to_set() == word_set(list@),
{
    dedup_words(list.as_slice())
}

/// The first `length` grapheme clusters of a word, or the whole word
/// when it has fewer.
pub open spec fn grapheme_prefix(s: Seq<char>, length: int) -> Seq<char> {
    let g = grapheme_split(s);
    if length <= g.len() {
        g.take(length).flatten()
    } else {
        s
    }
}

/// Given a word and a `length`, this function returns the first
/// `length` characters of that word, measured in grapheme clusters to
/// better handle accented characters and emoji.
pub fn get_prefix(word: &str, length: usize) -> (r: String)
    ensures
        r@ == grapheme_prefix(word@, length as int),
{
    let cl = grapheme_clusters(word);
    let ghost gv = views_of(cl@);
    let k = if length <= cl.len() {
        length
    } else {
        cl.len()
    };
    let mut out = String::new();
    let mut i: usize = 0;
    proof {
        assert(gv.take(0) =~= Seq::<Seq<char>>::empty());
    }
    while i < k
        invariant
            0 <= i <= k <= cl@.len(),
            gv == views_of(cl@),
            out@ == gv.take(i as int).flatten_alt(),
        decreases k - i,
    {
        out.append(cl[i].as_str());
        proof {
            assert(gv.take(i + 1).drop_last() =~= gv.take(i as int));
            assert(gv.take(i + 1).last() == gv[i as int]);
        }
        i = i + 1;
    }
    proof {
        gv.take(k as int).lemma_flatten_and_flatten_alt_are_equivalent();
        if length > cl@.len() {
            assert(gv.take(k as int) =~= gv);
            assert(gv.flatten() == word@);
        }
    }
    out
}

/// Whether `w` stays at distance `d` or more from every word of the
/// list it does not equal.
pub open spec fn keeps_distance(vs: Seq<Seq<char>>, w: Seq<char>, d: int) -> bool {
    forall|j: int| 0 <= j < vs.len() ==> vs[j] == w || str_lev(vs[j], w) >= d
}

/// The words that survive minimum-edit-distance enforcement: those at
/// distance `d` or more from every other word of the list.
pub open spec fn min_dist_filter(list: Seq<String>, d: int) -> Seq<String> {
    list.filter(|w: String| keeps_distance(views_of(list), w@, d))
}

/// An element of a filtered sequence is an element of the sequence it
/// was filtered from.
proof fn lemma_filter_elem_of<A>(s: Seq<A>, pred: spec_fn(A) -> bool, i: int)
    requires
        0 <= i < s.filter(pred).len(),
    ensures
        exists|j: int| 0 <= j < s.len() && s[j] == #[trigger] s.filter(pred)[i],
    decreases s.len(),
{
    reveal(Seq::filter);
    if s.len() == 0 {
    } else {
        let sub = s.drop_last().filter(pred);
        if i < sub.len() {
            lemma_filter_elem_of(s.drop_last(), pred, i);
            let j = choose|j: int| 0 <= j < s.drop_last().len() && s.drop_last()[j] == sub[i];
            assert(s[j] == s.filter(pred)[i]);
        } else {
            assert(s[s.len() - 1] == s.filter(pred)[i]);
        }
    }
}

/// Only retain words that are a given minimum edit distance away from
/// all other words on the list. Each word is compared against the
/// whole list, so the decision for each word is independent of the
/// others' removal.
pub fn enfore_minimum_edit_distance(list: Vec<String>, minimum_edit_distance: usize) -> (r: Vec<
    String,
>)
    requires
        minimum_edit_distance <= u32::MAX,
        forall|i: int|
            0 <= i < list@.len() ==> vstd::utf8::encode_utf8(#[trigger] list@[i]@).len()
                < 0x80000000,
    ensures
        r@ == min_dist_filter(list@, minimum_edit_distance as int),
{
    let ghost d = minimum_edit_distance as int;
    let ghost vs = views_of(list@);
    let ghost pred = |w: String| keeps_distance(views_of(list@), w@, d);
    let d32: u32 = minimum_edit_distance as u32;
    let mut r: Vec<String> = Vec::new();
    let mut i: usize = 0;
    proof {
        reveal(Seq::filter);
        assert(list@.take(0).filter(pred) =~= Seq::<String>::empty());
    }
    while i < list.len()
        invariant
            0 <= i <= list@.len(),
            d == minimum_edit_distance as int,
            d32 == minimum_edit_distance as u32,
            minimum_edit_distance <= u32::MAX,
            vs == views_of(list@),
            forall|ix: int|
                0 <= ix < list@.len() ==> vstd::utf8::encode_utf8(#[trigger] list@[ix]@).len()
                    < 0x80000000,
            pred == (|w: String| keeps_distance(views_of(list@), w@, d)),
            r@ == list@.take(i as int).filter(pred),
        decreases list@.len() - i,
    {
        let mut keep = true;
        let mut j: usize = 0;
        while j < list.len()
            invariant
                0 <= j <= list@.len(),
                0 <= i < list@.len(),
                d == minimum_edit_distance as int,
                d32 == minimum_edit_distance as u32,
                minimum_edit_distance <= u32::MAX,
                vs == views_of(list@),
                forall|ix: int|
                    0 <= ix < list@.len() ==> vstd::utf8::encode_utf8(#[trigger] list@[ix]@).len()
                        < 0x80000000,
                keep <==> (forall|jj: int|
                    0 <= jj < j ==> vs[jj] == vs[i as int] || str_lev(vs[jj], vs[i as int]) >= d),
            decreases list@.len() - j,
        {
            if !str_eq(list[j].as_str(), list[i].as_str()) {
                let dist = find_edit_distance(list[j].as_str(), list[i].as_str());
                if dist < d32 {
                    keep = false;
                    assert(!(vs[j as int] == vs[i as int] || str_lev(vs[j as int], vs[i as int])
                        >= d));
                }
            }
            j = j + 1;
        }
        proof {
            reveal(Seq::filter);
            assert(list@.take(i + 1).drop_last() =~= list@.take(i as int));
            assert(list@.take(i + 1).last() == list@[i as int]);
            assert(keep == pred(list@[i as int]));
        }
        if keep {
            r.push(list[i].clone());
        }
        i = i + 1;
    }
    proof {
        assert(list@.take(list@.len() as int) =~= list@);
    }
    r
}

/// The minimum-edit-distance postcondition: any two distinct surviving
/// words are at least `d` apart.
pub proof fn lemma_minimum_edit_distance_postcondition(list: Seq<String>, d: int, i: int, j: int)
    requires
        0 <= i < min_dist_filter(list, d).len(),
        0 <= j < min_dist_filter(list, d).len(),
        min_dist_filter(list, d)[i]@ != min_dist_filter(list, d)[j]@,
    ensures
        str_lev(min_dist_filter(list, d)[i]@, min_dist_filter(list, d)[j]@) >= d,
{
    let pred = |w: String| keeps_distance(views_of(list), w@, d);
    let r = min_dist_filter(list, d);
    broadcast use vstd::seq_lib::group_filter_ensures;
    assert(pred(r[i]));
    lemma_filter_elem_of(list, pred, j);
    let jx = choose|jx: int| 0 <= jx < list.len() && list[jx] == r[j];
    assert(views_of(list)[jx] == r[j]@);
    assert(views_of(list)[jx] == r[i]@ || str_lev(views_of(list)[jx], r[i]@) >= d);
    crate::edit_distance::lemma_lev_symmetric(
        vstd::utf8::encode_utf8(r[j]@),
        vstd::utf8::encode_utf8(r[i]@),
    );
}

/// Whether some other word of the list has `w` as a strict prefix.
pub open spec fn is_prefix_word(vs: Seq<Seq<char>>, w: Seq<char>) -> bool {
    exists|j: int| 0 <= j < vs.len() && vs[j] != w && is_prefix_spec(w, vs[j])
}

/// The words that survive prefix-word removal.
pub open spec fn remove_prefix_spec(list: Seq<String>) -> Seq<String> {
    list.filter(|w: String| !is_prefix_word(views_of(list), w@))
}

/// Remove prefix words from the given list: every word of which some
/// other word is an extension, a security hazard for passphrases.
pub fn remove_prefix_words(list: Vec<String>) -> (r: Vec<String>)
    ensures
        r@ == remove_prefix_spec(list@),
{
    let ghost vs = views_of(list@);
    let ghost pred = |w: String| !is_prefix_word(views_of(list@), w@);
    let mut r: Vec<String> = Vec::new();
    let mut i: usize = 0;
    proof {
        reveal(Seq::filter);
        assert(list@.take(0).filter(pred) =~= Seq::<String>::empty());
    }
    while i < list.len()
        invariant
            0 <= i <= list@.len(),
            vs == views_of(list@),
            pred == (|w: String| !is_prefix_word(views_of(list@), w@)),
            r@ == list@.take(i as int).filter(pred),
        decreases list@.len() - i,
    {
        let mut found = false;
        let mut j: usize = 0;
        while j < list.len()
            invariant
                0 <= j <= list@.len(),
                0 <= i < list@.len(),
                vs == views_of(list@),
                found <==> (exists|jj: int|
                    0 <= jj < j && vs[jj] != vs[i as int] && is_prefix_spec(vs[i as int], vs[jj])),
            decreases list@.len() - j,
        {
            if !str_eq(list[j].as_str(), list[i].as_str()) && is_prefix_of(
                list[i].as_str(),
                list[j].as_str(),
            ) {
                found = true;
                assert(vs[j as int] != vs[i as int] && is_prefix_spec(vs[i as int], vs[j as int]));
            }
            j = j + 1;
        }
        proof {
            reveal(Seq::filter);
            assert(list@.take(i + 1).drop_last() =~= list@.take(i as int));
            assert(list@.take(i + 1).last() == list@[i as int]);
            assert(found == is_prefix_word(vs, vs[i as int]));
        }
        if !found {
            r.push(list[i].clone());
        }
        i = i + 1;
    }
    proof {
        assert(list@.take(list@.len() as int) =~= list@);
    }
    r
}

/// Whether some other word of the list has `w` as a strict suffix.
pub open spec fn is_suffix_word(vs: Seq<Seq<char>>, w: Seq<char>) -> bool {
    exists|j: int| 0 <= j < vs.len() && vs[j] != w && is_suffix_spec(w, vs[j])
}

/// The words that survive suffix-word removal.
pub open spec fn remove_suffix_spec(list: Seq<String>) -> Seq<String> {
    list.filter(|w: String| !is_suffix_word(views_of(list), w@))
}

/// Remove suffix words from the given list: every word that ends some
/// other word of the list.
pub fn remove_suffix_words(list: Vec<String>) -> (r: Vec<String>)
    ensures
        r@ == remove_suffix_spec(list@),
{
    let ghost vs = views_of(list@);
    let ghost pred = |w: String| !is_suffix_word(views_of(list@), w@);
    let mut r: Vec<String> = Vec::new();
    let mut i: usize = 0;
    proof {
        reveal(Seq::filter);
        assert(list@.take(0).filter(pred) =~= Seq::<String>::empty());
    }
    while i < list.len()
        invariant
            0 <= i <= list@.len(),
            vs == views_of(list@),
            pred == (|w: String| !is_suffix_word(views_of(list@), w@)),
            r@ == list@.take(i as int).filter(pred),
        decreases list@.len() - i,
    {
        let mut found = false;
        let mut j: usize = 0;
        while j < list.len()
            invariant
                0 <= j <= list@.len(),
                0 <= i < list@.len(),
                vs == views_of(list@),
                found <==> (exists|jj: int|
                    0 <= jj < j && vs[jj] != vs[i as int] && is_suffix_spec(vs[i as int], vs[jj])),
            decreases list@.len() - j,
        {
            if !str_eq(list[j].as_str(), list[i].as_str()) && is_suffix_of(
                list[i].as_str(),
                list[j].as_str(),
            ) {
                found = true;
                assert(vs[j as int] != vs[i as int] && is_suffix_spec(vs[i as int], vs[j as int]));
            }
            j = j + 1;
        }
        proof {
            reveal(Seq::filter);
            assert(list@.take(i + 1).drop_last() =~= list@.take(i as int));
            assert(list@.take(i + 1).last() == list@[i as int]);
            assert(found == is_suffix_word(vs, vs[i as int]));
        }
        if !found {
            r.push(list[i].clone());
        }
        i = i + 1;
    }
    proof {
        assert(list@.take(list@.len() as int) =~= list@);
    }
    r
}

/// The character sequences of each homophone pair.
pub open spec fn pairs_views(hs: Seq<(String, String)>) -> Seq<(Seq<char>, Seq<char>)> {
    hs.map_values(|p: (String, String)| (p.0@, p.1@))
}

/// The second members of those homophone pairs whose two words both
/// occur in the list, gathered left to right, each word marked for
/// removal at most once.
pub open spec fn homophone_removals(lvs: Seq<Seq<char>>, hp: Seq<(Seq<char>, Seq<char>)>) -> Seq<
    Seq<char>,
>
    decreases hp.len(),
{
    if hp.len() == 0 {
        Seq::empty()
    } else {
        let acc = homophone_removals(lvs, hp.drop_last());
        let a = hp.last().0;
        let b = hp.last().1;
        if lvs.contains(a) && lvs.contains(b) && !acc.contains(a) && !acc.contains(b) {
            acc.push(b)
        } else {
            acc
        }
    }
}

/// The words that survive homophone removal.
pub open spec fn remove_homophones_spec(list: Seq<String>, hs: Seq<(String, String)>) -> Seq<
    String,
> {
    list.filter(|w: String| !homophone_removals(views_of(list), pairs_views(hs)).contains(w@))
}

/// Takes the inputted word list and a list of pairs of homophones,
/// e.g. `("there", "their")`. Outputs a new list in which, whenever
/// both members of a pair are present, the second member is removed.
pub fn remove_homophones(list: Vec<String>, homophones: Vec<(String, String)>) -> (r: Vec<String>)
    ensures
        r@ == remove_homophones_spec(list@, homophones@),
{
    let ghost lvs = views_of(list@);
    let ghost hp = pairs_views(homophones@);
    let mut words_to_remove: Vec<String> = Vec::new();
    let mut i: usize = 0;
    proof {
        assert(hp.take(0) =~= Seq::<(Seq<char>, Seq<char>)>::empty());
    }
    while i < homophones.len()
        invariant
            0 <= i <= homophones@.len(),
            lvs == views_of(list@),
            hp == pairs_views(homophones@),
            views_of(words_to_remove@) == homophone_removals(lvs, hp.take(i as int)),
        decreases homophones@.len() - i,
    {
        proof {
            assert(hp.take(i + 1).drop_last() =~= hp.take(i as int));
            assert(hp.take(i + 1).last() == hp[i as int]);
        }
        let in_list_a = contains_str(&list, homophones[i].0.as_str());
        let in_list_b = contains_str(&list, homophones[i].1.as_str());
        let marked_a = contains_str(&words_to_remove, homophones[i].0.as_str());
        let marked_b = contains_str(&words_to_remove, homophones[i].1.as_str());
        if in_list_a && in_list_b && !(marked_a || marked_b) {
            let ghost old_r = words_to_remove@;
            let w = homophones[i].1.clone();
            words_to_remove.push(w);
            proof {
                lemma_views_push(old_r, homophones@[i as int].1);
            }
        }
        i = i + 1;
    }
    proof {
        assert(hp.take(hp.len() as int) =~= hp);
    }
    let ghost rem = homophone_removals(lvs, hp);
    let ghost pred = |w: String| !homophone_removals(views_of(list@), pairs_views(
        homophones@,
    )).contains(w@);
    let mut r: Vec<String> = Vec::new();
    let mut j: usize = 0;
    proof {
        reveal(Seq::filter);
        assert(list@.take(0).filter(pred) =~= Seq::<String>::empty());
    }
    while j < list.len()
        invariant
            0 <= j <= list@.len(),
            views_of(words_to_remove@) == homophone_removals(
                views_of(list@),
                pairs_views(homophones@),
            ),
            pred == (|w: String|
                !homophone_removals(views_of(list@), pairs_views(homophones@)).contains(w@)),
            r@ == list@.take(j as int).filter(pred),
        decreases list@.len() - j,
    {
        proof {
            reveal(Seq::filter);
            assert(list@.take(j + 1).drop_last() =~= list@.take(j as int));
            assert(list@.take(j + 1).last() == list@[j as int]);
        }
        if !contains_str(&words_to_remove, list[j].as_str()) {
            r.push(list[j].clone());
        }
        j = j + 1;
    }
    proof {
        assert(list@.take(list@.len() as int) =~= list@);
    }
    r
}

/// The position of the first bucket keyed by `p`, or `-1` when none
/// is.
pub open spec fn find_key(b: Seq<(Seq<char>, Seq<char>)>, p: Seq<char>) -> int
    decreases b.len(),
{
    if b.len() == 0 {
        -1
    } else if b.first().0 == p {
        0
    } else {
        let r = find_key(b.drop_first(), p);
        if r == -1 {
            -1
        } else {
            r + 1
        }
    }
}

/// The keys of a bucket list, in order.
pub open spec fn bucket_keys(b: Seq<(Seq<char>, Seq<char>)>) -> Seq<Seq<char>> {
    Seq::new(b.len(), |i: int| b[i].0)
}

/// The representative words of a bucket list, in order.
pub open spec fn bucket_vals(b: Seq<(Seq<char>, Seq<char>)>) -> Seq<Seq<char>> {
    Seq::new(b.len(), |i: int| b[i].1)
}

/// `find_key` returns the first match: if the keys before `m` all
/// differ from `p` and `m` holds `p` (or the end was reached), the
/// search lands on `m` (or fails).
proof fn lemma_find_key_at(b: Seq<(Seq<char>, Seq<char>)>, p: Seq<char>, m: int)
    requires
        0 <= m <= b.len(),
        forall|j: int| 0 <= j < m ==> (#[trigger] b[j]).0 != p,
        m < b.len() ==> b[m].0 == p,
    ensures
        find_key(b, p) == if m == b.len() {
            -1int
        } else {
            m
        },
    decreases b.len(),
{
    if b.len() == 0 {
    } else if b.first().0 == p {
        assert(b[0].0 == p);
    } else {
        assert(b[0].0 != p);
        lemma_find_key_at(b.drop_first(), p, m - 1);
    }
}

/// The search result is `-1` or a position in the bucket list.
proof fn lemma_find_key_bounds(b: Seq<(Seq<char>, Seq<char>)>, p: Seq<char>)
    ensures
        -1 <= find_key(b, p) < b.len(),
    decreases b.len(),
{
    if b.len() == 0 {
    } else if b.first().0 == p {
    } else {
        lemma_find_key_bounds(b.drop_first(), p);
    }
}

/// A failed key search means no bucket holds the key.
proof fn lemma_find_key_none(b: Seq<(Seq<char>, Seq<char>)>, p: Seq<char>)
    requires
        find_key(b, p) == -1,
    ensures
        forall|j: int| 0 <= j < b.len() ==> (#[trigger] b[j]).0 != p,
    decreases b.len(),
{
    if b.len() == 0 {
    } else {
        assert(b.first().0 != p);
        lemma_find_key_bounds(b.drop_first(), p);
        lemma_find_key_none(b.drop_first(), p);
        assert forall|j: int| 0 <= j < b.len() implies (#[trigger] b[j]).0 != p by {
            if j > 0 {
                assert(b.drop_first()[j - 1] == b[j]);
            }
        }
    }
}

/// A successful key search lands on a bucket holding the key.
proof fn lemma_find_key_some(b: Seq<(Seq<char>, Seq<char>)>, p: Seq<char>)
    requires
        find_key(b, p) != -1,
    ensures
        0 <= find_key(b, p) < b.len(),
        b[find_key(b, p)].0 == p,
    decreases b.len(),
{
    if b.len() == 0 {
    } else if b.first().0 == p {
        assert(b[0].0 == p);
    } else {
        lemma_find_key_some(b.drop_first(), p);
        assert(b.drop_first()[find_key(b.drop_first(), p)] == b[find_key(b, p)]);
    }
}

/// The buckets that prefix enforcement builds: one per distinct
/// `length`-cluster prefix among the words long enough to have one,
/// keyed by that prefix, each holding the first shortest word seen
/// with it.
pub open spec fn prefix_buckets(ws: Seq<Seq<char>>, length: int) -> Seq<(Seq<char>, Seq<char>)>
    decreases ws.len(),
{
    if ws.len() == 0 {
        Seq::empty()
    } else {
        let b = prefix_buckets(ws.drop_last(), length);
        let w = ws.last();
        if grapheme_split(w).len() < length {
            b
        } else {
            let p = grapheme_prefix(w, length);
            let ix = find_key(b, p);
            if ix == -1 {
                b.push((p, w))
            } else if grapheme_split(w).len() < grapheme_split(b[ix].1).len() {
                b.update(ix, (p, w))
            } else {
                b
            }
        }
    }
}

/// The words that survive prefix enforcement, in order of their
/// prefixes' first appearance.
pub open spec fn prefix_representatives(ws: Seq<Seq<char>>, length: int) -> Seq<Seq<char>> {
    bucket_vals(prefix_buckets(ws, length))
}

/// This function removes words from the given word list such that the
/// resulting, outputted list has a guaranteed maximum prefix length:
/// knowing the first `maximum_shared_prefix_length` grapheme clusters
/// of any word on the list is enough to identify it, which makes the
/// list safe for auto-completing software. Words too short to fill the
/// prefix are dropped; among words sharing a prefix the first shortest
/// one survives.
pub fn guarantee_maximum_prefix_length(
    list: &[String],
    maximum_shared_prefix_length: usize,
) -> (r: Vec<String>)
    ensures
        views_of(r@) == prefix_representatives(
            views_of(list@),
            maximum_shared_prefix_length as int,
        ),
{
    let ghost k = maximum_shared_prefix_length as int;
    let ghost ws = views_of(list@);
    let mut keys: Vec<String> = Vec::new();
    let mut vals: Vec<String> = Vec::new();
    let mut i: usize = 0;
    proof {
        assert(ws.take(0) =~= Seq::<Seq<char>>::empty());
        assert(views_of(keys@) =~= bucket_keys(prefix_buckets(ws.take(0), k)));
        assert(views_of(vals@) =~= bucket_vals(prefix_buckets(ws.take(0), k)));
    }
    while i < list.len()
        invariant
            0 <= i <= list@.len(),
            ws == views_of(list@),
            k == maximum_shared_prefix_length as int,
            views_of(keys@) == bucket_keys(prefix_buckets(ws.take(i as int), k)),
            views_of(vals@) == bucket_vals(prefix_buckets(ws.take(i as int), k)),
        decreases list@.len() - i,
    {
        let ghost b = prefix_buckets(ws.take(i as int), k);
        proof {
            assert(ws.take(i + 1).drop_last() =~= ws.take(i as int));
            assert(ws.take(i + 1).last() == ws[i as int]);
            assert(views_of(keys@).len() == keys@.len());
            assert(bucket_keys(b).len() == b.len());
            assert(views_of(vals@).len() == vals@.len());
            assert(bucket_vals(b).len() == b.len());
            assert(keys@.len() == b.len());
            assert(vals@.len() == b.len());
            assert(ws[i as int] == list@[i as int]@);
        }
        let cnt = crate::count_characters(list[i].as_str());
        if cnt >= maximum_shared_prefix_length {
            let p = get_prefix(list[i].as_str(), maximum_shared_prefix_length);
            let mut m: usize = 0;
            let mut found = false;
            while m < keys.len() && !found
                invariant
                    0 <= m <= keys@.len(),
                    keys@.len() == b.len(),
                    views_of(keys@) == bucket_keys(b),
                    p@ == grapheme_prefix(ws[i as int], k),
                    found ==> (0 <= m < b.len() && b[m as int].0 == p@),
                    forall|j: int| 0 <= j < m ==> (#[trigger] b[j]).0 != p@,
                decreases keys@.len() - m + (if found {
                    0int
                } else {
                    1int
                }),
            {
                if str_eq(keys[m].as_str(), p.as_str()) {
                    found = true;
                    assert(views_of(keys@)[m as int] == keys@[m as int]@);
                    assert(b[m as int].0 == p@);
                } else {
                    assert(views_of(keys@)[m as int] == keys@[m as int]@);
                    assert(b[m as int].0 != p@);
                    m = m + 1;
                }
            }
            proof {
                if found {
                    lemma_find_key_at(b, p@, m as int);
                } else {
                    lemma_find_key_at(b, p@, b.len() as int);
                }
            }
            if found {
                let cnt_existing = crate::count_characters(vals[m].as_str());
                proof {
                    assert(views_of(vals@)[m as int] == vals@[m as int]@);
                    assert(bucket_vals(b)[m as int] == b[m as int].1);
                    assert(vals@[m as int]@ == b[m as int].1);
                }
                if cnt < cnt_existing {
                    let ghost old_vals = vals@;
                    vals.set(m, list[i].clone());
                    proof {
                        let bn = b.update(m as int, (p@, ws[i as int]));
                        assert(prefix_buckets(ws.take(i + 1), k) == bn);
                        assert(vals@ == old_vals.update(m as int, vals@[m as int]));
                        assert(vals@[m as int]@ == ws[i as int]);
                        assert forall|jx: int| 0 <= jx < bn.len() implies views_of(vals@)[jx]
                            == bucket_vals(bn)[jx] by {
                            if jx != m {
                                assert(views_of(old_vals)[jx] == bucket_vals(b)[jx]);
                            }
                        }
                        assert(views_of(vals@) =~= bucket_vals(bn));
                        assert(views_of(keys@) =~= bucket_keys(bn));
                    }
                } else {
                    proof {
                        assert(prefix_buckets(ws.take(i + 1), k) == b);
                    }
                }
            } else {
                let ghost pv = p@;
                let ghost old_keys = keys@;
                let ghost old_vals = vals@;
                keys.push(p);
                vals.push(list[i].clone());
                proof {
                    let bn = b.push((pv, ws[i as int]));
                    assert(prefix_buckets(ws.take(i + 1), k) == bn);
                    assert(keys@ == old_keys.push(keys@.last()));
                    assert(keys@.last()@ == pv);
                    assert(vals@ == old_vals.push(vals@.last()));
                    assert(vals@.last()@ == ws[i as int]);
                    lemma_views_push(old_keys, keys@.last());
                    lemma_views_push(old_vals, vals@.last());
                    assert forall|jx: int| 0 <= jx < bn.len() implies views_of(keys@)[jx]
                        == bucket_keys(bn)[jx] by {
                        if jx < b.len() {
                            assert(views_of(old_keys)[jx] == bucket_keys(b)[jx]);
                        }
                    }
                    assert forall|jx: int| 0 <= jx < bn.len() implies views_of(vals@)[jx]
                        == bucket_vals(bn)[jx] by {
                        if jx < b.len() {
                            assert(views_of(old_vals)[jx] == bucket_vals(b)[jx]);
                        }
                    }
                    assert(views_of(keys@) =~= bucket_keys(bn));
                    assert(views_of(vals@) =~= bucket_vals(bn));
                }
            }
        } else {
            proof {
                assert(prefix_buckets(ws.take(i + 1), k) == b);
            }
        }
        i = i + 1;
    }
    proof {
        assert(ws.take(ws.len() as int) =~= ws);
    }
    vals
}

/// Every bucket is keyed by its word's prefix, holds a word long
/// enough to fill it, holds a word of the list, and no two buckets
/// share a key.
proof fn lemma_prefix_buckets_props(ws: Seq<Seq<char>>, length: int)
    ensures
        forall|i: int|
            0 <= i < prefix_buckets(ws, length).len() ==> (#[trigger] prefix_buckets(
                ws,
                length,
            )[i]).0 == grapheme_prefix(prefix_buckets(ws, length)[i].1, length),
        forall|i: int|
            0 <= i < prefix_buckets(ws, length).len() ==> grapheme_split(
                (#[trigger] prefix_buckets(ws, length)[i]).1,
            ).len() >= length,
        forall|i: int|
            0 <= i < prefix_buckets(ws, length).len() ==> ws.contains(
                (#[trigger] prefix_buckets(ws, length)[i]).1,
            ),
        forall|i: int, j: int|
            0 <= i < j < prefix_buckets(ws, length).len() ==> (#[trigger] prefix_buckets(
                ws,
                length,
            )[i]).0 != (#[trigger] prefix_buckets(ws, length)[j]).0,
    decreases ws.len(),
{
    if ws.len() == 0 {
    } else {
        lemma_prefix_buckets_props(ws.drop_last(), length);
        let b = prefix_buckets(ws.drop_last(), length);
        let bn = prefix_buckets(ws, length);
        let w = ws.last();
        assert forall|i: int| 0 <= i < b.len() implies ws.contains(#[trigger] b[i].1) by {
            assert(ws.drop_last().contains(b[i].1));
            let ix = choose|ix: int|
                0 <= ix < ws.drop_last().len() && ws.drop_last()[ix] == b[i].1;
            assert(ws[ix] == b[i].1);
        }
        assert(ws.contains(w)) by {
            assert(ws[ws.len() - 1] == w);
        }
        if grapheme_split(w).len() < length {
            assert(bn == b);
        } else {
            let p = grapheme_prefix(w, length);
            let ix = find_key(b, p);
            if ix == -1 {
                lemma_find_key_none(b, p);
                assert(bn == b.push((p, w)));
                assert(bn[bn.len() - 1] == (p, w));
                assert forall|i: int, j: int| 0 <= i < j < bn.len() implies (
                #[trigger] bn[i]).0 != (#[trigger] bn[j]).0 by {
                    if j < bn.len() - 1 {
                        assert(bn[i] == b[i] && bn[j] == b[j]);
                    } else {
                        assert(bn[i] == b[i] && bn[j] == (p, w));
                    }
                }
            } else if grapheme_split(w).len() < grapheme_split(b[ix].1).len() {
                lemma_find_key_some(b, p);
                assert(bn == b.update(ix, (p, w)));
                assert(bn[ix] == (p, w));
                assert forall|i: int, j: int| 0 <= i < j < bn.len() implies (
                #[trigger] bn[i]).0 != (#[trigger] bn[j]).0 by {
                    assert(bn[i].0 == b[i].0);
                    assert(bn[j].0 == b[j].0);
                }
            } else {
                assert(bn == b);
            }
        }
    }
}

/// The prefix postcondition: any two distinct surviving words have at
/// least `length` grapheme clusters, and their first `length` clusters
/// differ.
pub proof fn lemma_prefix_postcondition(ws: Seq<Seq<char>>, length: int, i: int, j: int)
    requires
        0 <= i < prefix_representatives(ws, length).len(),
        0 <= j < prefix_representatives(ws, length).len(),
        i != j,
    ensures
        grapheme_split(prefix_representatives(ws, length)[i]).len() >= length,
        grapheme_prefix(prefix_representatives(ws, length)[i], length) != grapheme_prefix(
            prefix_representatives(ws, length)[j],
            length,
        ),
        ws.contains(prefix_representatives(ws, length)[i]),
{
    lemma_prefix_buckets_props(ws, length);
    let b = prefix_buckets(ws, length);
    assert(prefix_representatives(ws, length)[i] == b[i].1);
    assert(prefix_representatives(ws, length)[j] == b[j].1);
    if i < j {
        assert(b[i].0 != b[j].0);
    } else {
        assert(b[j].0 != b[i].0);
    }
}
/// Given a word, delete all numeric characters from it.
pub fn delete_integers(word: String) -> (r: String)
    ensures
        r@ == word@.filter(|c: char| !is_numeric_char(c)),
{
    let ghost pred = |c: char| !is_numeric_char(c);
    let n = word.as_str().unicode_len();
    let mut out = String::new();
    let mut i: usize = 0;
    proof {
        reveal(Seq::filter);
        assert(word@.take(0).filter(pred) =~= Seq::<char>::empty());
    }
    while i < n
        invariant
            0 <= i <= n,
            n == word@.len(),
            pred == (|c: char| !is_numeric_char(c)),
            out@ == word@.take(i as int).filter(pred),
        decreases n - i,
    {
        proof {
            reveal(Seq::filter);
            assert(word@.take(i + 1).drop_last() =~= word@.take(i as int));
            assert(word@.take(i + 1).last() == word@[i as int]);
        }
        let c = word.as_str().get_char(i);
        if !c.is_numeric() {
            push_char(&mut out, c);
            proof {
                assert(out@ =~= word@.take(i as int).filter(pred).push(word@[i as int]));
            }
        }
        i = i + 1;
    }
    proof {
        assert(word@.take(n as int) =~= word@);
    }
    out
}

/// Given a word, delete all characters that are not alphanumeric;
/// accented characters remain.
pub fn delete_nonalphanumeric(word: String) -> (r: String)
    ensures
        r@ == word@.filter(|c: char| is_alphanumeric_char(c)),
{
    let ghost pred = |c: char| is_alphanumeric_char(c);
    let n = word.as_str().unicode_len();
    let mut out = String::new();
    let mut i: usize = 0;
    proof {
        reveal(Seq::filter);
        assert(word@.take(0).filter(pred) =~= Seq::<char>::empty());
    }
    while i < n
        invariant
            0 <= i <= n,
            n == word@.len(),
            pred == (|c: char| is_alphanumeric_char(c)),
            out@ == word@.take(i as int).filter(pred),
        decreases n - i,
    {
        proof {
            reveal(Seq::filter);
            assert(word@.take(i + 1).drop_last() =~= word@.take(i as int));
            assert(word@.take(i + 1).last() == word@[i as int]);
        }
        let c = word.as_str().get_char(i);
        if c.is_alphanumeric() {
            push_char(&mut out, c);
            proof {
                assert(out@ =~= word@.take(i as int).filter(pred).push(word@[i as int]));
            }
        }
        i = i + 1;
    }
    proof {
        assert(word@.take(n as int) =~= word@);
    }
    out
}

/// A curly quotation mark straightened; any other character itself.
pub open spec fn straighten_char(c: char) -> char {
    if c == '\u{201C}' {
        '"'
    } else if c == '\u{201D}' {
        '"'
    } else if c == '\u{2018}' {
        '\''
    } else if c == '\u{2019}' {
        '\''
    } else {
        c
    }
}

/// Replaces curly or smart quotes, both double and single, with their
/// straight versions.
pub fn straighten_quotes(input: &str) -> (r: String)
    ensures
        r@ == input@.map_values(|c: char| straighten_char(c)),
{
    let n = input.unicode_len();
    let mut out = String::new();
    let mut i: usize = 0;
    proof {
        assert(input@.take(0).map_values(|c: char| straighten_char(c)) =~= Seq::<char>::empty());
    }
    while i < n
        invariant
            0 <= i <= n,
            n == input@.len(),
            out@ == input@.take(i as int).map_values(|c: char| straighten_char(c)),
        decreases n - i,
    {
        let c = input.get_char(i);
        let straightened: char = if c == '\u{201C}' {
            '"'
        } else if c == '\u{201D}' {
            '"'
        } else if c == '\u{2018}' {
            '\''
        } else if c == '\u{2019}' {
            '\''
        } else {
            c
        };
        push_char(&mut out, straightened);
        proof {
            assert(out@ =~= input@.take(i + 1).map_values(|c: char| straighten_char(c)));
        }
        i = i + 1;
    }
    proof {
        assert(input@.take(n as int) =~= input@);
    }
    out
}

/// Helper function to determine if a given char, as a code unit, is a
/// basic Latin letter (A through Z or a through z, no diacritics).
pub fn is_latin_alphabetic(chr: u16) -> (r: bool)
    ensures
        r == (65 <= chr <= 90 || 97 <= chr <= 122),
{
    (chr >= 65 && chr <= 90) || (chr >= 97 && chr <= 122)
}

/// The position of the first occurrence of `c` in `s`, or `-1` when
/// there is none.
pub open spec fn char_index(s: Seq<char>, c: char) -> int
    decreases s.len(),
{
    if s.len() == 0 {
        -1
    } else if s.first() == c {
        0
    } else {
        let r = char_index(s.drop_first(), c);
        if r == -1 {
            -1
        } else {
            r + 1
        }
    }
}

/// A scan that saw no occurrence before `q` and one at `q` (or none at
/// all) has found the first occurrence (or rightly failed).
proof fn lemma_char_index_at(s: Seq<char>, c: char, q: int)
    requires
        0 <= q <= s.len(),
        forall|j: int| 0 <= j < q ==> s[j] != c,
        q < s.len() ==> s[q] == c,
    ensures
        char_index(s, c) == if q == s.len() {
            -1int
        } else {
            q
        },
    decreases s.len(),
{
    if s.len() == 0 {
    } else if s.first() == c {
        assert(s[0] == c);
    } else {
        assert(s[0] != c);
        lemma_char_index_at(s.drop_first(), c, q - 1);
    }
}

/// Delete all characters through and including the first appearance of
/// character `ch` in `s`. Useful for removing metadata, such as dice
/// roll numbers, that comes before each word. Returns the whole string
/// when `ch` does not appear.
pub fn delete_before_first_char(s: &str, ch: char) -> (r: &str)
    ensures
        r@ == if char_index(s@, ch) == -1 {
            s@
        } else {
            s@.skip(char_index(s@, ch) + 1)
        },
{
    let n = s.unicode_len();
    let mut i: usize = 0;
    while i < n
        invariant
            0 <= i <= n,
            n == s@.len(),
            forall|j: int| 0 <= j < i ==> s@[j] != ch,
        decreases n - i,
    {
        if s.get_char(i) == ch {
            proof {
                lemma_char_index_at(s@, ch, i as int);
            }
            let rest = s.substring_char(i + 1, n);
            return rest;
        }
        i = i + 1;
    }
    proof {
        lemma_char_index_at(s@, ch, n as int);
        assert(s@.subrange(0, n as int) =~= s@);
    }
    s.substring_char(0, n)
}

/// Delete all characters after and including the first appearance of
/// character `ch` in `s`. Returns the whole string when `ch` does not
/// appear.
pub fn delete_after_first_char(s: &str, ch: char) -> (r: &str)
    ensures
        r@ == if char_index(s@, ch) == -1 {
            s@
        } else {
            s@.take(char_index(s@, ch))
        },
{
    let n = s.unicode_len();
    let mut i: usize = 0;
    while i < n
        invariant
            0 <= i <= n,
            n == s@.len(),
            forall|j: int| 0 <= j < i ==> s@[j] != ch,
        decreases n - i,
    {
        if s.get_char(i) == ch {
            proof {
                lemma_char_index_at(s@, ch, i as int);
            }
            let front = s.substring_char(0, i);
            return front;
        }
        i = i + 1;
    }
    proof {
        lemma_char_index_at(s@, ch, n as int);
        assert(s@.subrange(0, n as int) =~= s@);
    }
    s.substring_char(0, n)
}

/// Normalize the Unicode of a string to the named normalization form:
/// nfc, nfd, nfkc or nfkd, in any letter case.
pub fn normalize_unicode(word: &str, nf: &str) -> (r: Result<String, String>)
    ensures
        r is Ok <==> (matches_ci(nf@, "nfc"@) || matches_ci(nf@, "nfd"@) || matches_ci(
            nf@,
            "nfkc"@,
        ) || matches_ci(nf@, "nfkd"@)),
        r matches Ok(w) ==> w@ == if matches_ci(nf@, "nfc"@) {
            nfc_of(word@)
        } else if matches_ci(nf@, "nfd"@) {
            nfd_of(word@)
        } else if matches_ci(nf@, "nfkc"@) {
            nfkc_of(word@)
        } else {
            nfkd_of(word@)
        },
{
    if eq_ignore_case(nf, "nfc") {
        Ok(to_nfc(word))
    } else if eq_ignore_case(nf, "nfd") {
        Ok(to_nfd(word))
    } else if eq_ignore_case(nf, "nfkc") {
        Ok(to_nfkc(word))
    } else if eq_ignore_case(nf, "nfkd") {
        Ok(to_nfkd(word))
    } else {
        Err(
            String::from_str(
                "Unknown Unicode Normalization Form received in arguments.\nPlease use one of the following normalization forms: nfc, nfd, nfkc, or nfkd.",
            ),
        )
    }
}

/// Sort a vector of words a bit more carefully than a plain sort,
/// treating capitalized and accented letters more smartly: "Zambia"
/// sorts after "abbey", and "énigme" lands between "eager" and
/// "enlever". Relies on icu_collator's `Collator::compare` through
/// `sort_by`, which reorders the list without adding or dropping
/// words.
#[verifier::external_body]
pub fn sort_carefully(list: Vec<String>, locale: icu::locid::Locale) -> (r: Vec<String>)
    ensures
        r@.to_multiset() == list@.to_multiset(),
        r@.len() == list@.len(),
{
    let mut options_l2 = CollatorOptions::new();
    options_l2.strength = Some(Strength::Secondary);
    let collator_l2: Collator =
        Collator::try_new_unstable(&icu_testdata::unstable(), &locale.into(), options_l2).unwrap();
    let mut newly_sorted_list = list;
    newly_sorted_list.sort_by(|a, b| collator_l2.compare(a, b));
    newly_sorted_list
}

/// Whether a locale tag such as "en-US" is well-formed.
pub uninterp spec fn locale_parses(s: Seq<char>) -> bool;

/// Relies on icu's `Locale` `FromStr` parse: whether a locale tag is
/// accepted depends on the tag alone.
#[verifier::external_body]
pub fn parse_locale(s: &str) -> (r: Option<icu::locid::Locale>)
    ensures
        r is Some <==> locale_parses(s@),
{
    match s.parse::<icu::locid::Locale>() {
        Ok(l) => Some(l),
        Err(_) => None,
    }
}

/// Relies on rand's `shuffle`: it permutes the list in place, keeping
/// exactly the same words in some order.
#[verifier::external_body]
pub(crate) fn shuffle_words(list: &mut Vec<String>)
    ensures
        final(list)@.to_multiset() == old(list)@.to_multiset(),
        final(list)@.len() == old(list)@.len(),
{
    let mut rng = rand::rng();
    list.shuffle(&mut rng);
}

/// Whether the words appear in ascending order of character count.
pub open spec fn sorted_by_count(vs: Seq<Seq<char>>) -> bool {
    forall|i: int, j: int|
        0 <= i < j < vs.len() ==> grapheme_split(#[trigger] vs[i]).len() <= grapheme_split(
            #[trigger] vs[j],
        ).len()
}

/// Sort a vector of words by how many characters each has, shortest
/// first, collating them first so that equally long words keep a
/// careful order.
pub fn sort_by_length(list: Vec<String>, locale: icu::locid::Locale) -> (r: Vec<String>)
    ensures
        r@.to_multiset() == list@.to_multiset(),
        sorted_by_count(views_of(r@)),
{
    let collated = sort_carefully(list, locale);
    let ghost target = collated@.to_multiset();
    let mut out: Vec<String> = Vec::new();
    let mut i: usize = 0;
    proof {
        collated@.take(0).to_multiset_ensures();
        assert(collated@.take(0) =~= Seq::<String>::empty());
    }
    while i < collated.len()
        invariant
            0 <= i <= collated@.len(),
            out@.to_multiset() == collated@.take(i as int).to_multiset(),
            sorted_by_count(views_of(out@)),
            target == collated@.to_multiset(),
        decreases collated@.len() - i,
    {
        let w = collated[i].clone();
        let cnt = crate::count_characters(w.as_str());
        let mut pos: usize = 0;
        let mut k: usize = 0;
        while k < out.len()
            invariant
                0 <= pos <= k <= out@.len(),
                cnt == grapheme_split(w@).len(),
                forall|j: int|
                    0 <= j < pos ==> grapheme_split(#[trigger] views_of(out@)[j]).len() <= cnt,
                pos < k ==> grapheme_split(views_of(out@)[pos as int]).len() > cnt,
            decreases out@.len() - k,
        {
            let c2 = crate::count_characters(out[k].as_str());
            if c2 <= cnt && pos == k {
                pos = k + 1;
            }
            k = k + 1;
        }
        let ghost old_out = out@;
        out.insert(pos, w);
        proof {
            broadcast use vstd::seq_lib::to_multiset_build;
            broadcast use vstd::multiset::group_multiset_axioms;

            let x = collated@[i as int];
            assert(out@ == old_out.insert(pos as int, x));
            assert(old_out.take(pos as int) + old_out.skip(pos as int) =~= old_out);
            vstd::seq_lib::lemma_multiset_commutative(
                old_out.take(pos as int),
                old_out.skip(pos as int),
            );
            assert(old_out.subrange(0, pos as int) =~= old_out.take(pos as int));
            assert(old_out.subrange(pos as int, old_out.len() as int) =~= old_out.skip(
                pos as int,
            ));
            vstd::seq_lib::lemma_multiset_commutative(
                old_out.take(pos as int).push(x),
                old_out.skip(pos as int),
            );
            assert(out@.to_multiset() =~= old_out.to_multiset().insert(x));
            assert(collated@.take(i + 1) =~= collated@.take(i as int).push(x));
            assert(collated@.take(i + 1).to_multiset() =~= collated@.take(
                i as int,
            ).to_multiset().insert(x));
            assert forall|a: int, b: int|
                0 <= a < b < views_of(out@).len() implies grapheme_split(
                #[trigger] views_of(out@)[a],
            ).len() <= grapheme_split(#[trigger] views_of(out@)[b]).len() by {
                if b < pos {
                    assert(views_of(out@)[a] == views_of(old_out)[a]);
                    assert(views_of(out@)[b] == views_of(old_out)[b]);
                } else if b == pos {
                    assert(views_of(out@)[a] == views_of(old_out)[a]);
                    assert(views_of(out@)[b] == collated@[i as int]@);
                } else {
                    if a < pos {
                        assert(views_of(out@)[a] == views_of(old_out)[a]);
                    } else if a == pos {
                        assert(views_of(out@)[a] == collated@[i as int]@);
                    } else {
                        assert(views_of(out@)[a] == views_of(old_out)[a - 1]);
                    }
                    assert(views_of(out@)[b] == views_of(old_out)[b - 1]);
                }
            }
        }
        i = i + 1;
    }
    proof {
        assert(collated@.take(collated@.len() as int) =~= collated@);
    }
    out
}

} // verus!
