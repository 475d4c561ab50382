//! Measurable attributes of a word list: shared prefixes, shortest
//! words, pairwise edit distances, and the unique-decodability test.
use crate::edit_distance::find_edit_distance;
use crate::edit_distance::lemma_str_lev_positive;
use crate::edit_distance::str_lev;
use crate::parse_delimiter;
use crate::split_and_vectorize;
use crate::split_spec;
use crate::strs_views;
use crate::text::is_prefix_of;
use crate::text::is_prefix_spec;
use crate::text::is_suffix_of;
use crate::text::is_suffix_spec;
use crate::text::lemma_views_push;
use crate::text::str_eq;
use crate::text::views_of;
use vstd::prelude::*;
use vstd::string::*;

pub mod uniquely_decodable;

verus! {

/// Whether a list satisfies the Kraft-McMillan inequality, a necessary
/// condition for a uniquely decodable code.
#[derive(Debug, PartialEq, Eq, Structural)]
pub enum KraftMcmillanOutcome {
    Satisfied,
    NotSatisfied,
}

/// The position of the first difference between two words: the first
/// index at which their characters differ, or the length of the
/// shorter word when one is a prefix of the other.
pub open spec fn first_diff(a: Seq<char>, b: Seq<char>) -> int
    decreases a.len(),
{
    if a.len() == 0 || b.len() == 0 {
        0
    } else if a.first() != b.first() {
        0
    } else {
        1 + first_diff(a.drop_first(), b.drop_first())
    }
}

proof fn lemma_first_diff_at(a: Seq<char>, b: Seq<char>, i: int)
    requires
        0 <= i < a.len(),
        0 <= i < b.len(),
        forall|j: int| 0 <= j < i ==> a[j] == b[j],
        a[i] != b[i],
    ensures
        first_diff(a, b) == i,
    decreases i,
{
    if i == 0 {
    } else {
        assert(a.first() == b.first());
        assert forall|j: int| 0 <= j < i - 1 implies a.drop_first()[j] == b.drop_first()[j] by {
            assert(a[j + 1] == b[j + 1]);
        }
        lemma_first_diff_at(a.drop_first(), b.drop_first(), i - 1);
    }
}

proof fn lemma_first_diff_shorter(a: Seq<char>, b: Seq<char>, m: int)
    requires
        m == if a.len() <= b.len() {
            a.len() as int
        } else {
            b.len() as int
        },
        forall|j: int| 0 <= j < m ==> a[j] == b[j],
    ensures
        first_diff(a, b) == m,
    decreases m,
{
    if m == 0 {
        if a.len() != 0 && b.len() != 0 {
            assert(false);
        }
    } else {
        assert(a.first() == b.first());
        assert forall|j: int| 0 <= j < m - 1 implies a.drop_first()[j] == b.drop_first()[j] by {
            assert(a[j + 1] == b[j + 1]);
        }
        lemma_first_diff_shorter(a.drop_first(), b.drop_first(), m - 1);
    }
}

/// Given 2 words, finds the index of the first character that is
/// different within them; for "hello" and "help" that is 3. When the
/// words differ only in length, it falls back to the length of the
/// shorter of the two.
pub fn find_first_different_character_zero_indexed(word1: &str, word2: &str) -> (r: usize)
    ensures
        r == first_diff(word1@, word2@),
{
    let l1 = word1.unicode_len();
    let l2 = word2.unicode_len();
    let mut i: usize = 0;
    while i < l1 && i < l2
        invariant
            0 <= i,
            i <= l1,
            i <= l2,
            l1 == word1@.len(),
            l2 == word2@.len(),
            forall|j: int| 0 <= j < i ==> word1@[j] == word2@[j],
        decreases l1 - i,
    {
        if word1.get_char(i) != word2.get_char(i) {
            proof {
                lemma_first_diff_at(word1@, word2@, i as int);
            }
            return i;
        }
        i = i + 1;
    }
    proof {
        lemma_first_diff_shorter(
            word1@,
            word2@,
            if l1 <= l2 {
                l1 as int
            } else {
                l2 as int
            },
        );
    }
    if l1 < l2 {
        l1
    } else {
        l2
    }
}

/// Nested loops in this function get the longest shared prefix between
/// any two distinct words on the given list: the greatest number of
/// leading characters some pair has in common, a notable cryptographic
/// metric.
pub fn find_longest_shared_prefix(list: &[String]) -> (r: usize)
    ensures
        forall|i: int, j: int|
            0 <= i < list@.len() && 0 <= j < list@.len() && views_of(list@)[i] != views_of(
                list@,
            )[j] ==> first_diff(#[trigger] views_of(list@)[i], #[trigger] views_of(list@)[j]) <= r,
        r == 0 || exists|i: int, j: int|
            0 <= i < list@.len() && 0 <= j < list@.len() && views_of(list@)[i] != views_of(
                list@,
            )[j] && first_diff(#[trigger] views_of(list@)[i], #[trigger] views_of(list@)[j]) == r,
{
    let ghost vs = views_of(list@);
    let mut longest: usize = 0;
    let mut i: usize = 0;
    while i < list.len()
        invariant
            0 <= i <= list@.len(),
            vs == views_of(list@),
            forall|p: int, q: int|
                0 <= p < i && 0 <= q < list@.len() && vs[p] != vs[q] ==> first_diff(
                    #[trigger] vs[p],
                    #[trigger] vs[q],
                ) <= longest,
            longest == 0 || exists|p: int, q: int|
                0 <= p < list@.len() && 0 <= q < list@.len() && vs[p] != vs[q] && first_diff(
                    #[trigger] vs[p],
                    #[trigger] vs[q],
                ) == longest,
        decreases list@.len() - i,
    {
        let mut j: usize = 0;
        while j < list.len()
            invariant
                0 <= j <= list@.len(),
                0 <= i < list@.len(),
                vs == views_of(list@),
                forall|p: int, q: int|
                    0 <= p < i && 0 <= q < list@.len() && vs[p] != vs[q] ==> first_diff(
                        #[trigger] vs[p],
                        #[trigger] vs[q],
                    ) <= longest,
                forall|q: int|
                    0 <= q < j && vs[i as int] != vs[q] ==> first_diff(
                        vs[i as int],
                        #[trigger] vs[q],
                    ) <= longest,
                longest == 0 || exists|p: int, q: int|
                    0 <= p < list@.len() && 0 <= q < list@.len() && vs[p] != vs[q] && first_diff(
                        #[trigger] vs[p],
                        #[trigger] vs[q],
                    ) == longest,
            decreases list@.len() - j,
        {
            if !str_eq(list[i].as_str(), list[j].as_str()) {
                let this_shared_prefix_length = find_first_different_character_zero_indexed(
                    list[i].as_str(),
                    list[j].as_str(),
                );
                if this_shared_prefix_length > longest {
                    longest = this_shared_prefix_length;
                    assert(vs[i as int] != vs[j as int] && first_diff(vs[i as int], vs[j as int])
                        == longest);
                }
            }
            j = j + 1;
        }
        i = i + 1;
    }
    longest
}

/// Checks if a list has any words that are prefixes of other words on
/// the list.
pub fn has_prefix_words(list: &[String]) -> (r: bool)
    ensures
        r == exists|i: int, j: int|
            0 <= i < list@.len() && 0 <= j < list@.len() && #[trigger] views_of(list@)[i]
                != #[trigger] views_of(list@)[j] && is_prefix_spec(
                views_of(list@)[j],
                views_of(list@)[i],
            ),
{
    let ghost vs = views_of(list@);
    let mut i: usize = 0;
    while i < list.len()
        invariant
            0 <= i <= list@.len(),
            vs == views_of(list@),
            forall|p: int, q: int|
                0 <= p < i && 0 <= q < list@.len() ==> !(#[trigger] vs[p] != #[trigger] vs[q]
                    && is_prefix_spec(vs[q], vs[p])),
        decreases list@.len() - i,
    {
        let mut j: usize = 0;
        while j < list.len()
            invariant
                0 <= j <= list@.len(),
                0 <= i < list@.len(),
                vs == views_of(list@),
                forall|q: int|
                    0 <= q < j ==> !(vs[i as int] != #[trigger] vs[q] && is_prefix_spec(
                        vs[q],
                        vs[i as int],
                    )),
            decreases list@.len() - j,
        {
            if !str_eq(list[i].as_str(), list[j].as_str()) && is_prefix_of(
                list[j].as_str(),
                list[i].as_str(),
            ) {
                assert(vs[i as int] != vs[j as int] && is_prefix_spec(vs[j as int], vs[i as int]));
                return true;
            }
            j = j + 1;
        }
        i = i + 1;
    }
    false
}

/// Checks if a list has any words that are suffixes of other words on
/// the list.
pub fn has_suffix_words(list: &[String]) -> (r: bool)
    ensures
        r == exists|i: int, j: int|
            0 <= i < list@.len() && 0 <= j < list@.len() && #[trigger] views_of(list@)[i]
                != #[trigger] views_of(list@)[j] && is_suffix_spec(
                views_of(list@)[j],
                views_of(list@)[i],
            ),
{
    let ghost vs = views_of(list@);
    let mut i: usize = 0;
    while i < list.len()
        invariant
            0 <= i <= list@.len(),
            vs == views_of(list@),
            forall|p: int, q: int|
                0 <= p < i && 0 <= q < list@.len() ==> !(#[trigger] vs[p] != #[trigger] vs[q]
                    && is_suffix_spec(vs[q], vs[p])),
        decreases list@.len() - i,
    {
        let mut j: usize = 0;
        while j < list.len()
            invariant
                0 <= j <= list@.len(),
                0 <= i < list@.len(),
                vs == views_of(list@),
                forall|q: int|
                    0 <= q < j ==> !(vs[i as int] != #[trigger] vs[q] && is_suffix_spec(
                        vs[q],
                        vs[i as int],
                    )),
            decreases list@.len() - j,
        {
            if !str_eq(list[i].as_str(), list[j].as_str()) && is_suffix_of(
                list[j].as_str(),
                list[i].as_str(),
            ) {
                assert(vs[i as int] != vs[j as int] && is_suffix_spec(vs[j as int], vs[i as int]));
                return true;
            }
            j = j + 1;
        }
        i = i + 1;
    }
    false
}

/// A simple helper function that gets the length of the shortest word
/// on a list, counting characters rather than bytes to handle
/// non-English characters; on an empty list it is the largest value
/// the platform can count to.
pub fn get_shortest_word_length(list: &[String]) -> (r: usize)
    ensures
        forall|i: int| 0 <= i < list@.len() ==> r <= #[trigger] views_of(list@)[i].len(),
        r == usize::MAX || exists|i: int|
            0 <= i < list@.len() && #[trigger] views_of(list@)[i].len() == r,
{
    let ghost vs = views_of(list@);
    let mut shortest_word_length: usize = usize::MAX;
    let mut i: usize = 0;
    while i < list.len()
        invariant
            0 <= i <= list@.len(),
            vs == views_of(list@),
            forall|j: int| 0 <= j < i ==> shortest_word_length <= #[trigger] vs[j].len(),
            shortest_word_length == usize::MAX || exists|j: int|
                0 <= j < list@.len() && #[trigger] vs[j].len() == shortest_word_length,
        decreases list@.len() - i,
    {
        let len = list[i].as_str().unicode_len();
        if len < shortest_word_length {
            shortest_word_length = len;
            assert(vs[i as int].len() == shortest_word_length);
        }
        i = i + 1;
    }
    shortest_word_length
}

/// Calculate the shortest edit distance between any two distinct words
/// on the list, comparing each word of the first half against the
/// whole list; on a list with no such pair it is the largest distance
/// representable.
pub fn find_shortest_edit_distance(list: &[String]) -> (r: usize)
    requires
        forall|i: int|
            0 <= i < list@.len() ==> vstd::utf8::encode_utf8(
                #[trigger] views_of(list@)[i],
            ).len() < 0x80000000,
    ensures
        forall|i: int, j: int|
            0 <= i < list@.len() / 2 && 0 <= j < list@.len() && views_of(list@)[i] != views_of(
                list@,
            )[j] ==> r <= str_lev(#[trigger] views_of(list@)[i], #[trigger] views_of(list@)[j]),
        r == u32::MAX as usize || exists|i: int, j: int|
            0 <= i < list@.len() / 2 && 0 <= j < list@.len() && views_of(list@)[i] != views_of(
                list@,
            )[j] && str_lev(#[trigger] views_of(list@)[i], #[trigger] views_of(list@)[j]) == r,
{
    let ghost vs = views_of(list@);
    let mut shortest: u32 = u32::MAX;
    let half = list.len() / 2;
    let mut i: usize = 0;
    while i < half
        invariant
            0 <= i <= half,
            half == list@.len() / 2,
            vs == views_of(list@),
            forall|p: int|
                0 <= p < list@.len() ==> vstd::utf8::encode_utf8(#[trigger] vs[p]).len()
                    < 0x80000000,
            forall|p: int, q: int|
                0 <= p < i && 0 <= q < list@.len() && vs[p] != vs[q] ==> shortest <= str_lev(
                    #[trigger] vs[p],
                    #[trigger] vs[q],
                ),
            shortest == u32::MAX || exists|p: int, q: int|
                0 <= p < half && 0 <= q < list@.len() && vs[p] != vs[q] && str_lev(
                    #[trigger] vs[p],
                    #[trigger] vs[q],
                ) == shortest,
        decreases half - i,
    {
        let mut j: usize = 0;
        while j < list.len()
            invariant
                0 <= j <= list@.len(),
                0 <= i < half,
                half == list@.len() / 2,
                vs == views_of(list@),
                forall|p: int|
                    0 <= p < list@.len() ==> vstd::utf8::encode_utf8(#[trigger] vs[p]).len()
                        < 0x80000000,
                forall|p: int, q: int|
                    0 <= p < i && 0 <= q < list@.len() && vs[p] != vs[q] ==> shortest <= str_lev(
                        #[trigger] vs[p],
                        #[trigger] vs[q],
                    ),
                forall|q: int|
                    0 <= q < j && vs[i as int] != vs[q] ==> shortest <= str_lev(
                        vs[i as int],
                        #[trigger] vs[q],
                    ),
                shortest == u32::MAX || exists|p: int, q: int|
                    0 <= p < half && 0 <= q < list@.len() && vs[p] != vs[q] && str_lev(
                        #[trigger] vs[p],
                        #[trigger] vs[q],
                    ) == shortest,
            decreases list@.len() - j,
        {
            if !str_eq(list[i].as_str(), list[j].as_str()) {
                proof {
                    assert(vstd::utf8::encode_utf8(vs[i as int]).len() < 0x80000000);
                    assert(vstd::utf8::encode_utf8(vs[j as int]).len() < 0x80000000);
                }
                let this_edit_distance = find_edit_distance(list[i].as_str(), list[j].as_str());
                if this_edit_distance < shortest {
                    shortest = this_edit_distance;
                    assert(vs[i as int] != vs[j as int] && str_lev(vs[i as int], vs[j as int])
                        == shortest);
                }
                if shortest == 1 {
                    proof {
                        assert forall|p: int, q: int|
                            0 <= p < list@.len() / 2 && 0 <= q < list@.len() && vs[p]
                                != vs[q] implies 1 <= str_lev(
                            #[trigger] vs[p],
                            #[trigger] vs[q],
                        ) by {
                            lemma_str_lev_positive(vs[p], vs[q]);
                        }
                    }
                    return 1;
                }
            }
            j = j + 1;
        }
        i = i + 1;
    }
    shortest as usize
}

/// Strip the metadata from each line: everything after the delimiter
/// when metadata ends the line, or everything before it when metadata
/// starts the line.
pub fn make_list_free_of_metadata(
    list: &[String],
    ignore_ending_metadata_delimiter: Option<char>,
    ignore_starting_metadata_delimiter: Option<char>,
) -> (r: Vec<String>)
    requires
        !(ignore_ending_metadata_delimiter is Some && ignore_starting_metadata_delimiter is Some),
        ignore_ending_metadata_delimiter matches Some(d) ==> forall|i: int|
            0 <= i < list@.len() ==> split_spec(
                #[trigger] views_of(list@)[i],
                seq![
                    if d == 's' {
                        ' '
                    } else if d == 't' {
                        '\t'
                    } else {
                        d
                    },
                ],
            ).len() >= 2,
        ignore_starting_metadata_delimiter matches Some(d) ==> forall|i: int|
            0 <= i < list@.len() ==> split_spec(
                #[trigger] views_of(list@)[i],
                seq![
                    if d == 's' {
                        ' '
                    } else if d == 't' {
                        '\t'
                    } else {
                        d
                    },
                ],
            ).len() >= 2,
    ensures
        ({
            let ending = ignore_ending_metadata_delimiter;
            let starting = ignore_starting_metadata_delimiter;
            &&& r@.len() == list@.len()
            &&& (ending matches Some(d) ==> forall|i: int|
                0 <= i < list@.len() ==> #[trigger] r@[i]@ == split_spec(
                    views_of(list@)[i],
                    seq![
                        if d == 's' {
                            ' '
                        } else if d == 't' {
                            '\t'
                        } else {
                            d
                        },
                    ],
                )[1])
            &&& (ending is None ==> (starting matches Some(d) ==> forall|i: int|
                0 <= i < list@.len() ==> #[trigger] r@[i]@ == split_spec(
                    views_of(list@)[i],
                    seq![
                        if d == 's' {
                            ' '
                        } else if d == 't' {
                            '\t'
                        } else {
                            d
                        },
                    ],
                )[0]))
            &&& (ending is None && starting is None ==> r@ == list@)
        }),
{
    match (ignore_ending_metadata_delimiter, ignore_starting_metadata_delimiter) {
        (Some(delimiter), None) => {
            let delimiter = match parse_delimiter(delimiter) {
                Some(d) => d,
                None => {
                    proof {
                        assert(false);
                    }
                    ' '
                },
            };
            let mut sep = String::new();
            crate::text::push_char(&mut sep, delimiter);
            proof {
                assert(sep@ =~= seq![delimiter]);
            }
            let mut just_the_words: Vec<String> = Vec::new();
            let mut i: usize = 0;
            while i < list.len()
                invariant
                    0 <= i <= list@.len(),
                    sep@ =~= seq![delimiter],
                    forall|p: int|
                        0 <= p < list@.len() ==> split_spec(
                            #[trigger] views_of(list@)[p],
                            sep@,
                        ).len() >= 2,
                    just_the_words@.len() == i,
                    forall|p: int|
                        0 <= p < i ==> #[trigger] just_the_words@[p]@ == split_spec(
                            views_of(list@)[p],
                            sep@,
                        )[1],
                decreases list@.len() - i,
            {
                proof {
                    assert(views_of(list@)[i as int] == list@[i as int]@);
                }
                let split_vec = split_and_vectorize(list[i].as_str(), sep.as_str());
                proof {
                    assert(strs_views(split_vec@) == split_spec(views_of(list@)[i as int], sep@));
                }
                assert(strs_views(split_vec@).len() >= 2);
                let piece = split_vec[1].to_owned();
                assert(piece@ == strs_views(split_vec@)[1]);
                assert(piece@ == split_spec(views_of(list@)[i as int], sep@)[1]);
                just_the_words.push(piece);
                i = i + 1;
            }
            just_the_words
        },
        (None, Some(delimiter)) => {
            let delimiter = match parse_delimiter(delimiter) {
                Some(d) => d,
                None => {
                    proof {
                        assert(false);
                    }
                    ' '
                },
            };
            let mut sep = String::new();
            crate::text::push_char(&mut sep, delimiter);
            proof {
                assert(sep@ =~= seq![delimiter]);
            }
            let mut just_the_words: Vec<String> = Vec::new();
            let mut i: usize = 0;
            while i < list.len()
                invariant
                    0 <= i <= list@.len(),
                    sep@ =~= seq![delimiter],
                    forall|p: int|
                        0 <= p < list@.len() ==> split_spec(
                            #[trigger] views_of(list@)[p],
                            sep@,
                        ).len() >= 2,
                    just_the_words@.len() == i,
                    forall|p: int|
                        0 <= p < i ==> #[trigger] just_the_words@[p]@ == split_spec(
                            views_of(list@)[p],
                            sep@,
                        )[0],
                decreases list@.len() - i,
            {
                proof {
                    assert(views_of(list@)[i as int] == list@[i as int]@);
                }
                let split_vec = split_and_vectorize(list[i].as_str(), sep.as_str());
                proof {
                    assert(strs_views(split_vec@) == split_spec(views_of(list@)[i as int], sep@));
                }
                assert(strs_views(split_vec@).len() >= 2);
                let piece = split_vec[0].to_owned();
                assert(piece@ == strs_views(split_vec@)[0]);
                assert(piece@ == split_spec(views_of(list@)[i as int], sep@)[0]);
                just_the_words.push(piece);
                i = i + 1;
            }
            just_the_words
        },
        (Some(_), Some(_)) => {
            proof {
                assert(false);
            }
            Vec::new()
        },
        (None, None) => crate::text::clone_words_slice(list),
    }
}

} // verus!
