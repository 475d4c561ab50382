//! Tools for tidying word lists into clean, constraint-satisfying lists
//! suitable for passphrase dictionaries: unique-decodability analysis and
//! pruning, edit-distance enforcement, shared-prefix enforcement, and the
//! word-level clean-up steps around them.
use crate::text::str_eq;
use crate::unicode::grapheme_clusters;
use vstd::prelude::*;
use vstd::string::*;

pub mod display_information;
pub mod edit_distance;
pub mod file_readers;
pub mod file_writer;
pub mod input_validations;
pub mod list_manipulations;
pub mod parsers;
pub mod sardinas_patterson_pruning;
pub mod text;
pub mod unicode;

verus! {

/// When counting characters of a word, all accented characters and
/// multi-code-point emoji count as 1, to better approximate how humans
/// would count: the count is the number of extended grapheme clusters.
pub fn count_characters(word: &str) -> (r: usize)
    ensures
        r == crate::unicode::grapheme_split(word@).len(),
{
    grapheme_clusters(word).len()
}

/// The description of one tidying run: the input list and every
/// requested operation.
#[derive(Debug, Clone)]
pub struct TidyRequest {
    pub list: Vec<String>,
    pub take_first: Option<usize>,
    pub take_rand: Option<usize>,
    pub sort_alphabetically: bool,
    pub sort_by_length: bool,
    pub ignore_after_delimiter: Option<char>,
    pub ignore_before_delimiter: Option<char>,
    pub normalization_form: Option<String>,
    pub locale: String,
    pub to_lowercase: bool,
    pub should_straighten_quotes: bool,
    pub should_remove_prefix_words: bool,
    pub should_remove_suffix_words: bool,
    pub should_schlinkert_prune: bool,
    pub should_remove_nonalphanumeric: bool,
    pub should_delete_nonalphanumeric: bool,
    pub should_remove_nonalphabetic: bool,
    pub should_remove_non_latin_alphabetic: bool,
    pub should_remove_nonascii: bool,
    pub should_remove_integers: bool,
    pub should_delete_integers: bool,
    pub should_delete_after_first_delimiter: Option<char>,
    pub should_delete_before_first_delimiter: Option<char>,
    pub reject_list: Option<Vec<String>>,
    pub approved_list: Option<Vec<String>>,
    pub homophones_list: Option<Vec<(String, String)>>,
    pub minimum_length: Option<usize>,
    pub maximum_length: Option<usize>,
    pub maximum_shared_prefix_length: Option<usize>,
    pub minimum_edit_distance: Option<usize>,
    pub print_rand: Option<usize>,
    pub print_first: Option<usize>,
}

impl Default for TidyRequest {
    /// A request that asks for nothing: an empty list and every
    /// operation switched off.
    fn default() -> (r: Self)
        ensures
            r.list@ == Seq::<String>::empty(),
            r.take_first is None,
            r.take_rand is None,
            r.sort_alphabetically == false,
            r.sort_by_length == false,
            r.ignore_after_delimiter is None,
            r.ignore_before_delimiter is None,
            r.normalization_form is None,
            r.locale@ == Seq::<char>::empty(),
            r.to_lowercase == false,
            r.should_straighten_quotes == false,
            r.should_remove_prefix_words == false,
            r.should_remove_suffix_words == false,
            r.should_schlinkert_prune == false,
            r.should_remove_nonalphanumeric == false,
            r.should_delete_nonalphanumeric == false,
            r.should_remove_nonalphabetic == false,
            r.should_remove_non_latin_alphabetic == false,
            r.should_remove_nonascii == false,
            r.should_remove_integers == false,
            r.should_delete_integers == false,
            r.should_delete_after_first_delimiter is None,
            r.should_delete_before_first_delimiter is None,
            r.reject_list is None,
            r.approved_list is None,
            r.homophones_list is None,
            r.minimum_length is None,
            r.maximum_length is None,
            r.maximum_shared_prefix_length is None,
            r.minimum_edit_distance is None,
            r.print_rand is None,
            r.print_first is None,
    {
        TidyRequest {
            list: Vec::new(),
            take_first: None,
            take_rand: None,
            sort_alphabetically: false,
            sort_by_length: false,
            ignore_after_delimiter: None,
            ignore_before_delimiter: None,
            normalization_form: None,
            locale: String::new(),
            to_lowercase: false,
            should_straighten_quotes: false,
            should_remove_prefix_words: false,
            should_remove_suffix_words: false,
            should_schlinkert_prune: false,
            should_remove_nonalphanumeric: false,
            should_delete_nonalphanumeric: false,
            should_remove_nonalphabetic: false,
            should_remove_non_latin_alphabetic: false,
            should_remove_nonascii: false,
            should_remove_integers: false,
            should_delete_integers: false,
            should_delete_after_first_delimiter: None,
            should_delete_before_first_delimiter: None,
            reject_list: None,
            approved_list: None,
            homophones_list: None,
            minimum_length: None,
            maximum_length: None,
            maximum_shared_prefix_length: None,
            minimum_edit_distance: None,
            print_rand: None,
            print_first: None,
        }
    }
}

/// The character sequences of a list of string slices.
pub open spec fn strs_views(list: Seq<&str>) -> Seq<Seq<char>> {
    list.map_values(|p: &str| p@)
}

/// Whether `sep` occurs in `s` starting at position `q`.
pub open spec fn match_at(s: Seq<char>, sep: Seq<char>, q: int) -> bool {
    0 <= q && q + sep.len() <= s.len() && s.subrange(q, q + sep.len()) == sep
}

/// The position of the leftmost occurrence of `sep` in `s`, or `-1`
/// when there is none.
pub open spec fn first_match(s: Seq<char>, sep: Seq<char>) -> int
    decreases s.len(),
{
    if s.len() < sep.len() {
        -1
    } else if s.subrange(0, sep.len() as int) == sep {
        0
    } else if s.len() == 0 {
        -1
    } else {
        let r = first_match(s.drop_first(), sep);
        if r == -1 {
            -1
        } else {
            r + 1
        }
    }
}

/// The pieces of `s` between the non-overlapping, leftmost-first
/// occurrences of `sep`: splitting "a:b:c" at ":" yields "a", "b",
/// "c", and occurrences at either end contribute empty pieces.
pub open spec fn split_spec(s: Seq<char>, sep: Seq<char>) -> Seq<Seq<char>>
    decreases s.len(),
{
    if sep.len() == 0 {
        seq![s]
    } else {
        let j = first_match(s, sep);
        if j == -1 {
            seq![s]
        } else if 0 <= j && j + sep.len() <= s.len() {
            seq![s.take(j)] + split_spec(s.skip(j + sep.len()), sep)
        } else {
            seq![s]
        }
    }
}

/// Occurrences in a tail of `s` are occurrences in `s`, shifted.
proof fn lemma_match_at_shift(s: Seq<char>, sep: Seq<char>, t: int, q: int)
    requires
        0 <= t <= s.len(),
        0 <= q,
    ensures
        match_at(s.skip(t), sep, q) <==> match_at(s, sep, t + q),
{
    if q + sep.len() <= s.len() - t {
        assert(s.skip(t).subrange(q, q + sep.len()) =~= s.subrange(t + q, t + q + sep.len()));
    }
}

/// A scan that saw no occurrence before `q` and one at `q` has found
/// the leftmost occurrence.
proof fn lemma_first_match_found(s: Seq<char>, sep: Seq<char>, q: int)
    requires
        0 <= q,
        forall|p: int| 0 <= p < q ==> !match_at(s, sep, p),
        match_at(s, sep, q),
    ensures
        first_match(s, sep) == q,
    decreases s.len(),
{
    if s.len() < sep.len() {
        assert(!match_at(s, sep, q));
    } else if s.subrange(0, sep.len() as int) == sep {
        assert(match_at(s, sep, 0));
        assert(q == 0);
    } else {
        assert(s.len() >= sep.len());
        if q == 0 {
            assert(s.subrange(0, sep.len() as int) == sep);
        }
        assert(q >= 1);
        assert(s.drop_first() =~= s.skip(1));
        lemma_match_at_shift(s, sep, 1, q - 1);
        assert forall|p: int| 0 <= p < q - 1 implies !match_at(s.drop_first(), sep, p) by {
            lemma_match_at_shift(s, sep, 1, p);
        }
        lemma_first_match_found(s.drop_first(), sep, q - 1);
    }
}

/// A scan that saw no occurrence anywhere has found none.
proof fn lemma_first_match_none(s: Seq<char>, sep: Seq<char>)
    requires
        forall|p: int| 0 <= p ==> !match_at(s, sep, p),
    ensures
        first_match(s, sep) == -1,
    decreases s.len(),
{
    if s.len() < sep.len() {
    } else if s.subrange(0, sep.len() as int) == sep {
        assert(match_at(s, sep, 0));
    } else if s.len() == 0 {
    } else {
        assert(s.drop_first() =~= s.skip(1));
        assert forall|p: int| 0 <= p implies !match_at(s.drop_first(), sep, p) by {
            lemma_match_at_shift(s, sep, 1, p);
        }
        lemma_first_match_none(s.drop_first(), sep);
    }
}

/// Simple helper function that splits a `str` by a given substring
/// `str`, then returns a vector of `str` pieces: splitting "a:b:c" at
/// ":" yields "a", "b", "c".
pub fn split_and_vectorize<'a>(string_to_split: &'a str, splitter: &str) -> (r: Vec<&'a str>)
    requires
        splitter@.len() >= 1,
    ensures
        strs_views(r@) == split_spec(string_to_split@, splitter@),
{
    let s = string_to_split;
    let ghost sv = s@;
    let ghost pv = splitter@;
    let n = s.unicode_len();
    let m = splitter.unicode_len();
    let mut r: Vec<&'a str> = Vec::new();
    let mut seg_start: usize = 0;
    let mut i: usize = 0;
    proof {
        assert(sv.skip(0) =~= sv);
        assert(strs_views(r@) =~= Seq::<Seq<char>>::empty());
        assert(strs_views(r@) + split_spec(sv.skip(0), pv) =~= split_spec(sv, pv));
    }
    while m <= n && i <= n - m
        invariant
            0 <= seg_start <= i <= n,
            sv == s@,
            pv == splitter@,
            n == sv.len(),
            m == pv.len(),
            m >= 1,
            split_spec(sv, pv) == strs_views(r@) + split_spec(sv.skip(seg_start as int), pv),
            forall|p: int| seg_start <= p < i ==> !match_at(sv, pv, p),
        decreases n - i,
    {
        let piece = s.substring_char(i, i + m);
        if str_eq(piece, splitter) {
            assert(match_at(sv, pv, i as int));
            let ghost tail = sv.skip(seg_start as int);
            proof {
                assert forall|p: int| 0 <= p < i - seg_start implies !match_at(tail, pv, p) by {
                    lemma_match_at_shift(sv, pv, seg_start as int, p);
                }
                lemma_match_at_shift(sv, pv, seg_start as int, i - seg_start);
                lemma_first_match_found(tail, pv, i - seg_start);
                assert(tail.take(i - seg_start) =~= sv.subrange(seg_start as int, i as int));
                assert(tail.skip(i - seg_start + m) =~= sv.skip(i + m));
            }
            let segment = s.substring_char(seg_start, i);
            let ghost old_r = r@;
            r.push(segment);
            proof {
                assert(strs_views(r@) =~= strs_views(old_r).push(sv.subrange(
                    seg_start as int,
                    i as int,
                )));
                assert(split_spec(tail, pv) == seq![tail.take(i - seg_start)] + split_spec(
                    tail.skip(i - seg_start + m),
                    pv,
                ));
                assert(strs_views(r@) + split_spec(sv.skip(i + m), pv) =~= (strs_views(old_r)
                    + split_spec(tail, pv)));
            }
            seg_start = i + m;
            i = i + m;
        } else {
            assert(!match_at(sv, pv, i as int)) by {
                assert(piece@ == sv.subrange(i as int, i + m));
            }
            i = i + 1;
        }
    }
    let last = s.substring_char(seg_start, n);
    let ghost old_r = r@;
    let ghost tail = sv.skip(seg_start as int);
    r.push(last);
    proof {
        assert forall|p: int| 0 <= p implies !match_at(tail, pv, p) by {
            if p < i - seg_start {
                lemma_match_at_shift(sv, pv, seg_start as int, p);
            } else {
                if match_at(tail, pv, p) {
                    lemma_match_at_shift(sv, pv, seg_start as int, p);
                    assert(match_at(sv, pv, seg_start + p));
                    assert(seg_start + p + m > n);
                }
            }
        }
        lemma_first_match_none(tail, pv);
        assert(last@ == tail) by {
            assert(sv.subrange(seg_start as int, n as int) =~= tail);
        }
        assert(strs_views(r@) =~= strs_views(old_r).push(tail));
        assert(split_spec(tail, pv) == seq![tail]);
        assert(strs_views(r@) =~= strs_views(old_r) + seq![tail]);
        assert(strs_views(r@) =~= split_spec(sv, pv));
    }
    r
}

/// Little helper function that allows users to write out the
/// whitespace delimiters as the letters `s` and `t`, rather than
/// having to enter the whitespace characters literally.
pub fn parse_delimiter(delimiter: char) -> (r: Option<char>)
    ensures
        r == Some(
            if delimiter == 's' {
                ' '
            } else if delimiter == 't' {
                '\t'
            } else {
                delimiter
            },
        ),
{
    if delimiter == 's' {
        Some(' ')
    } else if delimiter == 't' {
        Some('\t')
    } else {
        Some(delimiter)
    }
}

/// The step that a whittling pass takes toward the target length: the
/// mismatch scaled by the ratio of the starting point to the target,
/// and at least 1, so that the search cannot stall.
pub open spec fn whittle_change(difference: int, starting_point: int, target: int) -> int {
    let c = difference * starting_point / target;
    if c == 0 {
        1
    } else {
        c
    }
}

/// Used for whittling a list to an exact length: from the length the
/// last pass produced, guess the starting length for the next pass,
/// stepping down when the list came out too long and up when it came
/// out too short.
pub fn get_new_starting_point_guess(
    previous_starting_point: usize,
    this_list_length: usize,
    length_to_whittle_to: usize,
) -> (r: usize)
    requires
        length_to_whittle_to > 0,
        this_list_length > length_to_whittle_to ==> whittle_change(
            this_list_length - length_to_whittle_to,
            previous_starting_point as int,
            length_to_whittle_to as int,
        ) <= previous_starting_point,
        this_list_length <= length_to_whittle_to ==> previous_starting_point + whittle_change(
            length_to_whittle_to - this_list_length,
            previous_starting_point as int,
            length_to_whittle_to as int,
        ) <= usize::MAX,
    ensures
        this_list_length > length_to_whittle_to ==> r == previous_starting_point - whittle_change(
            this_list_length - length_to_whittle_to,
            previous_starting_point as int,
            length_to_whittle_to as int,
        ),
        this_list_length <= length_to_whittle_to ==> r == previous_starting_point + whittle_change(
            length_to_whittle_to - this_list_length,
            previous_starting_point as int,
            length_to_whittle_to as int,
        ),
{
    if this_list_length > length_to_whittle_to {
        let difference = this_list_length - length_to_whittle_to;
        proof {
            vstd::arithmetic::mul::lemma_mul_upper_bound(
                difference as int,
                u64::MAX as int,
                previous_starting_point as int,
                u64::MAX as int,
            );
        }
        let scaled: u128 = (difference as u128) * (previous_starting_point as u128)
            / (length_to_whittle_to as u128);
        proof {
            assert(scaled as int == difference as int * previous_starting_point as int
                / length_to_whittle_to as int);
        }
        let mut change: usize = scaled as usize;
        if change == 0 {
            change = 1;
        }
        previous_starting_point - change
    } else {
        let difference = length_to_whittle_to - this_list_length;
        proof {
            vstd::arithmetic::mul::lemma_mul_upper_bound(
                difference as int,
                u64::MAX as int,
                previous_starting_point as int,
                u64::MAX as int,
            );
        }
        let scaled: u128 = (difference as u128) * (previous_starting_point as u128)
            / (length_to_whittle_to as u128);
        proof {
            assert(scaled as int == difference as int * previous_starting_point as int
                / length_to_whittle_to as int);
        }
        let mut change: usize = scaled as usize;
        if change == 0 {
            change = 1;
        }
        previous_starting_point + change
    }
}

/// A delimiter as the user writes it: `s` stands for a space and `t`
/// for a tab.
pub open spec fn parse_delim_spec(d: char) -> char {
    if d == 's' {
        ' '
    } else if d == 't' {
        '\t'
    } else {
        d
    }
}

/// Whether `c` is a basic Latin letter, judged from its low 16 bits of
/// code point, as the Latin-alphabet filter does.
pub open spec fn latin_char(c: char) -> bool {
    let u = (c as u32) as u16;
    65 <= u <= 90 || 97 <= u <= 122
}

/// A word split from its metadata: the word part, and, when metadata
/// was found, the metadata, the delimiter, and whether the metadata
/// belongs at the end of the line.
pub open spec fn metadata_split(req: &TidyRequest, word: Seq<char>) -> (
    Seq<char>,
    Option<(Seq<char>, char, bool)>,
) {
    match req.ignore_after_delimiter {
        Some(d0) => {
            let d = parse_delim_spec(d0);
            let pieces = split_spec(word, seq![d]);
            if pieces.len() == 1 {
                (word, None)
            } else {
                (pieces[0], Some((pieces[1], d, true)))
            }
        },
        None => match req.ignore_before_delimiter {
            Some(d0) => {
                let d = parse_delim_spec(d0);
                let pieces = split_spec(word, seq![d]);
                if pieces.len() == 1 {
                    (word, None)
                } else {
                    (pieces[1], Some((pieces[0], d, false)))
                }
            },
            None => (word, None),
        },
    }
}

/// Trim the word, then normalize it when a normalization form was
/// requested.
pub open spec fn step_normalize(req: &TidyRequest, core: Seq<char>) -> Seq<char> {
    match req.normalization_form {
        Some(nf) => if crate::text::matches_ci(nf@, "nfc"@) {
            crate::unicode::nfc_of(crate::text::trim_spec(core))
        } else if crate::text::matches_ci(nf@, "nfd"@) {
            crate::unicode::nfd_of(crate::text::trim_spec(core))
        } else if crate::text::matches_ci(nf@, "nfkc"@) {
            crate::unicode::nfkc_of(crate::text::trim_spec(core))
        } else {
            crate::unicode::nfkd_of(crate::text::trim_spec(core))
        },
        None => crate::text::trim_spec(core),
    }
}

/// Delete everything through the first requested delimiter, when one
/// was requested.
pub open spec fn step_delete_before(req: &TidyRequest, w: Seq<char>) -> Seq<char> {
    match req.should_delete_before_first_delimiter {
        Some(d0) => {
            let d = parse_delim_spec(d0);
            if crate::list_manipulations::char_index(w, d) == -1 {
                w
            } else {
                w.skip(crate::list_manipulations::char_index(w, d) + 1)
            }
        },
        None => w,
    }
}

/// Delete everything from the first requested delimiter on, when one
/// was requested.
pub open spec fn step_delete_after(req: &TidyRequest, w: Seq<char>) -> Seq<char> {
    match req.should_delete_after_first_delimiter {
        Some(d0) => {
            let d = parse_delim_spec(d0);
            if crate::list_manipulations::char_index(w, d) == -1 {
                w
            } else {
                w.take(crate::list_manipulations::char_index(w, d))
            }
        },
        None => w,
    }
}

/// Delete the numeric characters, when requested and any are present.
pub open spec fn step_delete_integers(req: &TidyRequest, w: Seq<char>) -> Seq<char> {
    if req.should_delete_integers && (exists|i: int|
        0 <= i < w.len() && crate::unicode::is_numeric_char(#[trigger] w[i])) {
        w.filter(|c: char| !crate::unicode::is_numeric_char(c))
    } else {
        w
    }
}

/// Delete the non-alphanumeric characters, when requested and any
/// alphanumeric character is present.
pub open spec fn step_delete_nonalphanumeric(req: &TidyRequest, w: Seq<char>) -> Seq<char> {
    if req.should_delete_nonalphanumeric && (exists|i: int|
        0 <= i < w.len() && crate::unicode::is_alphanumeric_char(#[trigger] w[i])) {
        w.filter(|c: char| crate::unicode::is_alphanumeric_char(c))
    } else {
        w
    }
}

/// Lowercase the ASCII letters, when requested.
pub open spec fn step_lowercase(req: &TidyRequest, w: Seq<char>) -> Seq<char> {
    if req.to_lowercase {
        w.map_values(|c: char| crate::unicode::lower_char_spec(c))
    } else {
        w
    }
}

/// Straighten curly quotes, when requested.
pub open spec fn step_straighten(req: &TidyRequest, w: Seq<char>) -> Seq<char> {
    if req.should_straighten_quotes {
        w.map_values(|c: char| crate::list_manipulations::straighten_char(c))
    } else {
        w
    }
}

/// The word-modification steps, in their fixed order: trim and
/// normalize, delete around delimiters, delete numeric or
/// non-alphanumeric characters, lowercase, straighten quotes, and trim
/// once more.
pub open spec fn cleaned_word(req: &TidyRequest, core: Seq<char>) -> Seq<char> {
    crate::text::trim_spec(
        step_straighten(
            req,
            step_lowercase(
                req,
                step_delete_nonalphanumeric(
                    req,
                    step_delete_integers(
                        req,
                        step_delete_after(req, step_delete_before(req, step_normalize(req, core))),
                    ),
                ),
            ),
        ),
    )
}

/// Whether a cleaned word passes every requested removal check.
pub open spec fn passes_removals(req: &TidyRequest, w: Seq<char>) -> bool {
    &&& (req.should_remove_nonascii ==> vstd::utf8::is_ascii_chars(w))
    &&& (req.should_remove_nonalphanumeric ==> !(exists|i: int|
        0 <= i < w.len() && !crate::unicode::is_alphanumeric_char(#[trigger] w[i])))
    &&& (req.should_remove_nonalphabetic ==> !(exists|i: int|
        0 <= i < w.len() && !crate::unicode::is_alphabetic_char(#[trigger] w[i])))
    &&& (req.should_remove_non_latin_alphabetic ==> !(exists|i: int|
        0 <= i < w.len() && !latin_char(#[trigger] w[i])))
    &&& (req.should_remove_integers ==> !(exists|i: int|
        0 <= i < w.len() && crate::unicode::is_numeric_char(#[trigger] w[i])))
    &&& (match req.reject_list {
        Some(rl) => !crate::text::views_of(rl@).contains(w),
        None => true,
    })
    &&& (match req.approved_list {
        Some(al) => crate::text::views_of(al@).contains(w),
        None => true,
    })
    &&& (match req.minimum_length {
        Some(m) => crate::unicode::grapheme_split(w).len() >= m,
        None => true,
    })
    &&& (match req.maximum_length {
        Some(m) => crate::unicode::grapheme_split(w).len() <= m,
        None => true,
    })
}

/// The metadata re-attached to a surviving word, and the final trim
/// and emptiness check.
pub open spec fn finalize_word(meta: Option<(Seq<char>, char, bool)>, w: Seq<char>) -> Option<
    Seq<char>,
> {
    let w9 = if w.len() > 0 {
        match meta {
            Some((m, d, at_end)) => if at_end {
                w + seq![d] + m
            } else {
                m + seq![d] + w
            },
            None => w,
        }
    } else {
        w
    };
    let w10 = crate::text::trim_spec(w9);
    if w10.len() == 0 {
        None
    } else {
        Some(w10)
    }
}

/// What one word of the input list becomes: the cleaned word with its
/// metadata, or nothing when a removal step drops it or it comes out
/// empty.
pub open spec fn process_word(req: &TidyRequest, word: Seq<char>) -> Option<Seq<char>> {
    let (core, meta) = metadata_split(req, word);
    let w = cleaned_word(req, core);
    if passes_removals(req, w) {
        finalize_word(meta, w)
    } else {
        None
    }
}

/// Whether any character of the string is numeric.
fn contains_numeric(s: &str) -> (r: bool)
    ensures
        r == exists|i: int|
            0 <= i < s@.len() && crate::unicode::is_numeric_char(#[trigger] s@[i]),
{
    let n = s.unicode_len();
    let mut i: usize = 0;
    while i < n
        invariant
            0 <= i <= n,
            n == s@.len(),
            forall|j: int| 0 <= j < i ==> !crate::unicode::is_numeric_char(#[trigger] s@[j]),
        decreases n - i,
    {
        if s.get_char(i).is_numeric() {
            assert(crate::unicode::is_numeric_char(s@[i as int]));
            return true;
        }
        i = i + 1;
    }
    false
}

/// Whether any character of the string is alphanumeric.
fn contains_alphanumeric(s: &str) -> (r: bool)
    ensures
        r == exists|i: int|
            0 <= i < s@.len() && crate::unicode::is_alphanumeric_char(#[trigger] s@[i]),
{
    let n = s.unicode_len();
    let mut i: usize = 0;
    while i < n
        invariant
            0 <= i <= n,
            n == s@.len(),
            forall|j: int| 0 <= j < i ==> !crate::unicode::is_alphanumeric_char(#[trigger] s@[j]),
        decreases n - i,
    {
        if s.get_char(i).is_alphanumeric() {
            assert(crate::unicode::is_alphanumeric_char(s@[i as int]));
            return true;
        }
        i = i + 1;
    }
    false
}

/// Whether any character of the string is not alphanumeric.
fn contains_nonalphanumeric(s: &str) -> (r: bool)
    ensures
        r == exists|i: int|
            0 <= i < s@.len() && !crate::unicode::is_alphanumeric_char(#[trigger] s@[i]),
{
    let n = s.unicode_len();
    let mut i: usize = 0;
    while i < n
        invariant
            0 <= i <= n,
            n == s@.len(),
            forall|j: int| 0 <= j < i ==> crate::unicode::is_alphanumeric_char(#[trigger] s@[j]),
        decreases n - i,
    {
        if !s.get_char(i).is_alphanumeric() {
            assert(!crate::unicode::is_alphanumeric_char(s@[i as int]));
            return true;
        }
        i = i + 1;
    }
    false
}

/// Whether any character of the string is not alphabetic.
fn contains_nonalphabetic(s: &str) -> (r: bool)
    ensures
        r == exists|i: int|
            0 <= i < s@.len() && !crate::unicode::is_alphabetic_char(#[trigger] s@[i]),
{
    let n = s.unicode_len();
    let mut i: usize = 0;
    while i < n
        invariant
            0 <= i <= n,
            n == s@.len(),
            forall|j: int| 0 <= j < i ==> crate::unicode::is_alphabetic_char(#[trigger] s@[j]),
        decreases n - i,
    {
        if !s.get_char(i).is_alphabetic() {
            assert(!crate::unicode::is_alphabetic_char(s@[i as int]));
            return true;
        }
        i = i + 1;
    }
    false
}

/// Whether any character of the string is not a basic Latin letter.
fn contains_non_latin(s: &str) -> (r: bool)
    ensures
        r == exists|i: int| 0 <= i < s@.len() && !latin_char(#[trigger] s@[i]),
{
    let n = s.unicode_len();
    let mut i: usize = 0;
    while i < n
        invariant
            0 <= i <= n,
            n == s@.len(),
            forall|j: int| 0 <= j < i ==> latin_char(#[trigger] s@[j]),
        decreases n - i,
    {
        let c = s.get_char(i);
        let u: u16 = (c as u32) as u16;
        if !crate::list_manipulations::is_latin_alphabetic(u) {
            assert(!latin_char(s@[i as int]));
            return false || true;
        }
        assert(latin_char(s@[i as int]));
        i = i + 1;
    }
    false
}

/// Run the modification, removal and metadata steps on one word.
#[verifier::rlimit(100)]
#[verifier::spinoff_prover]
fn process_one_word(req: &TidyRequest, word: &str) -> (r: Option<String>)
    requires
        !(req.ignore_after_delimiter is Some && req.ignore_before_delimiter is Some),
        req.normalization_form matches Some(nf) ==> (crate::text::matches_ci(nf@, "nfc"@)
            || crate::text::matches_ci(nf@, "nfd"@) || crate::text::matches_ci(nf@, "nfkc"@)
            || crate::text::matches_ci(nf@, "nfkd"@)),
    ensures
        r is Some <==> process_word(req, word@) is Some,
        r matches Some(w) ==> Some(w@) == process_word(req, word@),
{
    let ghost split_ghost = metadata_split(req, word@);
    // Split off the metadata, if a delimiter was given.
    let mut new_word: String;
    let mut metadata: Option<String> = None;
    let mut delim: char = ' ';
    let mut meta_at_end: bool = false;
    if let Some(d0) = req.ignore_after_delimiter {
        let d = match parse_delimiter(d0) {
            Some(d) => d,
            None => {
                proof {
                    assert(false);
                }
                ' '
            },
        };
        let mut sep = String::new();
        crate::text::push_char(&mut sep, d);
        proof {
            assert(sep@ =~= seq![d]);
        }
        let pieces = split_and_vectorize(word, sep.as_str());
        if pieces.len() == 1 {
            new_word = word.to_owned();
            proof {
                assert(split_ghost == (word@, Option::<(Seq<char>, char, bool)>::None));
            }
        } else {
            new_word = pieces[0].to_owned();
            metadata = Some(pieces[1].to_owned());
            delim = d;
            meta_at_end = true;
            proof {
                assert(strs_views(pieces@)[0] == split_spec(word@, seq![d])[0]);
                assert(strs_views(pieces@)[1] == split_spec(word@, seq![d])[1]);
            }
        }
    } else if let Some(d0) = req.ignore_before_delimiter {
        let d = match parse_delimiter(d0) {
            Some(d) => d,
            None => {
                proof {
                    assert(false);
                }
                ' '
            },
        };
        let mut sep = String::new();
        crate::text::push_char(&mut sep, d);
        proof {
            assert(sep@ =~= seq![d]);
        }
        let pieces = split_and_vectorize(word, sep.as_str());
        if pieces.len() == 1 {
            new_word = word.to_owned();
            proof {
                assert(split_ghost == (word@, Option::<(Seq<char>, char, bool)>::None));
            }
        } else {
            new_word = pieces[1].to_owned();
            metadata = Some(pieces[0].to_owned());
            delim = d;
            meta_at_end = false;
            proof {
                assert(strs_views(pieces@)[0] == split_spec(word@, seq![d])[0]);
                assert(strs_views(pieces@)[1] == split_spec(word@, seq![d])[1]);
            }
        }
    } else {
        new_word = word.to_owned();
    }
    proof {
        assert(new_word@ == split_ghost.0);
        assert(match split_ghost.1 {
            Some((m, d, at_end)) => metadata matches Some(ms) && ms@ == m && delim == d
                && meta_at_end == at_end,
            None => metadata is None,
        });
    }
    // Trim, then normalize if a normalization form was given.
    let ghost c0 = split_ghost.0;
    let trimmed = crate::text::trim_str(new_word.as_str()).to_owned();
    let mut w: String;
    match &req.normalization_form {
        Some(nf) => {
            match crate::list_manipulations::normalize_unicode(trimmed.as_str(), nf.as_str()) {
                Ok(normalized) => {
                    w = normalized;
                },
                Err(_) => {
                    proof {
                        assert(false);
                    }
                    w = String::new();
                },
            }
        },
        None => {
            w = trimmed;
        },
    }
    let ghost v1 = step_normalize(req, c0);
    proof {
        assert(w@ == v1);
    }
    // Word modifications, in order.
    if let Some(d0) = req.should_delete_before_first_delimiter {
        let d = match parse_delimiter(d0) {
            Some(d) => d,
            None => {
                proof {
                    assert(false);
                }
                ' '
            },
        };
        w = crate::list_manipulations::delete_before_first_char(w.as_str(), d).to_owned();
    }
    let ghost v2 = step_delete_before(req, v1);
    proof {
        assert(w@ == v2);
    }
    if let Some(d0) = req.should_delete_after_first_delimiter {
        let d = match parse_delimiter(d0) {
            Some(d) => d,
            None => {
                proof {
                    assert(false);
                }
                ' '
            },
        };
        w = crate::list_manipulations::delete_after_first_char(w.as_str(), d).to_owned();
    }
    let ghost v3 = step_delete_after(req, v2);
    proof {
        assert(w@ == v3);
    }
    if req.should_delete_integers && contains_numeric(w.as_str()) {
        w = crate::list_manipulations::delete_integers(w);
    }
    let ghost v4 = step_delete_integers(req, v3);
    proof {
        assert(w@ == v4);
    }
    if req.should_delete_nonalphanumeric && contains_alphanumeric(w.as_str()) {
        w = crate::list_manipulations::delete_nonalphanumeric(w);
    }
    let ghost v5 = step_delete_nonalphanumeric(req, v4);
    proof {
        assert(w@ == v5);
    }
    if req.to_lowercase {
        w = crate::text::ascii_lowercase(w.as_str());
    }
    let ghost v6 = step_lowercase(req, v5);
    proof {
        assert(w@ == v6);
    }
    if req.should_straighten_quotes {
        w = crate::list_manipulations::straighten_quotes(w.as_str());
    }
    let ghost v7 = step_straighten(req, v6);
    proof {
        assert(w@ == v7);
    }
    let w = crate::text::trim_str(w.as_str()).to_owned();
    proof {
        assert(w@ == cleaned_word(req, split_ghost.0));
    }
    // Word removals.
    if req.should_remove_nonascii && !w.as_str().is_ascii() {
        return None;
    }
    if req.should_remove_nonalphanumeric && contains_nonalphanumeric(w.as_str()) {
        return None;
    }
    if req.should_remove_nonalphabetic && contains_nonalphabetic(w.as_str()) {
        return None;
    }
    if req.should_remove_non_latin_alphabetic && contains_non_latin(w.as_str()) {
        return None;
    }
    if req.should_remove_integers && contains_numeric(w.as_str()) {
        return None;
    }
    if let Some(ref reject_list) = req.reject_list {
        if crate::text::contains_str(reject_list, w.as_str()) {
            return None;
        }
    }
    if let Some(ref approved_list) = req.approved_list {
        if !crate::text::contains_str(approved_list, w.as_str()) {
            return None;
        }
    }
    if let Some(minimum_length) = req.minimum_length {
        if count_characters(w.as_str()) < minimum_length {
            return None;
        }
    }
    if let Some(maximum_length) = req.maximum_length {
        if count_characters(w.as_str()) > maximum_length {
            return None;
        }
    }
    proof {
        assert(passes_removals(req, w@));
    }
    // Re-attach the metadata, trim once more, and drop empty results.
    let mut final_word = w;
    if !final_word.as_str().is_empty() {
        if let Some(metadata_string) = metadata {
            let mut sep = String::new();
            crate::text::push_char(&mut sep, delim);
            proof {
                assert(sep@ =~= seq![delim]);
            }
            if meta_at_end {
                final_word = final_word.concat(sep.as_str()).concat(metadata_string.as_str());
            } else {
                final_word = metadata_string.concat(sep.as_str()).concat(final_word.as_str());
            }
        }
    }
    let final_word = crate::text::trim_str(final_word.as_str()).to_owned();
    if final_word.as_str().is_empty() {
        proof {
            assert(process_word(req, word@) is None);
        }
        None
    } else {
        proof {
            assert(Some(final_word@) == process_word(req, word@));
        }
        Some(final_word)
    }
}

/// The words that survive the per-word processing, in order.
pub open spec fn processed_words(req: &TidyRequest, list: Seq<String>) -> Seq<Seq<char>>
    decreases list.len(),
{
    if list.len() == 0 {
        Seq::empty()
    } else {
        let rest = processed_words(req, list.drop_last());
        match process_word(req, list.last()@) {
            Some(w) => rest.push(w),
            None => rest,
        }
    }
}

/// Taking the first words, when requested: the list truncated to the
/// requested length, or whole when it is already short enough.
pub open spec fn truncated_to(n: usize, a: Seq<String>) -> Seq<String> {
    if n < a.len() {
        a.take(n as int)
    } else {
        a
    }
}

/// The two truncation steps: taking the first words, then a random
/// selection — some permutation of the list, truncated.
pub open spec fn stage_truncate_ok(req: &TidyRequest, b: Seq<String>) -> bool {
    let first = match req.take_first {
        Some(n) => truncated_to(n, req.list@),
        None => req.list@,
    };
    match req.take_rand {
        Some(n) => exists|p: Seq<String>|
            p.to_multiset() == first.to_multiset() && p.len() == first.len() && b == truncated_to(
                n,
                p,
            ),
        None => b == first,
    }
}

/// The per-word processing stage, relationally.
pub open spec fn stage_process_ok(req: &TidyRequest, a: Seq<String>, b: Seq<String>) -> bool {
    crate::text::views_of(b) == processed_words(req, a)
}

/// The homophone-removal stage.
pub open spec fn stage_homophones_ok(req: &TidyRequest, a: Seq<String>, b: Seq<String>) -> bool {
    match req.homophones_list {
        Some(h) => b == crate::list_manipulations::remove_homophones_spec(a, h@),
        None => b == a,
    }
}

/// The maximum-shared-prefix stage.
pub open spec fn stage_prefix_length_ok(req: &TidyRequest, a: Seq<String>, b: Seq<String>) -> bool {
    match req.maximum_shared_prefix_length {
        Some(k) => crate::text::views_of(b) == crate::list_manipulations::prefix_representatives(
            crate::text::views_of(a),
            k as int,
        ),
        None => b == a,
    }
}

/// Whether every word is short enough for the edit-distance engine.
pub open spec fn words_fit(a: Seq<String>) -> bool {
    forall|i: int|
        0 <= i < a.len() ==> vstd::utf8::encode_utf8(#[trigger] a[i]@).len() < 0x80000000
}

/// The minimum-edit-distance stage; words beyond any practical length
/// would overflow the distance counter, and such a list passes through
/// unchanged.
pub open spec fn stage_min_edit_ok(req: &TidyRequest, a: Seq<String>, b: Seq<String>) -> bool {
    match req.minimum_edit_distance {
        Some(d) => if words_fit(a) {
            b == crate::list_manipulations::min_dist_filter(a, d as int)
        } else {
            b == a
        },
        None => b == a,
    }
}

/// The suffix-word removal stage, which first de-duplicates.
pub open spec fn stage_suffix_ok(req: &TidyRequest, a: Seq<String>, b: Seq<String>) -> bool {
    if req.should_remove_suffix_words {
        exists|mid: Seq<String>|
            crate::text::views_of(mid) == crate::text::dedup_spec(crate::text::views_of(a)) && b
                == crate::list_manipulations::remove_suffix_spec(mid)
    } else {
        b == a
    }
}

/// The prefix-word removal stage, which first de-duplicates.
pub open spec fn stage_prefix_words_ok(req: &TidyRequest, a: Seq<String>, b: Seq<String>) -> bool {
    if req.should_remove_prefix_words {
        exists|mid: Seq<String>|
            crate::text::views_of(mid) == crate::text::dedup_spec(crate::text::views_of(a)) && b
                == crate::list_manipulations::remove_prefix_spec(mid)
    } else {
        b == a
    }
}

/// The Schlinkert-prune stage, which first de-duplicates.
pub open spec fn stage_schlinkert_ok(req: &TidyRequest, a: Seq<String>, b: Seq<String>) -> bool {
    if req.should_schlinkert_prune {
        exists|mid: Seq<String>|
            crate::text::views_of(mid) == crate::text::dedup_spec(crate::text::views_of(a))
                && crate::list_manipulations::schlinkert_post(mid, b)
    } else {
        b == a
    }
}

/// A de-duplication stage.
pub open spec fn stage_dedup_ok(a: Seq<String>, b: Seq<String>) -> bool {
    crate::text::views_of(b) == crate::text::dedup_spec(crate::text::views_of(a))
}

/// The print-first truncation stage.
pub open spec fn stage_print_first_ok(req: &TidyRequest, a: Seq<String>, b: Seq<String>) -> bool {
    match req.print_first {
        Some(n) => b == truncated_to(n, a),
        None => b == a,
    }
}

/// The print-rand stage: some permutation, truncated.
pub open spec fn stage_print_rand_ok(req: &TidyRequest, a: Seq<String>, b: Seq<String>) -> bool {
    match req.print_rand {
        Some(n) => exists|p: Seq<String>|
            p.to_multiset() == a.to_multiset() && p.len() == a.len() && b == truncated_to(n, p),
        None => b == a,
    }
}

/// The locale-aware sort stage: the same words, reordered.
pub open spec fn stage_sort_alpha_ok(req: &TidyRequest, a: Seq<String>, b: Seq<String>) -> bool {
    if req.sort_alphabetically {
        b.to_multiset() == a.to_multiset() && b.len() == a.len()
    } else {
        b == a
    }
}

/// The sort-by-length stage: the same words, shortest first.
pub open spec fn stage_sort_length_ok(req: &TidyRequest, a: Seq<String>, b: Seq<String>) -> bool {
    if req.sort_by_length {
        b.to_multiset() == a.to_multiset() && crate::list_manipulations::sorted_by_count(
            crate::text::views_of(b),
        )
    } else {
        b == a
    }
}

/// What tidying promises of its result: some run through the fixed
/// stage order produced it, with the random and collated stages free
/// to pick any order and everything else determined exactly.
pub open spec fn tidy_list_post(req: &TidyRequest, result: Seq<String>) -> bool {
    exists|
        t: Seq<String>,
        p: Seq<String>,
        s1: Seq<String>,
        s2: Seq<String>,
        s3: Seq<String>,
        s4: Seq<String>,
        s5: Seq<String>,
        s6: Seq<String>,
        s7: Seq<String>,
        s8: Seq<String>,
        s9: Seq<String>,
        s10: Seq<String>,
        s11: Seq<String>,
    |
        #![trigger stage_process_ok(req, t, p), stage_homophones_ok(req, p, s1),
            stage_prefix_length_ok(req, s1, s2), stage_min_edit_ok(req, s2, s3),
            stage_suffix_ok(req, s3, s4), stage_prefix_words_ok(req, s4, s5),
            stage_schlinkert_ok(req, s5, s6), stage_dedup_ok(s6, s7),
            stage_print_first_ok(req, s7, s8), stage_print_rand_ok(req, s8, s9),
            stage_sort_alpha_ok(req, s9, s10), stage_sort_length_ok(req, s10, s11)]
        stage_truncate_ok(req, t) && stage_process_ok(req, t, p) && stage_homophones_ok(
            req,
            p,
            s1,
        ) && stage_prefix_length_ok(req, s1, s2) && stage_min_edit_ok(req, s2, s3)
            && stage_suffix_ok(req, s3, s4) && stage_prefix_words_ok(req, s4, s5)
            && stage_schlinkert_ok(req, s5, s6) && stage_dedup_ok(s6, s7) && stage_print_first_ok(
            req,
            s7,
            s8,
        ) && stage_print_rand_ok(req, s8, s9) && stage_sort_alpha_ok(req, s9, s10)
            && stage_sort_length_ok(req, s10, s11) && stage_dedup_ok(s11, result)
}

/// Whether every word of the list is short enough for the
/// edit-distance engine.
fn check_words_fit(list: &Vec<String>) -> (r: bool)
    ensures
        r == words_fit(list@),
{
    let mut i: usize = 0;
    while i < list.len()
        invariant
            0 <= i <= list@.len(),
            forall|j: int|
                0 <= j < i ==> vstd::utf8::encode_utf8(#[trigger] list@[j]@).len() < 0x80000000,
        decreases list@.len() - i,
    {
        let bytes = list[i].as_str().as_bytes();
        proof {
            assert(bytes@.len() == vstd::utf8::encode_utf8(list@[i as int]@).len());
        }
        if bytes.len() >= 0x80000000 {
            return false;
        }
        i = i + 1;
    }
    true
}

/// This is the large, key function of the program. It takes a
/// `TidyRequest` — which includes the word list — and performs
/// whatever operations were requested on the list, in the fixed stage
/// order: truncation, the per-word modifications and removals, then
/// the list-level constraints, de-duplication, and optional sorting.
#[verifier::rlimit(100)]
#[verifier::spinoff_prover]
pub fn tidy_list(req: TidyRequest) -> (r: Vec<String>)
    requires
        !(req.ignore_after_delimiter is Some && req.ignore_before_delimiter is Some),
        req.normalization_form matches Some(nf) ==> (crate::text::matches_ci(nf@, "nfc"@)
            || crate::text::matches_ci(nf@, "nfd"@) || crate::text::matches_ci(nf@, "nfkc"@)
            || crate::text::matches_ci(nf@, "nfkd"@)),
        req.minimum_edit_distance matches Some(d) ==> d <= u32::MAX,
        (req.sort_alphabetically || req.sort_by_length) ==> crate::list_manipulations::locale_parses(
            req.locale@,
        ),
    ensures
        tidy_list_post(&req, r@),
{
    // The two truncations.
    let mut list_to_tidy = crate::text::clone_words(&req.list);
    if let Some(amount_to_take) = req.take_first {
        list_to_tidy.truncate(amount_to_take);
        proof {
            if amount_to_take >= req.list@.len() {
                assert(list_to_tidy@ == truncated_to(amount_to_take, req.list@));
            }
        }
    }
    let ghost after_first = list_to_tidy@;
    if let Some(amount_to_take) = req.take_rand {
        crate::list_manipulations::shuffle_words(&mut list_to_tidy);
        let ghost shuffled = list_to_tidy@;
        list_to_tidy.truncate(amount_to_take);
        proof {
            assert(shuffled.to_multiset() == after_first.to_multiset() && shuffled.len()
                == after_first.len() && list_to_tidy@ == truncated_to(amount_to_take, shuffled));
        }
    }
    let ghost t = list_to_tidy@;
    proof {
        assert(stage_truncate_ok(&req, t));
    }
    // The per-word modifications and removals.
    let mut tidied_list: Vec<String> = Vec::new();
    let mut i: usize = 0;
    proof {
        assert(list_to_tidy@.take(0) =~= Seq::<String>::empty());
    }
    while i < list_to_tidy.len()
        invariant
            0 <= i <= list_to_tidy@.len(),
            list_to_tidy@ == t,
            !(req.ignore_after_delimiter is Some && req.ignore_before_delimiter is Some),
            req.normalization_form matches Some(nf) ==> (crate::text::matches_ci(nf@, "nfc"@)
                || crate::text::matches_ci(nf@, "nfd"@) || crate::text::matches_ci(nf@, "nfkc"@)
                || crate::text::matches_ci(nf@, "nfkd"@)),
            crate::text::views_of(tidied_list@) == processed_words(&req, t.take(i as int)),
        decreases list_to_tidy@.len() - i,
    {
        proof {
            assert(t.take(i + 1).drop_last() =~= t.take(i as int));
            assert(t.take(i + 1).last() == t[i as int]);
        }
        match process_one_word(&req, list_to_tidy[i].as_str()) {
            Some(w) => {
                let ghost old_tidied = tidied_list@;
                tidied_list.push(w);
                proof {
                    crate::text::lemma_views_push(old_tidied, tidied_list@.last());
                    assert(tidied_list@.drop_last() =~= old_tidied);
                    assert(tidied_list@ =~= old_tidied.push(tidied_list@.last()));
                    assert(crate::text::views_of(tidied_list@) =~= processed_words(
                        &req,
                        t.take(i + 1),
                    ));
                }
            },
            None => {},
        }
        i = i + 1;
    }
    proof {
        assert(t.take(t.len() as int) =~= t);
    }
    let ghost p_words = tidied_list@;
    proof {
        assert(stage_process_ok(&req, t, p_words));
    }
    // Homophone removal.
    let mut tidied_list = if let Some(homophones_list) = req.homophones_list {
        crate::list_manipulations::remove_homophones(tidied_list, homophones_list)
    } else {
        tidied_list
    };
    let ghost s1 = tidied_list@;
    proof {
        assert(stage_homophones_ok(&req, p_words, s1));
    }
    // Maximum shared prefix.
    let mut tidied_list = if let Some(maximum_shared_prefix_length) =
        req.maximum_shared_prefix_length {
        crate::list_manipulations::guarantee_maximum_prefix_length(
            tidied_list.as_slice(),
            maximum_shared_prefix_length,
        )
    } else {
        tidied_list
    };
    let ghost s2 = tidied_list@;
    proof {
        assert(stage_prefix_length_ok(&req, s1, s2));
    }
    // Minimum edit distance.
    let mut tidied_list = if let Some(minimum_edit_distance) = req.minimum_edit_distance {
        if check_words_fit(&tidied_list) {
            crate::list_manipulations::enfore_minimum_edit_distance(
                tidied_list,
                minimum_edit_distance,
            )
        } else {
            tidied_list
        }
    } else {
        tidied_list
    };
    let ghost s3 = tidied_list@;
    proof {
        assert(stage_min_edit_ok(&req, s2, s3));
    }
    // Suffix words.
    let mut tidied_list = if req.should_remove_suffix_words {
        let ghost before = tidied_list@;
        let deduped = crate::list_manipulations::dedup_without_sorting(&tidied_list);
        let ghost mid = deduped@;
        let removed = crate::list_manipulations::remove_suffix_words(deduped);
        proof {
            assert(crate::text::views_of(mid) == crate::text::dedup_spec(
                crate::text::views_of(before),
            ) && removed@ == crate::list_manipulations::remove_suffix_spec(mid));
        }
        removed
    } else {
        tidied_list
    };
    let ghost s4 = tidied_list@;
    proof {
        assert(stage_suffix_ok(&req, s3, s4));
    }
    // Prefix words.
    let mut tidied_list = if req.should_remove_prefix_words {
        let ghost before = tidied_list@;
        let deduped = crate::list_manipulations::dedup_without_sorting(&tidied_list);
        let ghost mid = deduped@;
        let removed = crate::list_manipulations::remove_prefix_words(deduped);
        proof {
            assert(crate::text::views_of(mid) == crate::text::dedup_spec(
                crate::text::views_of(before),
            ) && removed@ == crate::list_manipulations::remove_prefix_spec(mid));
        }
        removed
    } else {
        tidied_list
    };
    let ghost s5 = tidied_list@;
    proof {
        assert(stage_prefix_words_ok(&req, s4, s5));
    }
    // Schlinkert prune.
    let mut tidied_list = if req.should_schlinkert_prune {
        let ghost before = tidied_list@;
        let deduped = crate::list_manipulations::dedup_without_sorting(&tidied_list);
        let ghost mid = deduped@;
        let pruned = crate::list_manipulations::schlinkert_prune(deduped.as_slice());
        proof {
            assert(crate::text::views_of(mid) == crate::text::dedup_spec(
                crate::text::views_of(before),
            ) && crate::list_manipulations::schlinkert_post(mid, pruned@));
        }
        pruned
    } else {
        tidied_list
    };
    let ghost s6 = tidied_list@;
    proof {
        assert(stage_schlinkert_ok(&req, s5, s6));
    }
    // Remove duplicate words.
    let mut tidied_list = crate::list_manipulations::dedup_without_sorting(&tidied_list);
    let ghost s7 = tidied_list@;
    proof {
        assert(stage_dedup_ok(s6, s7));
    }
    // Print-first truncation.
    if let Some(amount_to_cut) = req.print_first {
        tidied_list.truncate(amount_to_cut);
        proof {
            if amount_to_cut >= s7.len() {
                assert(tidied_list@ == truncated_to(amount_to_cut, s7));
            }
        }
    }
    let ghost s8 = tidied_list@;
    proof {
        assert(stage_print_first_ok(&req, s7, s8));
    }
    // Print-rand truncation.
    if let Some(amount_to_cut) = req.print_rand {
        crate::list_manipulations::shuffle_words(&mut tidied_list);
        let ghost shuffled = tidied_list@;
        tidied_list.truncate(amount_to_cut);
        proof {
            assert(shuffled.to_multiset() == s8.to_multiset() && shuffled.len() == s8.len()
                && tidied_list@ == truncated_to(amount_to_cut, shuffled));
        }
    }
    let ghost s9 = tidied_list@;
    proof {
        assert(stage_print_rand_ok(&req, s8, s9));
    }
    // Locale-aware sort.
    let mut tidied_list = if req.sort_alphabetically {
        if let Some(locale) = crate::list_manipulations::parse_locale(req.locale.as_str()) {
            crate::list_manipulations::sort_carefully(tidied_list, locale)
        } else {
            proof {
                assert(false);
            }
            tidied_list
        }
    } else {
        tidied_list
    };
    let ghost s10 = tidied_list@;
    proof {
        assert(stage_sort_alpha_ok(&req, s9, s10));
    }
    // Sort by length.
    let mut tidied_list = if req.sort_by_length {
        if let Some(locale) = crate::list_manipulations::parse_locale(req.locale.as_str()) {
            crate::list_manipulations::sort_by_length(tidied_list, locale)
        } else {
            proof {
                assert(false);
            }
            tidied_list
        }
    } else {
        tidied_list
    };
    let ghost s11 = tidied_list@;
    proof {
        assert(stage_sort_length_ok(&req, s10, s11));
    }
    // And remove duplicates one more time.
    let tidied_list = crate::list_manipulations::dedup_without_sorting(&tidied_list);
    proof {
        assert(stage_dedup_ok(s11, tidied_list@));
        assert(tidy_list_post(&req, tidied_list@));
    }
    tidied_list
}

/// Tidy a list after checking the locale at run time: a request that
/// asks for sorting under a locale tag that does not parse is refused
/// with `None` rather than tidied.
pub fn try_tidy_list(req: TidyRequest) -> (r: Option<Vec<String>>)
    requires
        !(req.ignore_after_delimiter is Some && req.ignore_before_delimiter is Some),
        req.normalization_form matches Some(nf) ==> (crate::text::matches_ci(nf@, "nfc"@)
            || crate::text::matches_ci(nf@, "nfd"@) || crate::text::matches_ci(nf@, "nfkc"@)
            || crate::text::matches_ci(nf@, "nfkd"@)),
        req.minimum_edit_distance matches Some(d) ==> d <= u32::MAX,
    ensures
        r is Some <==> ((req.sort_alphabetically || req.sort_by_length)
            ==> crate::list_manipulations::locale_parses(req.locale@)),
        r matches Some(list) ==> tidy_list_post(&req, list@),
{
    if req.sort_alphabetically || req.sort_by_length {
        if crate::list_manipulations::parse_locale(req.locale.as_str()).is_none() {
            return None;
        }
    }
    Some(tidy_list(req))
}

} // verus!
