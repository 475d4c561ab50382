//! Shared character-sequence specifications and small verified string
//! utilities used throughout the crate. Words are modelled as their
//! sequences of Unicode code points (`Seq<char>`).
use crate::unicode::is_whitespace_char;
use crate::unicode::lower_char_spec;
use vstd::prelude::*;
use vstd::string::*;

verus! {

/// `p` is a (not necessarily strict) prefix of `w`.
pub open spec fn is_prefix_spec(p: Seq<char>, w: Seq<char>) -> bool {
    p.len() <= w.len() && p == w.subrange(0, p.len() as int)
}

/// `p` is a strict prefix of `w`: a prefix shorter than `w` itself.
pub open spec fn is_strict_prefix_spec(p: Seq<char>, w: Seq<char>) -> bool {
    p.len() < w.len() && p == w.subrange(0, p.len() as int)
}

/// `s` is a (not necessarily strict) suffix of `w`.
pub open spec fn is_suffix_spec(s: Seq<char>, w: Seq<char>) -> bool {
    s.len() <= w.len() && s == w.subrange(w.len() - s.len(), w.len() as int)
}

/// The character sequences of a list of words.
pub open spec fn views_of(list: Seq<String>) -> Seq<Seq<char>> {
    list.map_values(|s: String| s@)
}

/// The set of character sequences occurring in a list of words: the
/// "code" that the decodability algorithms work on. Duplicates collapse
/// and order is forgotten.
pub open spec fn word_set(list: Seq<String>) -> Set<Seq<char>> {
    views_of(list).to_set()
}

/// Whether two string slices hold the same characters.
pub fn str_eq(a: &str, b: &str) -> (r: bool)
    ensures
        r == (a@ == b@),
{
    let a_len = a.unicode_len();
    let b_len = b.unicode_len();
    if a_len != b_len {
        return false;
    }
    let mut i: usize = 0;
    while i < a_len
        invariant
            0 <= i <= a_len,
            a_len == a@.len(),
            a_len == b@.len(),
            forall|j: int| 0 <= j < i ==> a@[j] == b@[j],
        decreases a_len - i,
    {
        if a.get_char(i) != b.get_char(i) {
            return false;
        }
        i = i + 1;
    }
    proof {
        assert(a@ =~= b@);
    }
    true
}

/// Whether `a` is a prefix of `b`, comparing character by character.
pub fn is_prefix_of(a: &str, b: &str) -> (r: bool)
    ensures
        r == is_prefix_spec(a@, b@),
{
    let a_len = a.unicode_len();
    let b_len = b.unicode_len();
    if a_len > b_len {
        return false;
    }
    let mut i: usize = 0;
    while i < a_len
        invariant
            0 <= i <= a_len,
            a_len == a@.len(),
            a_len <= b@.len(),
            forall|j: int| 0 <= j < i ==> a@[j] == b@[j],
        decreases a_len - i,
    {
        if a.get_char(i) != b.get_char(i) {
            assert(!is_prefix_spec(a@, b@)) by {
                assert(a@[i as int] != b@.subrange(0, a@.len() as int)[i as int]);
            }
            return false;
        }
        i = i + 1;
    }
    proof {
        assert(a@ =~= b@.subrange(0, a@.len() as int));
    }
    true
}

/// Keeping the first occurrence of every character sequence, in order
/// of first appearance.
pub open spec fn dedup_spec(s: Seq<Seq<char>>) -> Seq<Seq<char>>
    decreases s.len(),
{
    if s.len() == 0 {
        Seq::empty()
    } else {
        let d = dedup_spec(s.drop_last());
        if d.contains(s.last()) {
            d
        } else {
            d.push(s.last())
        }
    }
}

/// Deduplication keeps exactly the distinct character sequences, one
/// occurrence each.
pub proof fn lemma_dedup_spec_props(s: Seq<Seq<char>>)
    ensures
        dedup_spec(s).no_duplicates(),
        dedup_spec(s).to_set() == s.to_set(),
    decreases s.len(),
{
    broadcast use vstd::prelude::Seq::lemma_push_to_set_commute;

    if s.len() == 0 {
        assert(dedup_spec(s).to_set() =~= s.to_set());
    } else {
        lemma_dedup_spec_props(s.drop_last());
        let d = dedup_spec(s.drop_last());
        assert(s.drop_last().push(s.last()) =~= s);
        if d.contains(s.last()) {
            assert(s.drop_last().to_set().contains(s.last()));
            assert(dedup_spec(s).to_set() =~= s.to_set());
        } else {
            assert(dedup_spec(s).to_set() =~= s.to_set());
        }
    }
}

/// De-duplicate a list of words, keeping the first occurrence of each
/// and preserving the order of those occurrences.
pub fn dedup_words(list: &[String]) -> (r: Vec<String>)
    ensures
        views_of(r@) == dedup_spec(views_of(list@)),
        views_of(r@).no_duplicates(),
        views_of(r@).to_set() == word_set(list@),
{
    let mut r: Vec<String> = Vec::new();
    let mut i: usize = 0;
    while i < list.len()
        invariant
            0 <= i <= list@.len(),
            views_of(r@) == dedup_spec(views_of(list@).take(i as int)),
        decreases list@.len() - i,
    {
        let ghost prefix = views_of(list@).take(i as int);
        proof {
            assert(views_of(list@).take(i + 1).drop_last() =~= prefix);
            assert(views_of(list@).take(i + 1).last() == views_of(list@)[i as int]);
        }
        if !contains_str(&r, list[i].as_str()) {
            let ghost old_r = r@;
            let w = list[i].clone();
            r.push(w);
            proof {
                lemma_views_push(old_r, list@[i as int]);
                assert(r@ =~= old_r.push(list@[i as int]));
                assert(views_of(r@) =~= dedup_spec(prefix).push(views_of(list@)[i as int]));
            }
        }
        i = i + 1;
    }
    proof {
        assert(views_of(list@).take(list@.len() as int) =~= views_of(list@));
        lemma_dedup_spec_props(views_of(list@));
    }
    r
}

/// Mapping a pushed word distributes over taking views.
pub proof fn lemma_views_push(v: Seq<String>, x: String)
    ensures
        views_of(v.push(x)) =~= views_of(v).push(x@),
{
}

/// An element-by-element copy of a list of words.
pub fn clone_words(v: &Vec<String>) -> (r: Vec<String>)
    ensures
        r@ =~= v@,
{
    clone_words_slice(v.as_slice())
}

/// Relies on std's `String::push`: it appends one character to the
/// string.
#[verifier::external_body]
pub fn push_char(s: &mut String, c: char)
    ensures
        final(s)@ == old(s)@ + seq![c],
{
    s.push(c)
}

/// An element-by-element copy of a slice of words.
pub fn clone_words_slice(v: &[String]) -> (r: Vec<String>)
    ensures
        r@ =~= v@,
{
    let mut r: Vec<String> = Vec::new();
    let mut i: usize = 0;
    while i < v.len()
        invariant
            0 <= i <= v@.len(),
            r@ =~= v@.take(i as int),
        decreases v@.len() - i,
    {
        r.push(v[i].clone());
        proof {
            assert(r@ =~= v@.take(i + 1));
        }
        i = i + 1;
    }
    proof {
        assert(v@.take(v@.len() as int) =~= v@);
    }
    r
}

/// Whether `a` is a suffix of `b`, comparing character by character.
pub fn is_suffix_of(a: &str, b: &str) -> (r: bool)
    ensures
        r == is_suffix_spec(a@, b@),
{
    let a_len = a.unicode_len();
    let b_len = b.unicode_len();
    if a_len > b_len {
        return false;
    }
    let off = b_len - a_len;
    let mut i: usize = 0;
    while i < a_len
        invariant
            0 <= i <= a_len,
            a_len == a@.len(),
            b_len == b@.len(),
            a_len <= b_len,
            off == b_len - a_len,
            forall|j: int| 0 <= j < i ==> a@[j] == b@[off + j],
        decreases a_len - i,
    {
        if a.get_char(i) != b.get_char(off + i) {
            assert(!is_suffix_spec(a@, b@)) by {
                assert(a@[i as int] != b@.subrange(
                    b@.len() - a@.len(),
                    b@.len() as int,
                )[i as int]);
            }
            return false;
        }
        i = i + 1;
    }
    proof {
        assert(a@ =~= b@.subrange(b@.len() - a@.len(), b@.len() as int));
    }
    true
}

/// Whether the character sequence of `s` occurs among the words of `v`.
pub fn contains_str(v: &Vec<String>, s: &str) -> (r: bool)
    ensures
        r == views_of(v@).contains(s@),
{
    let mut i: usize = 0;
    while i < v.len()
        invariant
            0 <= i <= v@.len(),
            forall|j: int| 0 <= j < i ==> views_of(v@)[j] != s@,
        decreases v@.len() - i,
    {
        if str_eq(v[i].as_str(), s) {
            assert(views_of(v@)[i as int] == s@);
            return true;
        }
        i = i + 1;
    }
    false
}

/// The string without its leading whitespace.
pub open spec fn trim_start_spec(s: Seq<char>) -> Seq<char>
    decreases s.len(),
{
    if s.len() > 0 && is_whitespace_char(s.first()) {
        trim_start_spec(s.drop_first())
    } else {
        s
    }
}

/// The string without its trailing whitespace.
pub open spec fn trim_end_spec(s: Seq<char>) -> Seq<char>
    decreases s.len(),
{
    if s.len() > 0 && is_whitespace_char(s.last()) {
        trim_end_spec(s.drop_last())
    } else {
        s
    }
}

/// The string without leading or trailing whitespace.
pub open spec fn trim_spec(s: Seq<char>) -> Seq<char> {
    trim_end_spec(trim_start_spec(s))
}

proof fn lemma_trim_start_at(s: Seq<char>, a: int)
    requires
        0 <= a <= s.len(),
        forall|j: int| 0 <= j < a ==> is_whitespace_char(#[trigger] s[j]),
        a < s.len() ==> !is_whitespace_char(s[a]),
    ensures
        trim_start_spec(s) == s.skip(a),
    decreases a,
{
    if a == 0 {
        assert(s.skip(0) =~= s);
    } else {
        assert(is_whitespace_char(s.first()));
        assert forall|j: int| 0 <= j < a - 1 implies is_whitespace_char(
            #[trigger] s.drop_first()[j],
        ) by {
            assert(s[j + 1] == s.drop_first()[j]);
        }
        lemma_trim_start_at(s.drop_first(), a - 1);
        assert(s.drop_first().skip(a - 1) =~= s.skip(a));
    }
}

proof fn lemma_trim_end_at(s: Seq<char>, b: int)
    requires
        0 <= b <= s.len(),
        forall|j: int| b <= j < s.len() ==> is_whitespace_char(#[trigger] s[j]),
        b > 0 ==> !is_whitespace_char(s[b - 1]),
    ensures
        trim_end_spec(s) == s.take(b),
    decreases s.len() - b,
{
    if b == s.len() {
        assert(s.take(b) =~= s);
        if s.len() > 0 {
            assert(!is_whitespace_char(s.last()));
        }
    } else {
        assert(is_whitespace_char(s.last()));
        lemma_trim_end_at(s.drop_last(), b);
        assert(s.drop_last().take(b) =~= s.take(b));
    }
}

/// The string slice without leading or trailing whitespace.
pub fn trim_str(s: &str) -> (r: &str)
    ensures
        r@ == trim_spec(s@),
{
    let n = s.unicode_len();
    let mut a: usize = 0;
    while a < n && s.get_char(a).is_whitespace()
        invariant
            0 <= a <= n,
            n == s@.len(),
            forall|j: int| 0 <= j < a ==> is_whitespace_char(#[trigger] s@[j]),
        decreases n - a,
    {
        a = a + 1;
    }
    proof {
        lemma_trim_start_at(s@, a as int);
    }
    let mut b: usize = n;
    while b > a && s.get_char(b - 1).is_whitespace()
        invariant
            a <= b <= n,
            n == s@.len(),
            a < n ==> !is_whitespace_char(s@[a as int]),
            forall|j: int| b <= j < n ==> is_whitespace_char(#[trigger] s@[j]),
        decreases b,
    {
        b = b - 1;
    }
    let r = s.substring_char(a, b);
    proof {
        let t = s@.skip(a as int);
        assert forall|j: int| b - a <= j < t.len() implies is_whitespace_char(
            #[trigger] t[j],
        ) by {
            assert(t[j] == s@[a + j]);
        }
        if b > a {
            assert(!is_whitespace_char(t[b - a - 1]));
        }
        lemma_trim_end_at(t, b - a);
        assert(t.take(b - a) =~= s@.subrange(a as int, b as int));
    }
    r
}

/// Lowercase the ASCII letters of a string, leaving every other
/// character unchanged.
pub fn ascii_lowercase(s: &str) -> (r: String)
    ensures
        r@ == s@.map_values(|c: char| lower_char_spec(c)),
{
    let n = s.unicode_len();
    let mut out = String::new();
    let mut i: usize = 0;
    proof {
        assert(s@.take(0).map_values(|c: char| lower_char_spec(c)) =~= Seq::<char>::empty());
    }
    while i < n
        invariant
            0 <= i <= n,
            n == s@.len(),
            out@ == s@.take(i as int).map_values(|c: char| lower_char_spec(c)),
        decreases n - i,
    {
        let c = s.get_char(i);
        let lc = c.to_ascii_lowercase();
        push_char(&mut out, lc);
        proof {
            assert(out@ =~= s@.take(i + 1).map_values(|c: char| lower_char_spec(c)));
        }
        i = i + 1;
    }
    proof {
        assert(s@.take(n as int) =~= s@);
    }
    out
}

/// Whether two strings hold the same characters once ASCII letters are
/// lowercased.
pub open spec fn matches_ci(a: Seq<char>, b: Seq<char>) -> bool {
    a.len() == b.len() && forall|i: int|
        0 <= i < a.len() ==> lower_char_spec(#[trigger] a[i]) == lower_char_spec(b[i])
}

/// Compare two strings, ignoring the case of ASCII letters.
pub fn eq_ignore_case(a: &str, b: &str) -> (r: bool)
    ensures
        r == matches_ci(a@, b@),
{
    let a_len = a.unicode_len();
    let b_len = b.unicode_len();
    if a_len != b_len {
        return false;
    }
    let mut i: usize = 0;
    while i < a_len
        invariant
            0 <= i <= a_len,
            a_len == a@.len(),
            a_len == b@.len(),
            forall|j: int|
                0 <= j < i ==> lower_char_spec(#[trigger] a@[j]) == lower_char_spec(b@[j]),
        decreases a_len - i,
    {
        let ca = a.get_char(i).to_ascii_lowercase();
        let cb = b.get_char(i).to_ascii_lowercase();
        if ca != cb {
            return false;
        }
        i = i + 1;
    }
    true
}

} // verus!
