//! Character-level Unicode services that outside crates provide:
//! grapheme-cluster segmentation and Unicode normalization. Each
//! outside call sits behind one trusted wrapper; everything built on
//! top of them is verified.
use crate::text::views_of;
use unicode_normalization::UnicodeNormalization;
use unicode_segmentation::UnicodeSegmentation;
use vstd::prelude::*;

verus! {

/// The extended grapheme clusters of a string, in order. Its value on
/// given characters is known only through `grapheme_clusters`.
pub uninterp spec fn grapheme_split(s: Seq<char>) -> Seq<Seq<char>>;

/// Relies on unicode_segmentation's `graphemes`: it segments a string
/// into extended grapheme clusters, substrings whose concatenation is
/// the original string.
#[verifier::external_body]
pub fn grapheme_clusters(s: &str) -> (r: Vec<String>)
    ensures
        views_of(r@) == grapheme_split(s@),
        views_of(r@).flatten() == s@,
{
    s.graphemes(true).map(String::from).collect()
}

/// Whether `c` is numeric: the Unicode numeric categories that std's
/// character test recognizes. Its value on given characters is known
/// only through that test.
pub uninterp spec fn is_numeric_char(c: char) -> bool;

/// Relies on std's `char::is_numeric`: a property of the character
/// alone, from the Unicode tables.
pub assume_specification[ char::is_numeric ](c: char) -> (b: bool)
    ensures
        b == is_numeric_char(c),
;

/// Whether `c` is alphanumeric in the Unicode tables.
pub uninterp spec fn is_alphanumeric_char(c: char) -> bool;

/// Relies on std's `char::is_alphanumeric`: a property of the
/// character alone, from the Unicode tables.
pub assume_specification[ char::is_alphanumeric ](c: char) -> (b: bool)
    ensures
        b == is_alphanumeric_char(c),
;

/// Whether `c` is alphabetic in the Unicode tables.
pub uninterp spec fn is_alphabetic_char(c: char) -> bool;

/// Relies on std's `char::is_alphabetic`: a property of the character
/// alone, from the Unicode tables.
pub assume_specification[ char::is_alphabetic ](c: char) -> (b: bool)
    ensures
        b == is_alphabetic_char(c),
;

/// The characters with the Unicode `White_Space` property: what std's
/// whitespace test accepts.
pub open spec fn is_whitespace_char(c: char) -> bool {
    ||| c == ' '
    ||| c == '\t'
    ||| c == '\n'
    ||| c == '\u{000B}'
    ||| c == '\u{000C}'
    ||| c == '\r'
    ||| c == '\u{0085}'
    ||| c == '\u{00A0}'
    ||| c == '\u{1680}'
    ||| ('\u{2000}' <= c && c <= '\u{200A}')
    ||| c == '\u{2028}'
    ||| c == '\u{2029}'
    ||| c == '\u{202F}'
    ||| c == '\u{205F}'
    ||| c == '\u{3000}'
}

/// Relies on std's `char::is_whitespace`: true exactly for the
/// characters with the Unicode `White_Space` property.
pub assume_specification[ char::is_whitespace ](c: char) -> (b: bool)
    ensures
        b == is_whitespace_char(c),
;

/// The ASCII-lowercased form of a character: the letters `A` through
/// `Z` move down the alphabet by the fixed code-point offset, and
/// every other character stays itself.
pub open spec fn lower_char_spec(c: char) -> char {
    if 65 <= c as u32 <= 90 {
        ((c as u32 + 32) as char)
    } else {
        c
    }
}

/// Relies on std's `char::to_ascii_lowercase`: it maps `A` through `Z`
/// to their lowercase forms and leaves everything else unchanged.
pub assume_specification[ char::to_ascii_lowercase ](c: &char) -> (r: char)
    ensures
        r == lower_char_spec(*c),
;

/// Normal form C of a string's characters.
pub uninterp spec fn nfc_of(s: Seq<char>) -> Seq<char>;

/// Normal form D of a string's characters.
pub uninterp spec fn nfd_of(s: Seq<char>) -> Seq<char>;

/// Normal form KC of a string's characters.
pub uninterp spec fn nfkc_of(s: Seq<char>) -> Seq<char>;

/// Normal form KD of a string's characters.
pub uninterp spec fn nfkd_of(s: Seq<char>) -> Seq<char>;

/// Relies on unicode_normalization's `nfc`: it recomposes the string
/// into Unicode Normalization Form C, a function of the characters
/// alone.
#[verifier::external_body]
pub fn to_nfc(s: &str) -> (r: String)
    ensures
        r@ == nfc_of(s@),
{
    s.nfc().collect()
}

/// Relies on unicode_normalization's `nfd`: Normalization Form D.
#[verifier::external_body]
pub fn to_nfd(s: &str) -> (r: String)
    ensures
        r@ == nfd_of(s@),
{
    s.nfd().collect()
}

/// Relies on unicode_normalization's `nfkc`: Normalization Form KC.
#[verifier::external_body]
pub fn to_nfkc(s: &str) -> (r: String)
    ensures
        r@ == nfkc_of(s@),
{
    s.nfkc().collect()
}

/// Relies on unicode_normalization's `nfkd`: Normalization Form KD.
#[verifier::external_body]
pub fn to_nfkd(s: &str) -> (r: String)
    ensures
        r@ == nfkd_of(s@),
{
    s.nfkd().collect()
}

} // verus!
