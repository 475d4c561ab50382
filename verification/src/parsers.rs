//! Parsing of user-entered list lengths, either as a plain decimal
//! number or in `base**exponent` notation, as is handy when sizing a
//! list to a number of dice rolls.
use crate::split_and_vectorize;
use crate::split_spec;
use crate::strs_views;
use vstd::arithmetic::power::pow;
use vstd::prelude::*;
use vstd::string::*;

verus! {

/// Whether `c` is a decimal digit.
pub open spec fn is_digit(c: char) -> bool {
    48 <= c as u32 <= 57
}

/// The number that a sequence of decimal digits denotes.
pub open spec fn digits_value(s: Seq<char>) -> int
    decreases s.len(),
{
    if s.len() == 0 {
        0
    } else {
        digits_value(s.drop_last()) * 10 + (s.last() as u32 - 48)
    }
}

/// The digits of a number, once an optional leading plus sign is
/// dropped.
pub open spec fn numeric_body(s: Seq<char>) -> Seq<char> {
    if s.len() >= 1 && s.first() == '+' {
        s.drop_first()
    } else {
        s
    }
}

/// Whether `s` is a well-formed non-negative decimal number: at least
/// one digit, nothing but digits, after an optional plus sign.
pub open spec fn parses_as_number(s: Seq<char>) -> bool {
    let b = numeric_body(s);
    b.len() >= 1 && forall|i: int| 0 <= i < b.len() ==> is_digit(#[trigger] b[i])
}

/// The value that a well-formed number denotes.
pub open spec fn number_value(s: Seq<char>) -> int {
    digits_value(numeric_body(s))
}

proof fn lemma_digits_nonneg(s: Seq<char>)
    requires
        forall|i: int| 0 <= i < s.len() ==> is_digit(#[trigger] s[i]),
    ensures
        digits_value(s) >= 0,
    decreases s.len(),
{
    if s.len() > 0 {
        lemma_digits_nonneg(s.drop_last());
    }
}

/// A digit string denotes at least as much as any of its prefixes.
proof fn lemma_digits_prefix_le(s: Seq<char>, j: int)
    requires
        0 <= j <= s.len(),
        forall|i: int| 0 <= i < s.len() ==> is_digit(#[trigger] s[i]),
    ensures
        digits_value(s.take(j)) <= digits_value(s),
    decreases s.len() - j,
{
    if j == s.len() {
        assert(s.take(j) =~= s);
    } else {
        lemma_digits_prefix_le(s, j + 1);
        assert(s.take(j + 1).drop_last() =~= s.take(j));
        assert(s.take(j + 1).last() == s[j]);
        lemma_digits_nonneg(s.take(j));
    }
}

/// Read a non-negative decimal number, exactly as the standard
/// unsigned parse does: an optional plus sign, then digits, failing on
/// anything else, an empty body, or a value beyond the platform's
/// integer range.
fn parse_usize_str(s: &str) -> (r: Option<usize>)
    ensures
        r is Some <==> (parses_as_number(s@) && number_value(s@) <= usize::MAX),
        r matches Some(v) ==> v == number_value(s@),
{
    let n = s.unicode_len();
    let mut start: usize = 0;
    if n >= 1 && s.get_char(0) == '+' {
        start = 1;
    }
    let ghost b = numeric_body(s@);
    proof {
        assert(b =~= s@.subrange(start as int, n as int));
    }
    if start >= n {
        return None;
    }
    let mut val: usize = 0;
    let mut i: usize = start;
    while i < n
        invariant
            start <= i <= n,
            n == s@.len(),
            start < n,
            b == numeric_body(s@),
            b =~= s@.subrange(start as int, n as int),
            forall|j: int| 0 <= j < i - start ==> is_digit(#[trigger] b[j]),
            val == digits_value(b.take(i - start)),
        decreases n - i,
    {
        let c = s.get_char(i);
        let cu = c as u32;
        proof {
            assert(b[i - start] == s@[i as int]);
            assert(b.take(i - start + 1).drop_last() =~= b.take(i - start));
            assert(b.take(i - start + 1).last() == b[i - start]);
        }
        if cu < 48 || cu > 57 {
            assert(!is_digit(b[i - start]));
            return None;
        }
        let d = (cu - 48) as usize;
        let stepped = match val.checked_mul(10) {
            Some(v) => v.checked_add(d),
            None => None,
        };
        match stepped {
            Some(v) => {
                val = v;
            },
            None => {
                proof {
                    if parses_as_number(s@) && number_value(s@) <= usize::MAX {
                        lemma_digits_prefix_le(b, i - start + 1);
                        assert(digits_value(b.take(i - start + 1)) > usize::MAX);
                    }
                }
                return None;
            },
        }
        i = i + 1;
    }
    proof {
        assert(b.take(n - start) =~= b);
    }
    Some(val)
}

/// Parse user's input to a handful of options, either directly as a
/// number, or, if they entered exponent notation (base**exponent),
/// evaluate the exponent. Useful when making lists fit a specific
/// amount of dice and dice sides: five rolls of a six-sided die is
/// 6**5.
pub fn eval_list_length(input: &str) -> (r: Result<usize, String>)
    requires
        ({
            let pieces = split_spec(input@, "**"@);
            (pieces.len() == 2 && parses_as_number(pieces[0]) && number_value(pieces[0])
                <= usize::MAX && parses_as_number(pieces[1]) && number_value(pieces[1])
                <= u32::MAX) ==> pow(number_value(pieces[0]), number_value(pieces[1]) as nat)
                <= usize::MAX
        }),
    ensures
        ({
            let pieces = split_spec(input@, "**"@);
            &&& (r is Ok <==> (
                if pieces.len() == 1 {
                    parses_as_number(pieces[0]) && number_value(pieces[0]) <= usize::MAX
                } else if pieces.len() == 2 {
                    parses_as_number(pieces[0]) && number_value(pieces[0]) <= usize::MAX
                        && parses_as_number(pieces[1]) && number_value(pieces[1]) <= u32::MAX
                } else {
                    false
                }))
            &&& (r matches Ok(v) ==> v == if pieces.len() == 1 {
                number_value(pieces[0])
            } else {
                pow(number_value(pieces[0]), number_value(pieces[1]) as nat)
            })
        }),
{
    proof {
        reveal_strlit("**");
    }
    let pieces = split_and_vectorize(input, "**");
    let ghost pv = split_spec(input@, "**"@);
    if pieces.len() == 1 {
        assert(pieces@[0]@ == pv[0]);
        match parse_usize_str(pieces[0]) {
            Some(v) => Ok(v),
            None => Err(
                String::from_str("Unable to parse input ").concat(input).concat(
                    ". Enter a number or a base**exponent",
                ),
            ),
        }
    } else if pieces.len() == 2 {
        assert(pieces@[0]@ == pv[0]);
        assert(pieces@[1]@ == pv[1]);
        let base = match parse_usize_str(pieces[0]) {
            Some(v) => v,
            None => {
                return Err(
                    String::from_str("Unable to parse input ").concat(input).concat(
                        ". Positive integers only.",
                    ),
                );
            },
        };
        let exponent = match parse_usize_str(pieces[1]) {
            Some(v) => {
                if v <= u32::MAX as usize {
                    v as u32
                } else {
                    return Err(
                        String::from_str("Unable to parse input ").concat(input).concat(
                            ". Positive integers only.",
                        ),
                    );
                }
            },
            None => {
                return Err(
                    String::from_str("Unable to parse input ").concat(input).concat(
                        ". Positive integers only.",
                    ),
                );
            },
        };
        Ok(pow_usize(base, exponent))
    } else if pieces.len() == 0 {
        Err(String::from_str("Please specify a number."))
    } else {
        Err(String::from_str("You can only specify one exponent! Use format: base**exponent"))
    }
}

/// Raise `base` to the power `exp` by repeated multiplication.
fn pow_usize(base: usize, exp: u32) -> (r: usize)
    requires
        pow(base as int, exp as nat) <= usize::MAX,
    ensures
        r == pow(base as int, exp as nat),
{
    let mut result: usize = 1;
    let mut k: u32 = 0;
    proof {
        vstd::arithmetic::power::lemma_pow0(base as int);
    }
    while k < exp
        invariant
            0 <= k <= exp,
            pow(base as int, exp as nat) <= usize::MAX,
            result == pow(base as int, k as nat),
        decreases exp - k,
    {
        proof {
            vstd::arithmetic::power::lemma_pow1(base as int);
            vstd::arithmetic::power::lemma_pow_adds(base as int, k as nat, 1nat);
            assert(pow(base as int, (k + 1) as nat) == result * base);
            if base >= 1 {
                vstd::arithmetic::power::lemma_pow_increases(
                    base as nat,
                    (k + 1) as nat,
                    exp as nat,
                );
            } else {
                assert(base == 0);
                assert(result * base == 0);
            }
        }
        result = result * base;
        k = k + 1;
    }
    result
}

} // verus!
