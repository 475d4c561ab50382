//! Compute the edit distance between two strings.
//!
//! The distance is the Levenshtein distance over the bytes of the two
//! strings: one point per single-byte insertion, deletion or
//! substitution needed to make them equal. Multi-byte characters are
//! deliberately not collapsed to one edit unit; character-aware
//! counting is used elsewhere, for lengths and prefixes, but not here.
use vstd::prelude::*;
use vstd::string::*;

verus! {

/// The least of three naturals.
pub open spec fn min3(x: nat, y: nat, z: nat) -> nat {
    if x <= y && x <= z {
        x
    } else if y <= z {
        y
    } else {
        z
    }
}

/// Levenshtein distance between two byte sequences, with unit costs:
/// the minimum number of single-byte insertions, deletions and
/// substitutions that transform `a` into `b`.
pub open spec fn lev(a: Seq<u8>, b: Seq<u8>) -> nat
    decreases a.len() + b.len(),
{
    if a.len() == 0 {
        b.len()
    } else if b.len() == 0 {
        a.len()
    } else {
        let cost: nat = if a.last() == b.last() {
            0
        } else {
            1
        };
        min3(
            lev(a.drop_last(), b.drop_last()) + cost,
            lev(a.drop_last(), b) + 1,
            lev(a, b.drop_last()) + 1,
        )
    }
}

/// The distance never exceeds the length of the longer sequence.
pub proof fn lemma_lev_upper(a: Seq<u8>, b: Seq<u8>)
    ensures
        lev(a, b) <= a.len() + b.len(),
        lev(a, b) <= if a.len() >= b.len() {
            a.len()
        } else {
            b.len()
        },
    decreases a.len() + b.len(),
{
    if a.len() == 0 || b.len() == 0 {
    } else {
        lemma_lev_upper(a.drop_last(), b.drop_last());
    }
}

/// The distance is at least the difference of the two lengths.
pub proof fn lemma_lev_lower(a: Seq<u8>, b: Seq<u8>)
    ensures
        lev(a, b) + a.len() >= b.len(),
        lev(a, b) + b.len() >= a.len(),
    decreases a.len() + b.len(),
{
    if a.len() == 0 || b.len() == 0 {
    } else {
        lemma_lev_lower(a.drop_last(), b.drop_last());
        lemma_lev_lower(a.drop_last(), b);
        lemma_lev_lower(a, b.drop_last());
    }
}

/// Identity of indiscernibles, one half: a sequence is at distance 0
/// from itself.
pub proof fn lemma_lev_self(a: Seq<u8>)
    ensures
        lev(a, a) == 0,
    decreases a.len(),
{
    if a.len() == 0 {
    } else {
        lemma_lev_self(a.drop_last());
    }
}

/// The distance is symmetric.
pub proof fn lemma_lev_symmetric(a: Seq<u8>, b: Seq<u8>)
    ensures
        lev(a, b) == lev(b, a),
    decreases a.len() + b.len(),
{
    if a.len() == 0 || b.len() == 0 {
    } else {
        lemma_lev_symmetric(a.drop_last(), b.drop_last());
        lemma_lev_symmetric(a.drop_last(), b);
        lemma_lev_symmetric(a, b.drop_last());
    }
}

/// The triangle inequality: editing `a` into `b` and then `b` into `c`
/// is one way of editing `a` into `c`, so the direct distance can be no
/// larger.
pub proof fn lemma_lev_triangle(a: Seq<u8>, b: Seq<u8>, c: Seq<u8>)
    ensures
        lev(a, c) <= lev(a, b) + lev(b, c),
    decreases a.len() + b.len() + c.len(),
{
    if b.len() == 0 {
        lemma_lev_upper(a, c);
    } else if a.len() == 0 {
        lemma_lev_lower(b, c);
    } else if c.len() == 0 {
        lemma_lev_lower(a, b);
    } else {
        let ap = a.drop_last();
        let bp = b.drop_last();
        let cp = c.drop_last();
        if lev(a, b) == lev(ap, b) + 1 {
            lemma_lev_triangle(ap, b, c);
        } else if lev(b, c) == lev(b, cp) + 1 {
            lemma_lev_triangle(a, b, cp);
        } else if lev(a, b) == lev(a, bp) + 1 {
            if lev(b, c) == lev(bp, c) + 1 {
                lemma_lev_triangle(a, bp, c);
            } else {
                lemma_lev_triangle(a, bp, cp);
            }
        } else {
            if lev(b, c) == lev(bp, c) + 1 {
                lemma_lev_triangle(ap, bp, c);
            } else {
                lemma_lev_triangle(ap, bp, cp);
            }
        }
    }
}

/// Identity of indiscernibles, the other half: only a sequence itself
/// is at distance 0 from it.
pub proof fn lemma_lev_zero(a: Seq<u8>, b: Seq<u8>)
    requires
        lev(a, b) == 0,
    ensures
        a == b,
    decreases a.len() + b.len(),
{
    if a.len() == 0 || b.len() == 0 {
        assert(a =~= b);
    } else {
        lemma_lev_zero(a.drop_last(), b.drop_last());
        assert(a.last() == b.last());
        assert(a =~= a.drop_last().push(a.last()));
        assert(b =~= b.drop_last().push(b.last()));
    }
}

/// Distinct character sequences are at positive edit distance: UTF-8
/// encoding never conflates two strings.
pub proof fn lemma_str_lev_positive(a: Seq<char>, b: Seq<char>)
    requires
        a != b,
    ensures
        str_lev(a, b) >= 1,
{
    if str_lev(a, b) == 0 {
        lemma_lev_zero(vstd::utf8::encode_utf8(a), vstd::utf8::encode_utf8(b));
        vstd::utf8::encode_utf8_decode_utf8(a);
        vstd::utf8::encode_utf8_decode_utf8(b);
    }
}

/// The edit distance between two words, stated over their characters:
/// the Levenshtein distance of their UTF-8 encodings.
pub open spec fn str_lev(a: Seq<char>, b: Seq<char>) -> nat {
    lev(vstd::utf8::encode_utf8(a), vstd::utf8::encode_utf8(b))
}

/// Distance between prefixes: the cell `(x, y)` of the classic dynamic
/// programming matrix for `a` and `b`.
pub open spec fn lev_cell(a: Seq<u8>, b: Seq<u8>, x: int, y: int) -> nat {
    lev(a.take(x), b.take(y))
}

proof fn lemma_take_all(a: Seq<u8>)
    ensures
        a.take(a.len() as int) =~= a,
{
}

proof fn lemma_cell_base(a: Seq<u8>, b: Seq<u8>, x: int, y: int)
    requires
        0 <= x <= a.len(),
        0 <= y <= b.len(),
    ensures
        x == 0 ==> lev_cell(a, b, x, y) == y,
        y == 0 ==> lev_cell(a, b, x, y) == x,
{
}

/// One step of the dynamic program: each inner cell is the least of its
/// three neighbours, plus the substitution cost.
proof fn lemma_cell_step(a: Seq<u8>, b: Seq<u8>, x: int, y: int)
    requires
        1 <= x <= a.len(),
        1 <= y <= b.len(),
    ensures
        lev_cell(a, b, x, y) == min3(
            lev_cell(a, b, x - 1, y - 1) + if a[x - 1] == b[y - 1] {
                0nat
            } else {
                1nat
            },
            lev_cell(a, b, x - 1, y) + 1,
            lev_cell(a, b, x, y - 1) + 1,
        ),
{
    let ax = a.take(x);
    let by = b.take(y);
    assert(ax.last() == a[x - 1]);
    assert(by.last() == b[y - 1]);
    assert(ax.drop_last() =~= a.take(x - 1));
    assert(by.drop_last() =~= b.take(y - 1));
}

/// Every cell is bounded by the longer of the two full lengths.
proof fn lemma_cell_bound(a: Seq<u8>, b: Seq<u8>, x: int, y: int)
    requires
        0 <= x <= a.len(),
        0 <= y <= b.len(),
    ensures
        lev_cell(a, b, x, y) <= a.len() + b.len(),
{
    lemma_lev_upper(a.take(x), b.take(y));
}

/// `find_edit_distance(str_a, str_b)` returns the edit distance between
/// the two strings: 1 point per insertion, substitution, or deletion
/// which must be made to make the strings equal, working byte by byte.
///
/// Instead of storing the whole dynamic programming matrix, only one
/// row is kept. It keeps overwriting itself with the help of two
/// scalars, gradually reaching the last row; the score is then the last
/// entry of the row.
pub fn find_edit_distance(str_a: &str, str_b: &str) -> (d: u32)
    requires
        str_a.spec_bytes().len() + str_b.spec_bytes().len() < u32::MAX,
    ensures
        d == lev(str_a.spec_bytes(), str_b.spec_bytes()),
{
    let a = str_a.as_bytes();
    let b = str_b.as_bytes();
    let ghost ga = str_a.spec_bytes();
    let ghost gb = str_b.spec_bytes();
    let m = a.len();
    let n = b.len();
    if n == 0 {
        proof {
            lemma_lev_upper(ga, gb);
        }
        return m as u32;
    }
    let mut distances: Vec<u32> = Vec::new();
    let mut j: usize = 0;
    while j <= n
        invariant
            0 <= j <= n + 1,
            n == gb.len(),
            n + m < u32::MAX,
            distances@.len() == j,
            forall|k: int| 0 <= k < j ==> distances@[k] == k,
        decreases n + 1 - j,
    {
        distances.push(j as u32);
        j = j + 1;
    }
    proof {
        assert forall|k: int| 0 <= k <= n implies distances@[k] == lev_cell(ga, gb, 0, k) by {
            lemma_cell_base(ga, gb, 0, k);
        }
    }
    let mut i: usize = 1;
    while i <= m
        invariant
            1 <= i <= m + 1,
            m == ga.len(),
            n == gb.len(),
            n + m < u32::MAX,
            a@ == ga,
            b@ == gb,
            distances@.len() == n + 1,
            forall|k: int| 1 <= k <= n ==> distances@[k] == lev_cell(ga, gb, i - 1, k),
        decreases m + 1 - i,
    {
        let mut s: u32 = (i - 1) as u32;
        let mut c: u32 = i as u32;
        let char_a: u8 = a[i - 1];
        proof {
            lemma_cell_base(ga, gb, i - 1, 0);
            lemma_cell_base(ga, gb, i as int, 0);
        }
        let mut jj: usize = 1;
        while jj <= n
            invariant
                1 <= jj <= n + 1,
                1 <= i <= m,
                m == ga.len(),
                n == gb.len(),
                n + m < u32::MAX,
                a@ == ga,
                b@ == gb,
                char_a == ga[i - 1],
                distances@.len() == n + 1,
                s == lev_cell(ga, gb, i - 1, jj - 1),
                c == lev_cell(ga, gb, i as int, jj - 1),
                forall|k: int| 1 <= k < jj ==> distances@[k] == lev_cell(ga, gb, i as int, k),
                forall|k: int| jj <= k <= n ==> distances@[k] == lev_cell(ga, gb, i - 1, k),
            decreases n + 1 - jj,
        {
            let char_b: u8 = b[jj - 1];
            proof {
                lemma_cell_step(ga, gb, i as int, jj as int);
                lemma_cell_bound(ga, gb, i - 1, jj - 1);
                lemma_cell_bound(ga, gb, i as int, jj - 1);
                lemma_cell_bound(ga, gb, i - 1, jj as int);
            }
            let sub_cost: u32 = if char_a == char_b {
                0
            } else {
                1
            };
            let mut new_c: u32 = s + sub_cost;
            if c + 1 < new_c {
                new_c = c + 1;
            }
            if distances[jj] + 1 < new_c {
                new_c = distances[jj] + 1;
            }
            s = distances[jj];
            distances.set(jj, new_c);
            c = new_c;
            jj = jj + 1;
        }
        i = i + 1;
    }
    proof {
        lemma_take_all(ga);
        lemma_take_all(gb);
    }
    distances[n]
}

} // verus!
