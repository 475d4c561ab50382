//! The Sardinas-Patterson algorithm over a code: the set of words of a
//! list. Starting from the dangling suffixes of pairs of code words, a
//! fixed-point loop accumulates every dangling suffix that any
//! generation can produce; the code is uniquely decodable exactly when
//! no code word is among them. The words that are among them are the
//! "offenders" whose removal the pruning step uses.
use crate::text::clone_words;
use crate::text::contains_str;
use crate::text::dedup_words;
use crate::text::is_prefix_of;
use crate::text::is_strict_prefix_spec;
use crate::text::lemma_views_push;
use crate::text::views_of;
use crate::text::word_set;
use vstd::prelude::*;
use vstd::seq_lib::*;
use vstd::set_lib::*;
use vstd::string::*;

verus! {

/// The suffix that the pair `(w1, w2)` dangles: when one word is a
/// strict prefix of the other, `s` is the rest of the longer word.
pub open spec fn pair_suffix(w1: Seq<char>, w2: Seq<char>, s: Seq<char>) -> bool {
    ||| (is_strict_prefix_spec(w2, w1) && s == w1.skip(w2.len() as int))
    ||| (is_strict_prefix_spec(w1, w2) && s == w2.skip(w1.len() as int))
}

/// All dangling suffixes that a word of `c` and a word of `d` produce,
/// in either direction.
pub open spec fn dangling_suffixes(c: Set<Seq<char>>, d: Set<Seq<char>>) -> Set<Seq<char>> {
    Set::new(
        |s: Seq<char>|
            exists|w1: Seq<char>, w2: Seq<char>|
                c.contains(w1) && d.contains(w2) && pair_suffix(w1, w2, s),
    )
}

/// Generation `n` of the algorithm: the first generation pairs the code
/// with itself, and each later one pairs the code with the previous
/// generation.
pub open spec fn generation(c: Set<Seq<char>>, n: nat) -> Set<Seq<char>>
    decreases n,
{
    if n == 0 {
        dangling_suffixes(c, c)
    } else {
        dangling_suffixes(c, generation(c, (n - 1) as nat))
    }
}

/// The closure: the union of every generation.
pub open spec fn c_infinity(c: Set<Seq<char>>) -> Set<Seq<char>> {
    Set::new(|s: Seq<char>| exists|n: nat| generation(c, n).contains(s))
}

/// The code words that witness a failure of unique decodability.
pub open spec fn offender_set(c: Set<Seq<char>>) -> Set<Seq<char>> {
    c.intersect(c_infinity(c))
}

/// A code is uniquely decodable exactly when no code word reappears as
/// a dangling suffix of the closure.
pub open spec fn uniquely_decodable_spec(c: Set<Seq<char>>) -> bool {
    c.disjoint(c_infinity(c))
}

/// The decodability invariant: the offender set is empty precisely for
/// the uniquely decodable codes.
pub proof fn lemma_decodability_invariant(c: Set<Seq<char>>)
    ensures
        offender_set(c).is_empty() <==> uniquely_decodable_spec(c),
{
    if offender_set(c).is_empty() {
        assert forall|s: Seq<char>| c.contains(s) implies !c_infinity(c).contains(s) by {
            assert(!offender_set(c).contains(s));
        }
    } else {
        let s = offender_set(c).choose();
        assert(c.contains(s) && c_infinity(c).contains(s));
    }
}

/// Decodability and the offender set are functions of the code alone:
/// two lists with the same set of words, in whatever order and with
/// whatever duplication, are judged exactly alike.
pub proof fn lemma_order_and_duplicates_irrelevant(l1: Seq<String>, l2: Seq<String>)
    requires
        word_set(l1) == word_set(l2),
    ensures
        uniquely_decodable_spec(word_set(l1)) == uniquely_decodable_spec(word_set(l2)),
        offender_set(word_set(l1)) == offender_set(word_set(l2)),
{
}

/// The dangling suffixes of pairs `(p, q)` that a left-to-right sweep
/// has visited: every pair strictly before position `(i, j)`.
spec fn partial_dangling(cs: Seq<Seq<char>>, ds: Seq<Seq<char>>, i: int, j: int) -> Set<
    Seq<char>,
> {
    Set::new(
        |s: Seq<char>|
            exists|p: int, q: int|
                0 <= p < cs.len() && 0 <= q < ds.len() && (p < i || (p == i && q < j))
                    && pair_suffix(cs[p], ds[q], s),
    )
}

/// One generation step: every dangling suffix of a word of `c` and a
/// word of `prev`, each suffix listed once.
pub(crate) fn generate_cn(c: &Vec<String>, prev: &Vec<String>) -> (r: Vec<String>)
    ensures
        views_of(r@).no_duplicates(),
        views_of(r@).to_set() == dangling_suffixes(word_set(c@), word_set(prev@)),
{
    let ghost cs = views_of(c@);
    let ghost ds = views_of(prev@);
    let mut r: Vec<String> = Vec::new();
    let mut i: usize = 0;
    while i < c.len()
        invariant
            0 <= i <= c@.len(),
            cs == views_of(c@),
            ds == views_of(prev@),
            views_of(r@).no_duplicates(),
            views_of(r@).to_set() == partial_dangling(cs, ds, i as int, 0),
        decreases c@.len() - i,
    {
        let mut j: usize = 0;
        while j < prev.len()
            invariant
                0 <= i < c@.len(),
                0 <= j <= prev@.len(),
                cs == views_of(c@),
                ds == views_of(prev@),
                views_of(r@).no_duplicates(),
                views_of(r@).to_set() == partial_dangling(cs, ds, i as int, j as int),
            decreases prev@.len() - j,
        {
            let w1 = &c[i];
            let w2 = &prev[j];
            let l1 = w1.as_str().unicode_len();
            let l2 = w2.as_str().unicode_len();
            if l2 < l1 && is_prefix_of(w2.as_str(), w1.as_str()) {
                let suffix = w1.as_str().substring_char(l2, l1).to_owned();
                assert(pair_suffix(cs[i as int], ds[j as int], suffix@));
                push_if_new(&mut r, suffix);
            } else if l1 < l2 && is_prefix_of(w1.as_str(), w2.as_str()) {
                let suffix = w2.as_str().substring_char(l1, l2).to_owned();
                assert(pair_suffix(cs[i as int], ds[j as int], suffix@));
                push_if_new(&mut r, suffix);
            } else {
                assert forall|s: Seq<char>| !pair_suffix(cs[i as int], ds[j as int], s) by {}
            }
            proof {
                lemma_partial_dangling_step(cs, ds, i as int, j as int, views_of(r@).to_set());
            }
            j = j + 1;
        }
        proof {
            assert(partial_dangling(cs, ds, i as int, ds.len() as int) =~= partial_dangling(
                cs,
                ds,
                i + 1,
                0,
            ));
        }
        i = i + 1;
    }
    proof {
        lemma_partial_dangling_full(cs, ds);
        assert(word_set(c@) == cs.to_set());
        assert(word_set(prev@) == ds.to_set());
    }
    r
}

/// Append a word unless its character sequence is already present.
fn push_if_new(r: &mut Vec<String>, s: String)
    requires
        views_of(old(r)@).no_duplicates(),
    ensures
        views_of(final(r)@).no_duplicates(),
        views_of(final(r)@).to_set() == views_of(old(r)@).to_set().insert(s@),
{
    let ghost old_views = views_of(r@);
    if !contains_str(r, s.as_str()) {
        r.push(s);
        proof {
            lemma_views_push(old(r)@, s);
            assert(views_of(r@) =~= old_views.push(s@));
            assert(views_of(r@).to_set() =~= old_views.to_set().insert(s@)) by {
                assert forall|x: Seq<char>| views_of(r@).contains(x) implies old_views.to_set()
                    .insert(s@).contains(x) by {
                    let ix = choose|ix: int| 0 <= ix < views_of(r@).len() && views_of(r@)[ix] == x;
                    if ix < old_views.len() {
                        assert(old_views[ix] == x);
                    }
                }
                assert forall|x: Seq<char>|
                    old_views.to_set().insert(s@).contains(x) implies views_of(r@).contains(x) by {
                    if old_views.contains(x) {
                        let ix = choose|ix: int| 0 <= ix < old_views.len() && old_views[ix] == x;
                        assert(views_of(r@)[ix] == x);
                    } else {
                        assert(views_of(r@).last() == s@);
                    }
                }
            }
        }
    } else {
        proof {
            assert(views_of(r@).to_set() =~= old_views.to_set().insert(s@));
        }
    }
}

/// Visiting one more pair extends the visited-pair suffix set by just
/// that pair's contribution.
proof fn lemma_partial_dangling_step(
    cs: Seq<Seq<char>>,
    ds: Seq<Seq<char>>,
    i: int,
    j: int,
    r_set: Set<Seq<char>>,
)
    requires
        0 <= i < cs.len(),
        0 <= j < ds.len(),
        forall|s: Seq<char>|
            r_set.contains(s) <==> partial_dangling(cs, ds, i, j).contains(s) || pair_suffix(
                cs[i],
                ds[j],
                s,
            ),
    ensures
        r_set == partial_dangling(cs, ds, i, j + 1),
{
    assert forall|s: Seq<char>| r_set.contains(s) implies partial_dangling(
        cs,
        ds,
        i,
        j + 1,
    ).contains(s) by {
        if partial_dangling(cs, ds, i, j).contains(s) {
            let (p, q): (int, int) = choose|p: int, q: int|
                0 <= p < cs.len() && 0 <= q < ds.len() && (p < i || (p == i && q < j))
                    && pair_suffix(cs[p], ds[q], s);
            assert(0 <= p < cs.len() && 0 <= q < ds.len() && (p < i || (p == i && q < j + 1))
                && pair_suffix(cs[p], ds[q], s));
        } else {
            assert(pair_suffix(cs[i], ds[j], s));
            assert(0 <= i < cs.len() && 0 <= j < ds.len() && (i < i || (i == i && j < j + 1))
                && pair_suffix(cs[i], ds[j], s));
        }
    }
    assert forall|s: Seq<char>|
        partial_dangling(cs, ds, i, j + 1).contains(s) implies r_set.contains(s) by {
        let (p, q): (int, int) = choose|p: int, q: int|
            0 <= p < cs.len() && 0 <= q < ds.len() && (p < i || (p == i && q < j + 1))
                && pair_suffix(cs[p], ds[q], s);
        if p < i || (p == i && q < j) {
            assert(partial_dangling(cs, ds, i, j).contains(s));
        } else {
            assert(p == i && q == j);
        }
    }
    assert(r_set =~= partial_dangling(cs, ds, i, j + 1));
}

/// After the sweep has visited every pair, the visited-pair suffix set
/// is the full set of dangling suffixes of the two codes.
proof fn lemma_partial_dangling_full(cs: Seq<Seq<char>>, ds: Seq<Seq<char>>)
    ensures
        partial_dangling(cs, ds, cs.len() as int, 0) == dangling_suffixes(
            cs.to_set(),
            ds.to_set(),
        ),
{
    let full = partial_dangling(cs, ds, cs.len() as int, 0);
    let dang = dangling_suffixes(cs.to_set(), ds.to_set());
    assert forall|s: Seq<char>| full.contains(s) implies dang.contains(s) by {
        let (p, q): (int, int) = choose|p: int, q: int|
            0 <= p < cs.len() && 0 <= q < ds.len() && (p < cs.len() || (p == cs.len() && q < 0))
                && pair_suffix(cs[p], ds[q], s);
        assert(cs.to_set().contains(cs[p]));
        assert(ds.to_set().contains(ds[q]));
        assert(cs.to_set().contains(cs[p]) && ds.to_set().contains(ds[q]) && pair_suffix(
            cs[p],
            ds[q],
            s,
        ));
    }
    assert forall|s: Seq<char>| dang.contains(s) implies full.contains(s) by {
        let (w1, w2): (Seq<char>, Seq<char>) = choose|w1: Seq<char>, w2: Seq<char>|
            cs.to_set().contains(w1) && ds.to_set().contains(w2) && pair_suffix(w1, w2, s);
        let p = choose|p: int| 0 <= p < cs.len() && cs[p] == w1;
        let q = choose|q: int| 0 <= q < ds.len() && ds[q] == w2;
        assert(0 <= p < cs.len() && 0 <= q < ds.len() && (p < cs.len() || (p == cs.len() && q < 0))
            && pair_suffix(cs[p], ds[q], s));
    }
    assert(full =~= dang);
}

/// The union of generations 0 through `k`.
pub open spec fn seen_up_to(c: Set<Seq<char>>, k: nat) -> Set<Seq<char>>
    decreases k,
{
    if k == 0 {
        generation(c, 0)
    } else {
        seen_up_to(c, (k - 1) as nat).union(generation(c, k))
    }
}

proof fn lemma_seen_member(c: Set<Seq<char>>, k: nat, s: Seq<char>)
    ensures
        seen_up_to(c, k).contains(s) <==> exists|n: nat| n <= k && generation(c, n).contains(s),
    decreases k,
{
    if k == 0 {
        if generation(c, 0).contains(s) {
            assert(0nat <= k && generation(c, 0nat).contains(s));
        }
    } else {
        lemma_seen_member(c, (k - 1) as nat, s);
        if seen_up_to(c, k).contains(s) {
            if generation(c, k).contains(s) {
                assert(k <= k && generation(c, k).contains(s));
            }
        }
        if exists|n: nat| n <= k && generation(c, n).contains(s) {
            let n = choose|n: nat| n <= k && generation(c, n).contains(s);
            if n <= (k - 1) as nat {
                assert(seen_up_to(c, (k - 1) as nat).contains(s));
            }
        }
    }
}

proof fn lemma_dangling_monotone(c: Set<Seq<char>>, a: Set<Seq<char>>, b: Set<Seq<char>>)
    requires
        a.subset_of(b),
    ensures
        dangling_suffixes(c, a).subset_of(dangling_suffixes(c, b)),
{
    assert forall|s: Seq<char>|
        dangling_suffixes(c, a).contains(s) implies dangling_suffixes(c, b).contains(s) by {
        let (w1, w2): (Seq<char>, Seq<char>) = choose|w1: Seq<char>, w2: Seq<char>|
            c.contains(w1) && a.contains(w2) && pair_suffix(w1, w2, s);
        assert(c.contains(w1) && b.contains(w2) && pair_suffix(w1, w2, s));
    }
}

/// A step away from the accumulated generations lands inside the next
/// accumulation: the suffixes of `c` against `seen_up_to(c, k)` all
/// appear by generation `k + 1`.
proof fn lemma_dangling_of_seen(c: Set<Seq<char>>, k: nat)
    ensures
        dangling_suffixes(c, seen_up_to(c, k)).subset_of(seen_up_to(c, (k + 1) as nat)),
{
    assert forall|s: Seq<char>|
        dangling_suffixes(c, seen_up_to(c, k)).contains(s) implies seen_up_to(
        c,
        (k + 1) as nat,
    ).contains(s) by {
        let (w1, w2): (Seq<char>, Seq<char>) = choose|w1: Seq<char>, w2: Seq<char>|
            c.contains(w1) && seen_up_to(c, k).contains(w2) && pair_suffix(w1, w2, s);
        lemma_seen_member(c, k, w2);
        let n = choose|n: nat| n <= k && generation(c, n).contains(w2);
        assert(c.contains(w1) && generation(c, n).contains(w2) && pair_suffix(w1, w2, s));
        assert(dangling_suffixes(c, generation(c, n)).contains(s));
        assert(generation(c, (n + 1) as nat).contains(s));
        lemma_seen_member(c, (k + 1) as nat, s);
        assert((n + 1) as nat <= (k + 1) as nat && generation(c, (n + 1) as nat).contains(s));
    }
}

/// Once a generation adds nothing new, no later generation ever will:
/// the accumulated set is closed.
proof fn lemma_cycle(c: Set<Seq<char>>, k: nat, n: nat)
    requires
        generation(c, (k + 1) as nat).subset_of(seen_up_to(c, k)),
    ensures
        generation(c, n).subset_of(seen_up_to(c, k)),
    decreases n,
{
    if n <= k {
        assert forall|s: Seq<char>| generation(c, n).contains(s) implies seen_up_to(
            c,
            k,
        ).contains(s) by {
            lemma_seen_member(c, k, s);
        }
    } else if n == k + 1 {
    } else {
        lemma_cycle(c, k, (n - 1) as nat);
        lemma_dangling_monotone(c, generation(c, (n - 1) as nat), seen_up_to(c, k));
        lemma_dangling_of_seen(c, k);
        assert(generation(c, n) == dangling_suffixes(c, generation(c, (n - 1) as nat)));
        assert(seen_up_to(c, (k + 1) as nat) =~= seen_up_to(c, k).union(
            generation(c, (k + 1) as nat),
        ));
        assert(seen_up_to(c, (k + 1) as nat).subset_of(seen_up_to(c, k)));
    }
}

/// Every non-empty suffix of a word of the code, the word itself
/// included.
pub open spec fn sfx_set(c: Set<Seq<char>>) -> Set<Seq<char>> {
    Set::new(
        |s: Seq<char>|
            exists|w: Seq<char>, i: int| c.contains(w) && 0 <= i < w.len() && s == w.skip(i),
    )
}

proof fn lemma_skip_skip(w: Seq<char>, i: int, j: int)
    requires
        0 <= i,
        0 <= j,
        i + j <= w.len(),
    ensures
        w.skip(i).skip(j) =~= w.skip(i + j),
{
}

/// Every dangling suffix of `c` against suffixes of `c` is again a
/// suffix of a word of `c`.
proof fn lemma_dangling_in_sfx(c: Set<Seq<char>>, d: Set<Seq<char>>)
    requires
        d.subset_of(sfx_set(c)) || d == c,
    ensures
        dangling_suffixes(c, d).subset_of(sfx_set(c)),
{
    assert forall|s: Seq<char>| dangling_suffixes(c, d).contains(s) implies sfx_set(c).contains(
        s,
    ) by {
        let (w1, w2): (Seq<char>, Seq<char>) = choose|w1: Seq<char>, w2: Seq<char>|
            c.contains(w1) && d.contains(w2) && pair_suffix(w1, w2, s);
        if is_strict_prefix_spec(w2, w1) && s == w1.skip(w2.len() as int) {
            assert(c.contains(w1) && 0 <= w2.len() && (w2.len() as int) < w1.len() && s == w1.skip(
                w2.len() as int,
            ));
        } else {
            assert(is_strict_prefix_spec(w1, w2) && s == w2.skip(w1.len() as int));
            if d == c {
                assert(c.contains(w2) && 0 <= w1.len() < w2.len() && s == w2.skip(
                    w1.len() as int,
                ));
            } else {
                assert(sfx_set(c).contains(w2));
                let (u, i): (Seq<char>, int) = choose|u: Seq<char>, i: int|
                    c.contains(u) && 0 <= i < u.len() && w2 == u.skip(i);
                lemma_skip_skip(u, i, w1.len() as int);
                assert(s == u.skip(i + w1.len()));
                assert(c.contains(u) && 0 <= i + w1.len() < u.len() && s == u.skip(
                    i + w1.len(),
                ));
            }
        }
    }
}

proof fn lemma_generation_in_sfx(c: Set<Seq<char>>, n: nat)
    ensures
        generation(c, n).subset_of(sfx_set(c)),
    decreases n,
{
    if n == 0 {
        lemma_dangling_in_sfx(c, c);
    } else {
        lemma_generation_in_sfx(c, (n - 1) as nat);
        lemma_dangling_in_sfx(c, generation(c, (n - 1) as nat));
    }
}

proof fn lemma_seen_in_sfx(c: Set<Seq<char>>, k: nat)
    ensures
        seen_up_to(c, k).subset_of(sfx_set(c)),
    decreases k,
{
    lemma_generation_in_sfx(c, k);
    if k > 0 {
        lemma_seen_in_sfx(c, (k - 1) as nat);
    }
}

/// All non-empty suffixes of one word, as a sequence.
pub open spec fn suffixes_of(w: Seq<char>) -> Seq<Seq<char>> {
    Seq::new(w.len(), |i: int| w.skip(i))
}

/// All non-empty suffixes of all the words of a list, as one sequence;
/// its length bounds how many distinct dangling suffixes can ever
/// arise.
pub open spec fn suffix_pool(ws: Seq<Seq<char>>) -> Seq<Seq<char>>
    decreases ws.len(),
{
    if ws.len() == 0 {
        Seq::empty()
    } else {
        suffix_pool(ws.drop_last()) + suffixes_of(ws.last())
    }
}

proof fn lemma_pool_complete(ws: Seq<Seq<char>>, p: int, i: int)
    requires
        0 <= p < ws.len(),
        0 <= i < ws[p].len(),
    ensures
        suffix_pool(ws).contains(ws[p].skip(i)),
    decreases ws.len(),
{
    if p == ws.len() - 1 {
        let pos = suffix_pool(ws.drop_last()).len() + i;
        assert(suffix_pool(ws)[pos] == suffixes_of(ws.last())[i]);
        assert(suffixes_of(ws.last())[i] == ws[p].skip(i));
    } else {
        lemma_pool_complete(ws.drop_last(), p, i);
        let pos = choose|pos: int|
            0 <= pos < suffix_pool(ws.drop_last()).len() && suffix_pool(ws.drop_last())[pos]
                == ws[p].skip(i);
        assert(suffix_pool(ws)[pos] == ws[p].skip(i));
    }
}

proof fn lemma_sfx_in_pool(ws: Seq<Seq<char>>)
    ensures
        sfx_set(ws.to_set()).subset_of(suffix_pool(ws).to_set()),
{
    assert forall|s: Seq<char>| sfx_set(ws.to_set()).contains(s) implies suffix_pool(
        ws,
    ).to_set().contains(s) by {
        let (w, i): (Seq<char>, int) = choose|w: Seq<char>, i: int|
            ws.to_set().contains(w) && 0 <= i < w.len() && s == w.skip(i);
        let p = choose|p: int| 0 <= p < ws.len() && ws[p] == w;
        lemma_pool_complete(ws, p, i);
    }
}

/// A list of distinct suffixes drawn from the code can hold at most as
/// many entries as the pool of all suffixes of the code's words.
proof fn lemma_seen_len_bound(c: Seq<String>, cs: Seq<String>, k: nat)
    requires
        views_of(cs).no_duplicates(),
        views_of(cs).to_set() == seen_up_to(word_set(c), k),
    ensures
        cs.len() <= suffix_pool(views_of(c)).len(),
{
    let pool = suffix_pool(views_of(c));
    lemma_seen_in_sfx(word_set(c), k);
    lemma_sfx_in_pool(views_of(c));
    views_of(cs).unique_seq_to_set();
    broadcast use vstd::seq_lib::seq_to_set_is_finite;

    lemma_len_subset(seen_up_to(word_set(c), k), pool.to_set());
    pool.lemma_cardinality_of_set();
}

/// The fixed-point loop: generations are produced and accumulated
/// until one adds nothing new; the result holds exactly the closure,
/// each suffix once.
pub(crate) fn generate_c_infinity_with_a_halt_break(c: &Vec<String>) -> (r: Vec<String>)
    ensures
        views_of(r@).no_duplicates(),
        views_of(r@).to_set() == c_infinity(word_set(c@)),
{
    let ghost cset = word_set(c@);
    let mut cn = generate_cn(c, c);
    let mut cs = clone_words(&cn);
    let ghost mut k: nat = 0;
    proof {
        assert(views_of(cs@) =~= views_of(cn@));
        assert(seen_up_to(cset, 0) == generation(cset, 0));
    }
    loop
        invariant
            cset == word_set(c@),
            views_of(cn@).no_duplicates(),
            views_of(cn@).to_set() == generation(cset, k),
            views_of(cs@).no_duplicates(),
            views_of(cs@).to_set() == seen_up_to(cset, k),
        ensures
            views_of(cs@).no_duplicates(),
            views_of(cs@).to_set() == seen_up_to(cset, k),
            k >= 1,
            generation(cset, k).subset_of(seen_up_to(cset, (k - 1) as nat)),
            seen_up_to(cset, (k - 1) as nat) == seen_up_to(cset, k),
        decreases suffix_pool(views_of(c@)).len() - cs@.len(),
    {
        proof {
            lemma_seen_len_bound(c@, cs@, k);
        }
        let new_cn = generate_cn(c, &cn);
        let prior = cs.len();
        let ghost old_cs_views = views_of(cs@);
        let mut idx: usize = 0;
        while idx < new_cn.len()
            invariant
                0 <= idx <= new_cn@.len(),
                views_of(cs@).no_duplicates(),
                views_of(cs@).to_set() == old_cs_views.to_set().union(
                    views_of(new_cn@).take(idx as int).to_set(),
                ),
                cs@.len() >= prior,
                prior == old_cs_views.len(),
                old_cs_views.no_duplicates(),
            decreases new_cn@.len() - idx,
        {
            let ghost before = views_of(cs@).to_set();
            let w = new_cn[idx].clone();
            push_if_new(&mut cs, w);
            proof {
                broadcast use vstd::prelude::Seq::lemma_push_to_set_commute;

                assert(views_of(new_cn@).take(idx + 1) =~= views_of(new_cn@).take(
                    idx as int,
                ).push(views_of(new_cn@)[idx as int]));
                assert(views_of(new_cn@).take(idx + 1).to_set() =~= views_of(new_cn@).take(
                    idx as int,
                ).to_set().insert(views_of(new_cn@)[idx as int]));
                assert(views_of(cs@).to_set() =~= old_cs_views.to_set().union(
                    views_of(new_cn@).take(idx + 1).to_set(),
                ));
                views_of(cs@).unique_seq_to_set();
                old_cs_views.unique_seq_to_set();
                broadcast use vstd::seq_lib::seq_to_set_is_finite;

                lemma_len_subset(old_cs_views.to_set(), views_of(cs@).to_set());
            }
            idx = idx + 1;
        }
        proof {
            assert(views_of(new_cn@).take(new_cn@.len() as int) =~= views_of(new_cn@));
            assert(views_of(cs@).to_set() == seen_up_to(cset, k).union(generation(cset, (k
                + 1) as nat)));
            assert(views_of(cs@).to_set() == seen_up_to(cset, (k + 1) as nat));
            k = k + 1;
        }
        cn = new_cn;
        if cs.len() == prior {
            proof {
                views_of(cs@).unique_seq_to_set();
                old_cs_views.unique_seq_to_set();
                broadcast use vstd::seq_lib::seq_to_set_is_finite;

                lemma_len_subset(old_cs_views.to_set(), views_of(cs@).to_set());
                lemma_subset_equality(old_cs_views.to_set(), views_of(cs@).to_set());
                assert(old_cs_views.to_set() == seen_up_to(cset, (k - 1) as nat));
                assert(generation(cset, k).subset_of(views_of(cs@).to_set()));
            }
            break;
        }
        proof {
            lemma_seen_len_bound(c@, cs@, k);
            assert(cs@.len() > prior);
        }
    }
    proof {
        let kk = (k - 1) as nat;
        assert forall|s: Seq<char>| c_infinity(cset).contains(s) implies views_of(
            cs@,
        ).to_set().contains(s) by {
            let n = choose|n: nat| generation(cset, n).contains(s);
            lemma_cycle(cset, kk, n);
            assert(seen_up_to(cset, kk).contains(s));
        }
        assert forall|s: Seq<char>| views_of(cs@).to_set().contains(s) implies c_infinity(
            cset,
        ).contains(s) by {
            lemma_seen_member(cset, k, s);
            let n = choose|n: nat| n <= k && generation(cset, n).contains(s);
            assert(generation(cset, n).contains(s));
        }
        assert(views_of(cs@).to_set() =~= c_infinity(cset));
    }
    cs
}

/// Return the words that "caused" the Sardinas-Patterson algorithm to
/// determine that this list was not uniquely decodable: the code words
/// that reappear in the closure of dangling suffixes. These offending
/// words can then be removed from the original list to, theoretically,
/// make the list uniquely decodable. The words come back in the order
/// of their first appearance, one occurrence each; for a uniquely
/// decodable list the result is empty.
pub fn get_sardinas_patterson_final_intersection(c: &[String]) -> (r: Vec<String>)
    ensures
        views_of(r@).no_duplicates(),
        views_of(r@).to_set() == offender_set(word_set(c@)),
{
    let ghost cset = word_set(c@);
    let cd = dedup_words(c);
    let c_inf = generate_c_infinity_with_a_halt_break(&cd);
    let ghost inf_set = c_infinity(cset);
    let mut r: Vec<String> = Vec::new();
    let mut i: usize = 0;
    while i < cd.len()
        invariant
            0 <= i <= cd@.len(),
            views_of(cd@).to_set() == cset,
            views_of(c_inf@).to_set() == inf_set,
            inf_set == c_infinity(cset),
            cset == word_set(c@),
            views_of(r@).no_duplicates(),
            views_of(r@).to_set() == views_of(cd@).take(i as int).to_set().intersect(inf_set),
        decreases cd@.len() - i,
    {
        proof {
            broadcast use vstd::prelude::Seq::lemma_push_to_set_commute;

            assert(views_of(cd@).take(i + 1) =~= views_of(cd@).take(i as int).push(
                views_of(cd@)[i as int],
            ));
        }
        if contains_str(&c_inf, cd[i].as_str()) {
            let ghost old_set = views_of(r@).to_set();
            let w = cd[i].clone();
            push_if_new(&mut r, w);
            proof {
                assert(views_of(cd@)[i as int] == cd@[i as int]@);
                assert(inf_set.contains(views_of(cd@)[i as int]));
                assert(views_of(r@).to_set() =~= views_of(cd@).take(i + 1).to_set().intersect(
                    inf_set,
                ));
            }
        } else {
            proof {
                assert(!inf_set.contains(views_of(cd@)[i as int]));
                assert(views_of(r@).to_set() =~= views_of(cd@).take(i + 1).to_set().intersect(
                    inf_set,
                ));
            }
        }
        i = i + 1;
    }
    proof {
        assert(views_of(cd@).take(cd@.len() as int) =~= views_of(cd@));
        assert(views_of(r@).to_set() =~= offender_set(cset));
    }
    r
}

} // verus!
