//! Combining word lists that were read from several sources: the
//! lists are "blended" one word at a time, like dealing cards in
//! reverse, so that each source contributes evenly to the front of
//! the combined list.
use vstd::prelude::*;

verus! {

/// The words of the lists, as sequences.
pub open spec fn lists_views(lists: Seq<Vec<String>>) -> Seq<Seq<String>> {
    lists.map_values(|l: Vec<String>| l@)
}

/// The length of the longest list.
pub open spec fn max_len(ls: Seq<Seq<String>>) -> int
    decreases ls.len(),
{
    if ls.len() == 0 {
        0
    } else {
        let m = max_len(ls.drop_last());
        if ls.last().len() > m {
            ls.last().len() as int
        } else {
            m
        }
    }
}

/// Round `i` of blending: the `i`-th word of every list long enough to
/// have one, in list order.
pub open spec fn blend_round(ls: Seq<Seq<String>>, i: int) -> Seq<String> {
    ls.filter(|l: Seq<String>| l.len() > i).map_values(|l: Seq<String>| l[i])
}

/// The first `k` rounds of blending, concatenated.
pub open spec fn blend_upto(ls: Seq<Seq<String>>, k: int) -> Seq<String>
    decreases k,
{
    if k <= 0 {
        Seq::empty()
    } else {
        blend_upto(ls, k - 1) + blend_round(ls, k - 1)
    }
}

/// The fully blended list: every round up to the longest list's
/// length.
pub open spec fn blend_spec(ls: Seq<Seq<String>>) -> Seq<String> {
    blend_upto(ls, max_len(ls))
}

/// "Blend" the given lists into one, taking words one at a time from
/// each list in turn, like dealing cards in reverse.
pub fn blend(lists: &Vec<Vec<String>>) -> (r: Vec<String>)
    ensures
        r@ == blend_spec(lists_views(lists@)),
{
    let ghost ls = lists_views(lists@);
    let mut size_of_longest_vector: usize = 0;
    let mut i: usize = 0;
    proof {
        assert(ls.take(0) =~= Seq::<Seq<String>>::empty());
    }
    while i < lists.len()
        invariant
            0 <= i <= lists@.len(),
            ls == lists_views(lists@),
            size_of_longest_vector == max_len(ls.take(i as int)),
        decreases lists@.len() - i,
    {
        proof {
            assert(ls.take(i + 1).drop_last() =~= ls.take(i as int));
            assert(ls.take(i + 1).last() == ls[i as int]);
        }
        if lists[i].len() > size_of_longest_vector {
            size_of_longest_vector = lists[i].len();
        }
        i = i + 1;
    }
    proof {
        assert(ls.take(ls.len() as int) =~= ls);
    }
    let mut blended: Vec<String> = Vec::new();
    let mut round: usize = 0;
    while round < size_of_longest_vector
        invariant
            0 <= round <= size_of_longest_vector,
            ls == lists_views(lists@),
            size_of_longest_vector == max_len(ls),
            blended@ == blend_upto(ls, round as int),
        decreases size_of_longest_vector - round,
    {
        let ghost pred = |l: Seq<String>| l.len() > round as int;
        let ghost mapper = |l: Seq<String>| l[round as int];
        let mut j: usize = 0;
        proof {
            reveal(Seq::filter);
            assert(ls.take(0).filter(pred) =~= Seq::<Seq<String>>::empty());
            assert(ls.take(0).filter(pred).map_values(mapper) =~= Seq::<String>::empty());
            assert(blended@ + ls.take(0).filter(pred).map_values(mapper) =~= blended@);
        }
        let ghost at_start = blended@;
        while j < lists.len()
            invariant
                0 <= j <= lists@.len(),
                ls == lists_views(lists@),
                pred == (|l: Seq<String>| l.len() > round as int),
                mapper == (|l: Seq<String>| l[round as int]),
                blended@ == at_start + ls.take(j as int).filter(pred).map_values(mapper),
            decreases lists@.len() - j,
        {
            proof {
                reveal(Seq::filter);
                assert(ls.take(j + 1).drop_last() =~= ls.take(j as int));
                assert(ls.take(j + 1).last() == ls[j as int]);
            }
            if lists[j].len() > round {
                blended.push(lists[j][round].clone());
                proof {
                    assert(ls.take(j + 1).filter(pred) =~= ls.take(j as int).filter(pred).push(
                        ls[j as int],
                    ));
                    assert(ls.take(j + 1).filter(pred).map_values(mapper) =~= ls.take(
                        j as int,
                    ).filter(pred).map_values(mapper).push(mapper(ls[j as int])));
                    assert(blended@ =~= at_start + ls.take(j + 1).filter(pred).map_values(mapper));
                }
            } else {
                proof {
                    assert(ls.take(j + 1).filter(pred) =~= ls.take(j as int).filter(pred));
                }
            }
            j = j + 1;
        }
        proof {
            assert(ls.take(ls.len() as int) =~= ls);
            assert(blended@ == blend_upto(ls, round + 1));
        }
        round = round + 1;
    }
    blended
}

} // verus!
