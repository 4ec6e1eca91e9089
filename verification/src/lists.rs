//! Lists of cell indices: membership and filtering.

use vstd::prelude::*;

verus! {

/// The test that keeps every index but `source` and `goal`.
pub open spec fn not_endpoint(source: usize, goal: usize) -> spec_fn(usize) -> bool {
    |idx: usize| idx != source && idx != goal
}

/// Whether `idx` occurs in `list`.
pub fn contains_index(list: &Vec<usize>, idx: usize) -> (found: bool)
    ensures
        found == list@.contains(idx),
{
    let mut i: usize = 0;
    while i < list.len()
        invariant
            i <= list.len(),
            forall|k: int| 0 <= k < i ==> list@[k] != idx,
        decreases list.len() - i,
    {
        if list[i] == idx {
            return true;
        }
        i += 1;
    }
    false
}

/// Whether every index of `list` lies below `bound`.
pub fn all_below(list: &Vec<usize>, bound: usize) -> (all: bool)
    ensures
        all == (forall|k: int| 0 <= k < list@.len() ==> list@[k] < bound),
{
    let mut i: usize = 0;
    while i < list.len()
        invariant
            i <= list.len(),
            forall|k: int| 0 <= k < i ==> list@[k] < bound,
        decreases list.len() - i,
    {
        if list[i] >= bound {
            return false;
        }
        i += 1;
    }
    true
}

/// The indices of `list` that are neither `source` nor `goal`, in the order
/// in which `list` holds them.
pub fn discard_endpoints(list: &Vec<usize>, source: usize, goal: usize) -> (kept: Vec<usize>)
    ensures
        kept@ == list@.filter(not_endpoint(source, goal)),
{
    let mut kept: Vec<usize> = Vec::new();
    let mut i: usize = 0;
    proof {
        reveal(Seq::filter);
        assert(list@.take(0).len() == 0);
    }
    while i < list.len()
        invariant
            i <= list.len(),
            kept@ == list@.take(i as int).filter(not_endpoint(source, goal)),
        decreases list.len() - i,
    {
        let idx = list[i];
        proof {
            assert(list@.take(i + 1) == list@.take(i as int).push(idx));
            list@.take(i as int).lemma_filter_push(idx, not_endpoint(source, goal));
        }
        if idx != source && idx != goal {
            kept.push(idx);
        }
        i += 1;
    }
    proof {
        assert(list@.take(list@.len() as int) == list@);
    }
    kept
}

/// What `discard_endpoints` keeps: the indices of the list that are neither
/// endpoint, and no more of them than the list holds.
pub proof fn lemma_discard_endpoints(list: Seq<usize>, source: usize, goal: usize)
    ensures
        list.filter(not_endpoint(source, goal)).len() <= list.len(),
        forall|idx: usize|
            #[trigger] list.filter(not_endpoint(source, goal)).contains(idx) <==> list.contains(idx)
                && idx != source && idx != goal,
{
    let pred = not_endpoint(source, goal);
    let kept = list.filter(pred);
    list.lemma_filter_len(pred);
    assert forall|idx: usize| #[trigger] kept.contains(idx) implies list.contains(idx) && idx
        != source && idx != goal by {
        list.lemma_filter_contains_rev(pred, idx);
        let k = choose|k: int| 0 <= k < kept.len() && kept[k] == idx;
        list.lemma_filter_pred(pred, k);
    }
    assert forall|idx: usize|
        list.contains(idx) && idx != source && idx != goal implies kept.contains(idx) by {
        let k = choose|k: int| 0 <= k < list.len() && list[k] == idx;
        list.lemma_filter_contains(pred, k);
    }
}

} // verus!
