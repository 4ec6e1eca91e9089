//! Facts on sequences of cell indices in which no index occurs twice.

use vstd::prelude::*;

verus! {

/// What a sequence holds after a push: what it held, and what was pushed.
pub proof fn lemma_push_contains(list: Seq<usize>, pushed: usize, idx: usize)
    ensures
        list.push(pushed).contains(idx) <==> list.contains(idx) || idx == pushed,
{
    let longer = list.push(pushed);
    if list.contains(idx) {
        let i = choose|i: int| 0 <= i < list.len() && list[i] == idx;
        assert(longer[i] == idx);
    }
    if idx == pushed {
        assert(longer[list.len() as int] == idx);
    }
    if longer.contains(idx) {
        let i = choose|i: int| 0 <= i < longer.len() && longer[i] == idx;
        if i < list.len() {
            assert(list[i] == idx);
        }
    }
}

/// A push of an index that the sequence does not hold repeats nothing.
pub proof fn lemma_push_distinct(list: Seq<usize>, pushed: usize)
    requires
        list.no_duplicates(),
        !list.contains(pushed),
    ensures
        list.push(pushed).no_duplicates(),
{
    let longer = list.push(pushed);
    assert forall|i: int, j: int|
        0 <= i < longer.len() && 0 <= j < longer.len() && i != j implies longer[i]
        != longer[j] by {
        if i < list.len() {
            assert(list.contains(list[i]));
        }
        if j < list.len() {
            assert(list.contains(list[j]));
        }
    }
}

/// What a sequence without repeats holds once the index at `pos` is taken
/// out: what it held, but for that index.
pub proof fn lemma_remove_contains(list: Seq<usize>, pos: int, idx: usize)
    requires
        list.no_duplicates(),
        0 <= pos < list.len(),
    ensures
        list.remove(pos).contains(idx) <==> list.contains(idx) && idx != list[pos],
        list.remove(pos).no_duplicates(),
{
    let shorter = list.remove(pos);
    if shorter.contains(idx) {
        let i = choose|i: int| 0 <= i < shorter.len() && shorter[i] == idx;
        if i < pos {
            assert(list[i] == idx);
        } else {
            assert(list[i + 1] == idx);
        }
    }
    if list.contains(idx) && idx != list[pos] {
        let i = choose|i: int| 0 <= i < list.len() && list[i] == idx;
        if i < pos {
            assert(shorter[i] == idx);
        } else {
            assert(shorter[i - 1] == idx);
        }
    }
    assert forall|i: int, j: int|
        0 <= i < shorter.len() && 0 <= j < shorter.len() && i != j implies shorter[i]
        != shorter[j] by {
        let i2 = if i < pos {
            i
        } else {
            i + 1
        };
        let j2 = if j < pos {
            j
        } else {
            j + 1
        };
        assert(shorter[i] == list[i2] && shorter[j] == list[j2]);
    }
}

/// A sequence of indices below `bound` without repeats is no longer than
/// `bound`.
pub proof fn lemma_distinct_below(list: Seq<usize>, bound: int)
    requires
        0 <= bound,
        list.no_duplicates(),
        forall|i: int| 0 <= i < list.len() ==> #[trigger] list[i] < bound,
    ensures
        list.len() <= bound,
    decreases bound,
{
    if bound == 0 {
        if list.len() > 0 {
            assert(list[0] < bound);
        }
    } else if exists|pos: int| 0 <= pos < list.len() && list[pos] == bound - 1 {
        let pos = choose|pos: int| 0 <= pos < list.len() && list[pos] == bound - 1;
        let shorter = list.remove(pos);
        assert forall|i: int| 0 <= i < shorter.len() implies #[trigger] shorter[i] < bound - 1 by {
            lemma_remove_contains(list, pos, shorter[i]);
            assert(shorter.contains(shorter[i]));
            let i2 = if i < pos {
                i
            } else {
                i + 1
            };
            assert(shorter[i] == list[i2]);
        }
        lemma_remove_contains(list, pos, 0);
        lemma_distinct_below(shorter, bound - 1);
    } else {
        lemma_distinct_below(list, bound - 1);
    }
}

} // verus!
