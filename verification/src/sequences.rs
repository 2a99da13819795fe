//! Sequences without repetition.

use vstd::prelude::*;

verus! {

/// `acc` followed by the members of `items` that are new, each at the place
/// where it first occurs.
pub open spec fn absorb<T>(acc: Seq<T>, items: Seq<T>) -> Seq<T>
    decreases items.len(),
{
    if items.len() == 0 {
        acc
    } else {
        let before = absorb(acc, items.drop_last());
        if before.contains(items.last()) {
            before
        } else {
            before.push(items.last())
        }
    }
}

/// The members of `items` in the order of their first occurrence.
pub open spec fn distinct<T>(items: Seq<T>) -> Seq<T> {
    absorb(Seq::empty(), items)
}

/// Absorbing a concatenation is absorbing its parts in turn.
pub proof fn lemma_absorb_concat<T>(acc: Seq<T>, x: Seq<T>, y: Seq<T>)
    ensures
        absorb(acc, x + y) == absorb(absorb(acc, x), y),
    decreases y.len(),
{
    if y.len() == 0 {
        assert(x + y =~= x);
    } else {
        assert((x + y).drop_last() =~= x + y.drop_last());
        lemma_absorb_concat(acc, x, y.drop_last());
    }
}

/// What `absorb` holds, and that it keeps `acc` in front and adds nothing twice.
pub proof fn lemma_absorb<T>(acc: Seq<T>, items: Seq<T>)
    ensures
        acc.len() <= absorb(acc, items).len() <= acc.len() + items.len(),
        absorb(acc, items).take(acc.len() as int) == acc,
        forall|v: T| #[trigger]
            absorb(acc, items).contains(v) <==> acc.contains(v) || items.contains(v),
        acc.no_duplicates() ==> absorb(acc, items).no_duplicates(),
    decreases items.len(),
{
    if items.len() == 0 {
        assert(acc.take(acc.len() as int) =~= acc);
        assert forall|v: T| !items.contains(v) by {
            if items.contains(v) {
                let i = choose|i: int| 0 <= i < items.len() && items[i] == v;
            }
        }
    } else {
        let front = items.drop_last();
        let last = items.last();
        lemma_absorb(acc, front);
        let before = absorb(acc, front);
        let after = absorb(acc, items);
        assert(after.take(acc.len() as int) =~= before.take(acc.len() as int));
        assert forall|v: T| #[trigger] after.contains(v) <==> acc.contains(v) || items.contains(v) by {
            if after.contains(v) {
                let i = choose|i: int| 0 <= i < after.len() && after[i] == v;
                if i < before.len() {
                    assert(before[i] == v);
                    assert(before.contains(v));
                    if front.contains(v) {
                        let k = choose|k: int| 0 <= k < front.len() && front[k] == v;
                        assert(items[k] == v);
                    }
                } else {
                    assert(v == last);
                    assert(items[items.len() - 1] == v);
                }
            }
            if acc.contains(v) {
                assert(before.contains(v));
                let i = choose|i: int| 0 <= i < before.len() && before[i] == v;
                assert(after[i] == v);
            }
            if items.contains(v) {
                let k = choose|k: int| 0 <= k < items.len() && items[k] == v;
                if k < front.len() {
                    assert(front[k] == v);
                    assert(front.contains(v));
                    assert(before.contains(v));
                    let i = choose|i: int| 0 <= i < before.len() && before[i] == v;
                    assert(after[i] == v);
                } else {
                    assert(v == last);
                    if before.contains(last) {
                    } else {
                        assert(after[before.len() as int] == last);
                    }
                }
            }
        }
    }
}

} // verus!
