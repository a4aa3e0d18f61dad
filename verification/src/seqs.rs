//! Facts about sequences that the other modules share.

use vstd::prelude::*;

verus! {

/// `rows` with every value kept where it first occurs and dropped after.
pub open spec fn distinct<T>(rows: Seq<T>) -> Seq<T>
    decreases rows.len(),
{
    if rows.len() == 0 {
        rows
    } else {
        let before = distinct(rows.drop_last());
        if before.contains(rows.last()) {
            before
        } else {
            before.push(rows.last())
        }
    }
}

/// `distinct` keeps exactly the values of the sequence, each once.
pub proof fn lemma_distinct<A>(rows: Seq<A>)
    ensures
        distinct(rows).no_duplicates(),
        forall|row: A| distinct(rows).contains(row) <==> rows.contains(row),
    decreases rows.len(),
{
    if rows.len() > 0 {
        let before = rows.drop_last();
        lemma_distinct(before);
        let kept = distinct(before);
        assert forall|row: A| distinct(rows).contains(row) <==> rows.contains(row) by {
            if rows.contains(row) {
                let i = choose|i: int| 0 <= i < rows.len() && rows[i] == row;
                if i < before.len() {
                    assert(before[i] == row);
                    assert(before.contains(row));
                    assert(kept.contains(row));
                    let k = choose|k: int| 0 <= k < kept.len() && kept[k] == row;
                    assert(distinct(rows)[k] == row);
                } else if !kept.contains(rows.last()) {
                    assert(distinct(rows) == kept.push(rows.last()));
                    assert(distinct(rows)[kept.len() as int] == row);
                }
            }
            if distinct(rows).contains(row) {
                let k = choose|k: int| 0 <= k < distinct(rows).len() && distinct(rows)[k] == row;
                if k < kept.len() {
                    assert(kept[k] == row);
                    assert(before.contains(row));
                    let i = choose|i: int| 0 <= i < before.len() && before[i] == row;
                    assert(rows[i] == row);
                } else {
                    assert(rows[rows.len() - 1] == row);
                }
            }
        }
    }
}

/// One more element of a sequence, filtered: the element joins the rows
/// already chosen where it passes, and is left out where it does not.
pub proof fn lemma_filter_next<A>(rows: Seq<A>, i: int, pred: spec_fn(A) -> bool)
    requires
        0 <= i < rows.len(),
    ensures
        rows.take(i + 1).filter(pred) == if pred(rows[i]) {
            rows.take(i).filter(pred).push(rows[i])
        } else {
            rows.take(i).filter(pred)
        },
{
    reveal(Seq::filter);
    assert(rows.take(i + 1).drop_last() =~= rows.take(i));
}

/// Filtering keeps a sequence whose elements all pass.
pub proof fn lemma_filter_all<A>(rows: Seq<A>, pred: spec_fn(A) -> bool)
    requires
        forall|i: int| 0 <= i < rows.len() ==> pred(#[trigger] rows[i]),
    ensures
        rows.filter(pred) == rows,
    decreases rows.len(),
{
    reveal(Seq::filter);
    if rows.len() > 0 {
        lemma_filter_all(rows.drop_last(), pred);
        assert(rows.drop_last().push(rows.last()) =~= rows);
    }
}

/// Filtering empties a sequence none of whose elements pass.
pub proof fn lemma_filter_none<A>(rows: Seq<A>, pred: spec_fn(A) -> bool)
    requires
        forall|i: int| 0 <= i < rows.len() ==> !pred(#[trigger] rows[i]),
    ensures
        rows.filter(pred) == Seq::<A>::empty(),
    decreases rows.len(),
{
    reveal(Seq::filter);
    if rows.len() > 0 {
        lemma_filter_none(rows.drop_last(), pred);
    }
}

} // verus!
