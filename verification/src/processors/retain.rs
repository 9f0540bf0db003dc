//! Keeping some records of a sequence and dropping the others.

use crate::parsers::tdx_day::{RecordView, TDXDayRecord, views};
use vstd::prelude::*;

verus! {

/// The records of `records` whose mark in `keep` is set, in their order.
pub open spec fn retained(records: Seq<RecordView>, keep: Seq<bool>) -> Seq<RecordView>
    decreases records.len(),
{
    if records.len() == 0 || keep.len() != records.len() {
        Seq::empty()
    } else {
        let before = retained(records.drop_last(), keep.drop_last());
        if keep.last() {
            before.push(records.last())
        } else {
            before
        }
    }
}

/// The number of marks of `keep` that are set.
pub open spec fn kept_count(keep: Seq<bool>) -> int
    decreases keep.len(),
{
    if keep.len() == 0 {
        0
    } else if keep.last() {
        kept_count(keep.drop_last()) + 1
    } else {
        kept_count(keep.drop_last())
    }
}

/// The position in the input of the record that stands at position `p`
/// among the retained ones.
pub open spec fn origin(keep: Seq<bool>, p: int) -> int
    decreases keep.len(),
{
    if keep.len() == 0 {
        0
    } else if keep.last() && p == kept_count(keep.drop_last()) {
        keep.len() - 1
    } else {
        origin(keep.drop_last(), p)
    }
}

/// As many records are retained as marks are set, and no more than there
/// are records.
pub proof fn lemma_retained_len(records: Seq<RecordView>, keep: Seq<bool>)
    requires
        keep.len() == records.len(),
    ensures
        retained(records, keep).len() == kept_count(keep),
        0 <= kept_count(keep) <= records.len(),
    decreases records.len(),
{
    if records.len() > 0 {
        lemma_retained_len(records.drop_last(), keep.drop_last());
    }
}

/// The mark at `origin(keep, p)` is set, and `p` marks are set before it.
pub proof fn lemma_origin(keep: Seq<bool>, p: int)
    requires
        0 <= p < kept_count(keep),
    ensures
        0 <= origin(keep, p) < keep.len(),
        keep[origin(keep, p)],
        kept_count(keep.take(origin(keep, p))) == p,
    decreases keep.len(),
{
    let marks = keep.drop_last();
    lemma_kept_count_positive(marks);
    if keep.last() && p == kept_count(marks) {
        assert(keep.take(keep.len() - 1) == marks);
    } else {
        lemma_origin(marks, p);
        assert(marks.take(origin(marks, p)) == keep.take(origin(marks, p)));
    }
}

/// The record at position `p` among the retained ones is the record at
/// `origin(keep, p)` of the input, whose mark is set.
pub proof fn lemma_retained_origin(records: Seq<RecordView>, keep: Seq<bool>, p: int)
    requires
        keep.len() == records.len(),
        0 <= p < kept_count(keep),
    ensures
        0 <= origin(keep, p) < records.len(),
        keep[origin(keep, p)],
        retained(records, keep)[p] == records[origin(keep, p)],
    decreases records.len(),
{
    let shorter = records.drop_last();
    let marks = keep.drop_last();
    lemma_origin(keep, p);
    lemma_retained_len(shorter, marks);
    lemma_retained_len(records, keep);
    if keep.last() && p == kept_count(marks) {
    } else {
        lemma_retained_origin(shorter, marks, p);
    }
}

/// The number of set marks never decreases along the marks.
pub proof fn lemma_kept_count_grows(keep: Seq<bool>, i: int, j: int)
    requires
        0 <= i <= j <= keep.len(),
    ensures
        0 <= kept_count(keep.take(i)) <= kept_count(keep.take(j)),
        i < j && keep[i] ==> kept_count(keep.take(i)) < kept_count(keep.take(j)),
    decreases j - i,
{
    if i == j {
        lemma_kept_count_positive(keep.take(i));
    } else {
        lemma_kept_count_grows(keep, i, j - 1);
        assert(keep.take(j).drop_last() == keep.take(j - 1));
        if i == j - 1 {
            lemma_kept_count_positive(keep.take(i));
        }
    }
}

proof fn lemma_kept_count_positive(keep: Seq<bool>)
    ensures
        0 <= kept_count(keep) <= keep.len(),
    decreases keep.len(),
{
    if keep.len() > 0 {
        lemma_kept_count_positive(keep.drop_last());
    }
}

/// A record whose mark is set is retained, behind the retained records
/// that stand before it in the input.
pub proof fn lemma_retained_holds(records: Seq<RecordView>, keep: Seq<bool>, i: int)
    requires
        keep.len() == records.len(),
        0 <= i < records.len(),
        keep[i],
    ensures
        0 <= kept_count(keep.take(i)) < kept_count(keep),
        retained(records, keep)[kept_count(keep.take(i))] == records[i],
        origin(keep, kept_count(keep.take(i))) == i,
    decreases records.len(),
{
    let shorter = records.drop_last();
    let marks = keep.drop_last();
    lemma_retained_len(shorter, marks);
    lemma_retained_len(records, keep);
    if i == records.len() - 1 {
        assert(keep.take(i) == marks);
    } else {
        lemma_retained_holds(shorter, marks, i);
        assert(marks.take(i) == keep.take(i));
    }
}

/// Of two retained records, the one that stands first came first in the
/// input.
pub proof fn lemma_retained_order(keep: Seq<bool>, p: int, q: int)
    requires
        0 <= p < q < kept_count(keep),
    ensures
        origin(keep, p) < origin(keep, q),
{
    lemma_origin(keep, p);
    lemma_origin(keep, q);
    let i = origin(keep, p);
    let j = origin(keep, q);
    if j <= i {
        lemma_kept_count_grows(keep, j, i);
    }
}

/// Copies the records whose mark is set.
pub fn retain(records: &Vec<TDXDayRecord>, keep: &Vec<bool>) -> (out: Vec<TDXDayRecord>)
    requires
        keep.len() == records.len(),
    ensures
        views(out@) == retained(views(records@), keep@),
        out.len() == kept_count(keep@),
        out.len() <= records.len(),
{
    let n = records.len();
    let mut out: Vec<TDXDayRecord> = Vec::new();
    let mut i: usize = 0;
    assert(views(out@) =~= retained(views(records@).take(0), keep@.take(0)));
    while i < n
        invariant
            n == records.len(),
            n == keep.len(),
            i <= n,
            out.len() <= i,
            views(out@) == retained(views(records@).take(i as int), keep@.take(i as int)),
        decreases n - i,
    {
        let ghost before = views(out@);
        proof {
            assert(views(records@).take(i + 1).drop_last() == views(records@).take(i as int));
            assert(keep@.take(i + 1).drop_last() == keep@.take(i as int));
            assert(views(records@).take(i + 1).last() == records@[i as int]@);
        }
        if keep[i] {
            out.push(records[i].clone());
            assert(views(out@) =~= before.push(records@[i as int]@));
        }
        i += 1;
    }
    proof {
        assert(views(records@).take(n as int) == views(records@));
        assert(keep@.take(n as int) == keep@);
        lemma_retained_len(views(records@), keep@);
    }
    out
}

} // verus!
