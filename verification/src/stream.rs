//! Ghost machinery for delivery-order reasoning: the hub's publish log, the
//! projection of that log onto what one subscriber may see, and an
//! order-preserving subsequence relation.  The hub's invariant says that
//! every subscription's delivered stream is a subsequence of that projection
//! — equal to it while the subscriber has never lagged.

use vstd::prelude::*;

use crate::event::EventModel;

verus! {

/// One record of the hub's publish log: who published, and what.
pub ghost struct LogEntry {
    pub publisher: u64,
    pub event: EventModel,
}

/// The events of `log` published by sessions other than `id`, in order.
pub open spec fn others_of(log: Seq<LogEntry>, id: u64) -> Seq<EventModel>
    decreases log.len(),
{
    if log.len() == 0 {
        Seq::empty()
    } else if log.last().publisher == id {
        others_of(log.drop_last(), id)
    } else {
        others_of(log.drop_last(), id).push(log.last().event)
    }
}

/// `a` is `b` with zero or more entries left out, order kept.
pub open spec fn is_subsequence(a: Seq<EventModel>, b: Seq<EventModel>) -> bool
    decreases b.len(),
{
    if a.len() == 0 {
        true
    } else if b.len() == 0 {
        false
    } else {
        (a.last() == b.last() && is_subsequence(a.drop_last(), b.drop_last())) || is_subsequence(
            a,
            b.drop_last(),
        )
    }
}

/// A subsequence of `b` is one of `b` with more at its end.
pub proof fn lemma_subseq_extend_right(a: Seq<EventModel>, b: Seq<EventModel>, x: EventModel)
    requires
        is_subsequence(a, b),
    ensures
        is_subsequence(a, b.push(x)),
{
    if a.len() > 0 {
        assert(b.push(x).drop_last() =~= b);
    }
}

/// Appending the same event to both sides keeps the subsequence relation.
pub proof fn lemma_subseq_push_both(a: Seq<EventModel>, b: Seq<EventModel>, x: EventModel)
    requires
        is_subsequence(a, b),
    ensures
        is_subsequence(a.push(x), b.push(x)),
{
    assert(a.push(x).drop_last() =~= a);
    assert(b.push(x).drop_last() =~= b);
    assert(a.push(x).last() == b.push(x).last());
}

/// Leaving one more entry out keeps the subsequence relation.
pub proof fn lemma_subseq_remove(a: Seq<EventModel>, b: Seq<EventModel>, i: int)
    requires
        is_subsequence(a, b),
        0 <= i < a.len(),
    ensures
        is_subsequence(a.remove(i), b),
    decreases b.len(),
{
    assert(a.len() > 0);
    assert(b.len() > 0);
    if a.last() == b.last() && is_subsequence(a.drop_last(), b.drop_last()) {
        if i == a.len() - 1 {
            assert(a.remove(i) =~= a.drop_last());
            lemma_subseq_extend_right(a.drop_last(), b.drop_last(), b.last());
            assert(b.drop_last().push(b.last()) =~= b);
        } else {
            lemma_subseq_remove(a.drop_last(), b.drop_last(), i);
            assert(a.remove(i).last() == a.last());
            assert(a.remove(i).drop_last() =~= a.drop_last().remove(i));
        }
    } else {
        lemma_subseq_remove(a, b.drop_last(), i);
        lemma_subseq_extend_right(a.remove(i), b.drop_last(), b.last());
        assert(b.drop_last().push(b.last()) =~= b);
    }
}

/// Every entry of a subsequence stands somewhere in the full sequence.
pub proof fn lemma_subseq_contains(a: Seq<EventModel>, b: Seq<EventModel>, t: int)
    requires
        is_subsequence(a, b),
        0 <= t < a.len(),
    ensures
        exists|u: int| 0 <= u < b.len() && b[u] == a[t],
    decreases b.len(),
{
    if a.last() == b.last() && is_subsequence(a.drop_last(), b.drop_last()) {
        if t == a.len() - 1 {
            assert(b[b.len() - 1] == a[t]);
        } else {
            lemma_subseq_contains(a.drop_last(), b.drop_last(), t);
            let u = choose|u: int|
                0 <= u < b.drop_last().len() && b.drop_last()[u] == a.drop_last()[t];
            assert(b[u] == a[t]);
        }
    } else {
        lemma_subseq_contains(a, b.drop_last(), t);
        let u = choose|u: int| 0 <= u < b.drop_last().len() && b.drop_last()[u] == a[t];
        assert(b[u] == a[t]);
    }
}

/// One more log entry extends the projection by its event exactly when it
/// came from another session.
pub proof fn lemma_others_of_push(log: Seq<LogEntry>, entry: LogEntry, id: u64)
    ensures
        others_of(log.push(entry), id) == if entry.publisher != id {
            others_of(log, id).push(entry.event)
        } else {
            others_of(log, id)
        },
{
    assert(log.push(entry).drop_last() =~= log);
    assert(log.push(entry).last() == entry);
}

/// The projection distributes over concatenation of logs.
pub proof fn lemma_others_of_concat(l1: Seq<LogEntry>, l2: Seq<LogEntry>, id: u64)
    ensures
        others_of(l1 + l2, id) == others_of(l1, id) + others_of(l2, id),
    decreases l2.len(),
{
    if l2.len() == 0 {
        assert(l1 + l2 =~= l1);
        assert(others_of(l1, id) + others_of(l2, id) =~= others_of(l1, id));
    } else {
        lemma_others_of_concat(l1, l2.drop_last(), id);
        assert((l1 + l2).drop_last() =~= l1 + l2.drop_last());
        assert((l1 + l2).last() == l2.last());
        if l2.last().publisher == id {
            assert(others_of(l1, id) + others_of(l2, id) =~= others_of(l1, id) + others_of(
                l2.drop_last(),
                id,
            ));
        } else {
            assert(others_of(l1, id) + others_of(l2, id) =~= (others_of(l1, id) + others_of(
                l2.drop_last(),
                id,
            )).push(l2.last().event));
        }
    }
}

/// Every event of the projection stands in the log, published by another
/// session.
pub proof fn lemma_others_of_member(log: Seq<LogEntry>, id: u64, u: int)
    requires
        0 <= u < others_of(log, id).len(),
    ensures
        exists|k: int|
            0 <= k < log.len() && log[k].publisher != id && #[trigger] log[k].event == others_of(
                log,
                id,
            )[u],
    decreases log.len(),
{
    if log.last().publisher == id {
        lemma_others_of_member(log.drop_last(), id, u);
        let k = choose|k: int|
            0 <= k < log.drop_last().len() && log.drop_last()[k].publisher != id
                && #[trigger] log.drop_last()[k].event == others_of(log.drop_last(), id)[u];
        assert(log[k].event == others_of(log, id)[u]);
    } else {
        if u == others_of(log, id).len() - 1 {
            assert(log[log.len() - 1].event == others_of(log, id)[u]);
        } else {
            lemma_others_of_member(log.drop_last(), id, u);
            let k = choose|k: int|
                0 <= k < log.drop_last().len() && log.drop_last()[k].publisher != id
                    && #[trigger] log.drop_last()[k].event == others_of(log.drop_last(), id)[u];
            assert(log[k].event == others_of(log, id)[u]);
        }
    }
}

/// Appending one entry to a log moves past a prefix unchanged.
pub proof fn lemma_skip_push(log: Seq<LogEntry>, entry: LogEntry, k: int)
    requires
        0 <= k <= log.len(),
    ensures
        log.push(entry).skip(k) == log.skip(k).push(entry),
{
    assert(log.push(entry).skip(k) =~= log.skip(k).push(entry));
}

} // verus!
