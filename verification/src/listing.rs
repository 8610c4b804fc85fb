//! Newest-first ordering of blob listings.
//!
//! Blobs are ordered by creation time, newest first; blobs created at the
//! same time keep the order they came in (a stable sort).
use crate::blob::BlobInfo;
use vstd::multiset::Multiset;
use vstd::prelude::*;

verus! {

broadcast use vstd::seq_lib::group_to_multiset_ensures;

/// Where an item created at `t` goes in a newest-first sequence: after every
/// item created at `t` or later.
pub open spec fn newest_position(sorted: Seq<BlobInfo>, t: u64) -> int
    decreases sorted.len(),
{
    if sorted.len() == 0 {
        0
    } else if sorted[0].created_at < t {
        0
    } else {
        1 + newest_position(sorted.drop_first(), t)
    }
}

/// Adds an item to a newest-first sequence.
pub open spec fn insert_newest(sorted: Seq<BlobInfo>, x: BlobInfo) -> Seq<BlobInfo> {
    sorted.insert(newest_position(sorted, x.created_at), x)
}

/// The items in newest-first order, ties kept in their original order.
pub open spec fn newest_first(s: Seq<BlobInfo>) -> Seq<BlobInfo>
    decreases s.len(),
{
    if s.len() == 0 {
        s
    } else {
        insert_newest(newest_first(s.drop_last()), s.last())
    }
}

/// Creation times never increase along the sequence.
pub open spec fn is_newest_first(s: Seq<BlobInfo>) -> bool {
    forall|i: int, j: int| 0 <= i < j < s.len() ==> #[trigger] s[i].created_at >= #[trigger] s[j].created_at
}

/// The position found by scanning: past every item at least as new.
pub proof fn lemma_newest_position(sorted: Seq<BlobInfo>, t: u64, p: int)
    requires
        0 <= p <= sorted.len(),
        forall|k: int| 0 <= k < p ==> #[trigger] sorted[k].created_at >= t,
        p < sorted.len() ==> sorted[p].created_at < t,
    ensures
        newest_position(sorted, t) == p,
    decreases sorted.len(),
{
    if sorted.len() > 0 && p > 0 {
        assert(sorted[0].created_at >= t);
        let rest = sorted.drop_first();
        assert forall|k: int| 0 <= k < p - 1 implies #[trigger] rest[k].created_at >= t by {
            assert(rest[k] == sorted[k + 1]);
        }
        lemma_newest_position(rest, t, p - 1);
    }
}

/// The position lies within the sequence, after the items at least as new
/// and before the first older one.
pub proof fn lemma_newest_position_bounds(sorted: Seq<BlobInfo>, t: u64)
    ensures
        0 <= newest_position(sorted, t) <= sorted.len(),
        forall|k: int|
            0 <= k < newest_position(sorted, t) ==> #[trigger] sorted[k].created_at >= t,
        newest_position(sorted, t) < sorted.len() ==> sorted[newest_position(
            sorted,
            t,
        )].created_at < t,
    decreases sorted.len(),
{
    if sorted.len() > 0 && sorted[0].created_at >= t {
        let rest = sorted.drop_first();
        lemma_newest_position_bounds(rest, t);
        assert forall|k: int| 0 <= k < newest_position(sorted, t) implies #[trigger] sorted[k].created_at
            >= t by {
            if k > 0 {
                assert(sorted[k] == rest[k - 1]);
            }
        }
    }
}

/// Adding an item to a newest-first sequence keeps it newest-first.
pub proof fn lemma_insert_newest_sorted(sorted: Seq<BlobInfo>, x: BlobInfo)
    requires
        is_newest_first(sorted),
    ensures
        is_newest_first(insert_newest(sorted, x)),
        insert_newest(sorted, x).len() == sorted.len() + 1,
{
    let t = x.created_at;
    lemma_newest_position_bounds(sorted, t);
    let p = newest_position(sorted, t);
    let u = insert_newest(sorted, x);
    assert forall|i: int, j: int| 0 <= i < j < u.len() implies #[trigger] u[i].created_at
        >= #[trigger] u[j].created_at by {
        if j < p {
            assert(u[i] == sorted[i] && u[j] == sorted[j]);
        } else if j == p {
            assert(u[i] == sorted[i]);
        } else if i < p {
            assert(u[i] == sorted[i] && u[j] == sorted[j - 1]);
            assert(sorted[p].created_at < t);
            if j - 1 > p {
                assert(sorted[p].created_at >= sorted[j - 1].created_at);
            }
        } else if i == p {
            assert(u[j] == sorted[j - 1]);
            if j - 1 > p {
                assert(sorted[p].created_at >= sorted[j - 1].created_at);
            }
        } else {
            assert(u[i] == sorted[i - 1] && u[j] == sorted[j - 1]);
        }
    }
}

/// Inserting an item anywhere adds it to the multiset of items.
pub proof fn lemma_insert_to_multiset(s: Seq<BlobInfo>, p: int, x: BlobInfo)
    requires
        0 <= p <= s.len(),
    ensures
        s.insert(p, x).to_multiset() == s.to_multiset().insert(x),
{
    let u = s.insert(p, x);
    assert(u.remove(p) =~= s);
    assert(u[p] == x);
    assert(u.contains(x));
    assert(u.to_multiset() =~= s.to_multiset().insert(x));
}

/// The newest-first listing is ordered by creation time, newest first, and
/// holds exactly the items it was made from.
pub proof fn lemma_newest_first_sorted_permutation(s: Seq<BlobInfo>)
    ensures
        is_newest_first(newest_first(s)),
        newest_first(s).to_multiset() == s.to_multiset(),
        newest_first(s).len() == s.len(),
    decreases s.len(),
{
    if s.len() > 0 {
        let rest = s.drop_last();
        lemma_newest_first_sorted_permutation(rest);
        lemma_insert_newest_sorted(newest_first(rest), s.last());
        lemma_newest_position_bounds(newest_first(rest), s.last().created_at);
        lemma_insert_to_multiset(
            newest_first(rest),
            newest_position(newest_first(rest), s.last().created_at),
            s.last(),
        );
        assert(s =~= rest.push(s.last()));
        assert(s.to_multiset() =~= rest.to_multiset().insert(s.last()));
    } else {
        assert(s.to_multiset() =~= Multiset::<BlobInfo>::empty());
    }
}

/// The items created at `t`, in order.
pub open spec fn created_at_time(s: Seq<BlobInfo>, t: u64) -> Seq<BlobInfo>
    decreases s.len(),
{
    if s.len() == 0 {
        s
    } else {
        let rest = created_at_time(s.drop_last(), t);
        if s.last().created_at == t {
            rest.push(s.last())
        } else {
            rest
        }
    }
}

proof fn lemma_created_at_time_add(a: Seq<BlobInfo>, b: Seq<BlobInfo>, t: u64)
    ensures
        created_at_time(a + b, t) == created_at_time(a, t) + created_at_time(b, t),
    decreases b.len(),
{
    if b.len() == 0 {
        assert(a + b =~= a);
        assert(created_at_time(a, t) + created_at_time(b, t) =~= created_at_time(a, t));
    } else {
        lemma_created_at_time_add(a, b.drop_last(), t);
        assert((a + b).drop_last() =~= a + b.drop_last());
        assert((a + b).last() == b.last());
        if b.last().created_at == t {
            assert(created_at_time(a, t) + created_at_time(b, t) =~= (created_at_time(a, t)
                + created_at_time(b.drop_last(), t)).push(b.last()));
        }
    }
}

proof fn lemma_created_at_time_none(s: Seq<BlobInfo>, t: u64)
    requires
        forall|i: int| 0 <= i < s.len() ==> #[trigger] s[i].created_at != t,
    ensures
        created_at_time(s, t) == Seq::<BlobInfo>::empty(),
    decreases s.len(),
{
    if s.len() > 0 {
        assert forall|i: int| 0 <= i < s.drop_last().len() implies #[trigger] s.drop_last()[i].created_at
            != t by {
            assert(s.drop_last()[i] == s[i]);
        }
        lemma_created_at_time_none(s.drop_last(), t);
    }
}

proof fn lemma_insert_newest_created_at_time(sorted: Seq<BlobInfo>, x: BlobInfo, t: u64)
    requires
        is_newest_first(sorted),
    ensures
        created_at_time(insert_newest(sorted, x), t) == if x.created_at == t {
            created_at_time(sorted, t).push(x)
        } else {
            created_at_time(sorted, t)
        },
{
    lemma_newest_position_bounds(sorted, x.created_at);
    let p = newest_position(sorted, x.created_at);
    let front = sorted.take(p);
    let back = sorted.skip(p);
    assert(sorted =~= front + back);
    assert(insert_newest(sorted, x) =~= front + (seq![x] + back));
    lemma_created_at_time_add(front, back, t);
    lemma_created_at_time_add(front, seq![x] + back, t);
    lemma_created_at_time_add(seq![x], back, t);
    assert(seq![x].drop_last() =~= Seq::<BlobInfo>::empty());
    assert(created_at_time(seq![x].drop_last(), t) == Seq::<BlobInfo>::empty());
    assert(seq![x].last() == x);
    if x.created_at == t {
        assert forall|i: int| 0 <= i < back.len() implies #[trigger] back[i].created_at != t by {
            assert(back[i] == sorted[p + i]);
            if i > 0 {
                assert(sorted[p].created_at >= sorted[p + i].created_at);
            }
        }
        lemma_created_at_time_none(back, t);
        assert(created_at_time(seq![x], t) =~= seq![x]);
        assert(created_at_time(front, t) + (seq![x] + Seq::<BlobInfo>::empty())
            =~= created_at_time(front, t).push(x));
        assert(created_at_time(front, t) + Seq::<BlobInfo>::empty() =~= created_at_time(front, t));
    } else {
        assert(created_at_time(seq![x], t) =~= Seq::<BlobInfo>::empty());
        assert(Seq::<BlobInfo>::empty() + created_at_time(back, t) =~= created_at_time(back, t));
    }
}

/// The newest-first order is stable: the items created at any one time
/// come in the order they came in.
pub proof fn lemma_newest_first_stable(s: Seq<BlobInfo>, t: u64)
    ensures
        created_at_time(newest_first(s), t) == created_at_time(s, t),
    decreases s.len(),
{
    if s.len() > 0 {
        let rest = s.drop_last();
        lemma_newest_first_stable(rest, t);
        lemma_newest_first_sorted_permutation(rest);
        lemma_insert_newest_created_at_time(newest_first(rest), s.last(), t);
    }
}

/// The items in newest-first order, ties kept in their original order.
pub fn sort_newest_first(items: &Vec<BlobInfo>) -> (r: Vec<BlobInfo>)
    ensures
        r@ == newest_first(items@),
{
    let mut out: Vec<BlobInfo> = Vec::new();
    let mut i: usize = 0;
    assert(items@.take(0) =~= Seq::<BlobInfo>::empty());
    while i < items.len()
        invariant
            i <= items@.len(),
            out@ == newest_first(items@.take(i as int)),
        decreases items.len() - i,
    {
        let x = items[i].clone();
        let t = x.created_at;
        let mut j: usize = 0;
        while j < out.len() && out[j].created_at >= t
            invariant
                j <= out@.len(),
                forall|k: int| 0 <= k < j ==> #[trigger] out@[k].created_at >= t,
            decreases out.len() - j,
        {
            j = j + 1;
        }
        proof {
            lemma_newest_position(out@, t, j as int);
            assert(items@.take(i + 1).drop_last() =~= items@.take(i as int));
            assert(items@.take(i + 1).last() == items@[i as int]);
        }
        out.insert(j, x);
        i = i + 1;
    }
    assert(items@.take(items@.len() as int) =~= items@);
    out
}

} // verus!
