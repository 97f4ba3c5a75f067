//! What merging a batch of fetched records into an index means, and the laws
//! that follow from it.

use vstd::prelude::*;
use crate::order::{lemma_sorted_by_date, lemma_sorted_stays, newest_first, placed_by_date,
    slot_by_date, lemma_slot_bounds, sorted_by_date};
use crate::record::RecordView;
use vstd::seq_lib::to_multiset_contains;

verus! {

/// Some record of `s` carries the identifier `id`.
pub open spec fn has_id(s: Seq<RecordView>, id: Seq<char>) -> bool {
    exists|i: int| 0 <= i < s.len() && (#[trigger] s[i]).id == id
}

/// No identifier is carried by two records of `s`.
pub open spec fn unique_ids(s: Seq<RecordView>) -> bool {
    forall|i: int, j: int| 0 <= i < j < s.len() ==> (#[trigger] s[i]).id != (#[trigger] s[j]).id
}

/// What an index must be: most recent first, and one record per identifier.
pub open spec fn well_formed(s: Seq<RecordView>) -> bool {
    newest_first(s) && unique_ids(s)
}

/// The test that picks the records whose identifier `batch` does not carry.
pub open spec fn absent_from(batch: Seq<RecordView>) -> spec_fn(RecordView) -> bool {
    |r: RecordView| !has_id(batch, r.id)
}

/// The records of `existing` that `incoming` leaves alone, in their order.
pub open spec fn kept(existing: Seq<RecordView>, incoming: Seq<RecordView>) -> Seq<RecordView> {
    existing.filter(absent_from(incoming))
}

/// Of each identifier in `s` the record that comes last, in the order of `s`.
pub open spec fn last_of_each(s: Seq<RecordView>) -> Seq<RecordView>
    decreases s.len(),
{
    if s.len() == 0 {
        s
    } else if has_id(s.skip(1), s[0].id) {
        last_of_each(s.skip(1))
    } else {
        seq![s[0]] + last_of_each(s.skip(1))
    }
}

/// `incoming` laid over `existing`: the existing records that no incoming
/// record replaces, followed by the incoming records, of each identifier the
/// last one.
pub open spec fn overlaid(existing: Seq<RecordView>, incoming: Seq<RecordView>) -> Seq<
    RecordView,
> {
    kept(existing, incoming) + last_of_each(incoming)
}

/// The index that results from merging `incoming` into `existing`.
pub open spec fn merged(existing: Seq<RecordView>, incoming: Seq<RecordView>) -> Seq<RecordView> {
    sorted_by_date(overlaid(existing, incoming))
}

/// `last_of_each` keeps every identifier and no other, carries each once,
/// and holds only records of `s`.
pub proof fn lemma_last_of_each(s: Seq<RecordView>)
    ensures
        unique_ids(last_of_each(s)),
        forall|id: Seq<char>| has_id(last_of_each(s), id) <==> has_id(s, id),
        forall|k: int| 0 <= k < last_of_each(s).len() ==> s.contains(#[trigger] last_of_each(s)[k]),
    decreases s.len(),
{
    if s.len() > 0 {
        let rest = s.skip(1);
        let tail = last_of_each(rest);
        let out = last_of_each(s);
        lemma_last_of_each(rest);
        assert forall|id: Seq<char>| has_id(out, id) <==> has_id(s, id) by {
            if has_id(s, id) {
                let i = choose|i: int| 0 <= i < s.len() && (#[trigger] s[i]).id == id;
                if i > 0 {
                    assert(rest[i - 1] == s[i]);
                    assert(has_id(rest, id));
                } else if !has_id(rest, s[0].id) {
                    assert(out[0] == s[0]);
                }
                if has_id(rest, id) {
                    assert(has_id(tail, id));
                    let k = choose|k: int| 0 <= k < tail.len() && (#[trigger] tail[k]).id == id;
                    if !has_id(rest, s[0].id) {
                        assert(out[k + 1] == tail[k]);
                    }
                }
            }
            if has_id(out, id) {
                let k = choose|k: int| 0 <= k < out.len() && (#[trigger] out[k]).id == id;
                if has_id(rest, s[0].id) {
                    assert(has_id(tail, id));
                } else if k == 0 {
                    assert(out[0] == s[0]);
                } else {
                    assert(out[k] == tail[k - 1]);
                    assert(has_id(tail, id));
                }
                if has_id(rest, id) {
                    let i = choose|i: int| 0 <= i < rest.len() && (#[trigger] rest[i]).id == id;
                    assert(s[i + 1] == rest[i]);
                }
            }
        }
        assert forall|k: int| 0 <= k < out.len() implies s.contains(#[trigger] out[k]) by {
            if !has_id(rest, s[0].id) && k == 0 {
                assert(out[0] == s[0]);
            } else {
                let t = if has_id(rest, s[0].id) { k } else { k - 1 };
                assert(out[k] == tail[t]);
                assert(rest.contains(tail[t]));
                let i = choose|i: int| 0 <= i < rest.len() && rest[i] == tail[t];
                assert(s[i + 1] == rest[i]);
            }
        }
        if !has_id(rest, s[0].id) {
            assert forall|i: int, j: int| 0 <= i < j < out.len() implies (#[trigger] out[i]).id != (
            #[trigger] out[j]).id by {
                assert(out[j] == tail[j - 1]);
                if i == 0 {
                    assert(out[0] == s[0]);
                    assert(has_id(tail, tail[j - 1].id));
                } else {
                    assert(out[i] == tail[i - 1]);
                }
            }
        }
    }
}

/// Where every identifier occurs once, `last_of_each` changes nothing.
pub proof fn lemma_last_of_each_unique(s: Seq<RecordView>)
    requires
        unique_ids(s),
    ensures
        last_of_each(s) == s,
    decreases s.len(),
{
    if s.len() > 0 {
        lemma_last_of_each_unique(s.skip(1));
    }
}

/// A filter keeps records of `s`, in the order of `s`: whatever it yields
/// carries each identifier at most once if `s` does, and only identifiers
/// of `s`.
pub proof fn lemma_filter_ids(s: Seq<RecordView>, pred: spec_fn(RecordView) -> bool)
    ensures
        unique_ids(s) ==> unique_ids(s.filter(pred)),
        forall|k: int| 0 <= k < s.filter(pred).len() ==> pred(#[trigger] s.filter(pred)[k]) && s.contains(s.filter(pred)[k]),
        forall|i: int| 0 <= i < s.len() && pred(s[i]) ==> s.filter(pred).contains(#[trigger] s[i]),
    decreases s.len(),
{
    reveal(Seq::filter);
    if s.len() > 0 {
        let front = s.drop_last();
        let f = front.filter(pred);
        let out = s.filter(pred);
        lemma_filter_ids(front, pred);
        assert forall|k: int| 0 <= k < out.len() implies pred(#[trigger] out[k]) && s.contains(
            out[k],
        ) by {
            if k < f.len() {
                assert(out[k] == f[k]);
                assert(front.contains(f[k]));
                let i = choose|i: int| 0 <= i < front.len() && front[i] == f[k];
                assert(s[i] == front[i]);
            } else {
                assert(out[k] == s.last());
                assert(s[s.len() - 1] == s.last());
            }
        }
        assert forall|i: int| 0 <= i < s.len() && pred(s[i]) implies out.contains(
            #[trigger] s[i],
        ) by {
            if i < front.len() {
                assert(front[i] == s[i]);
                assert(f.contains(front[i]));
                let k = choose|k: int| 0 <= k < f.len() && f[k] == front[i];
                assert(out[k] == f[k]);
            } else {
                assert(out[out.len() - 1] == s[i]);
            }
        }
        if unique_ids(s) {
            assert forall|i: int, j: int| 0 <= i < j < front.len() implies (#[trigger] front[i]).id
                != (#[trigger] front[j]).id by {
                assert(front[i] == s[i] && front[j] == s[j]);
            }
            assert forall|i: int, j: int| 0 <= i < j < out.len() implies (#[trigger] out[i]).id != (
            #[trigger] out[j]).id by {
                assert(out[i] == f[i]);
                if j < f.len() {
                    assert(out[j] == f[j]);
                } else {
                    assert(out[j] == s.last());
                    assert(front.contains(f[i]));
                    let a = choose|a: int| 0 <= a < front.len() && front[a] == f[i];
                    assert(s[a] == front[a]);
                    assert(s[a].id != s[s.len() - 1].id);
                }
            }
        }
    }
}

/// The identifiers of an overlay are those of the two sequences, and each
/// occurs once if it occurs once in `existing`.
pub proof fn lemma_overlaid(existing: Seq<RecordView>, incoming: Seq<RecordView>)
    ensures
        unique_ids(existing) ==> unique_ids(overlaid(existing, incoming)),
        forall|id: Seq<char>|
            has_id(overlaid(existing, incoming), id) <==> has_id(existing, id) || has_id(
                incoming,
                id,
            ),
{
    let k = kept(existing, incoming);
    let l = last_of_each(incoming);
    let o = overlaid(existing, incoming);
    lemma_filter_ids(existing, absent_from(incoming));
    lemma_last_of_each(incoming);
    assert forall|id: Seq<char>| has_id(o, id) <==> has_id(existing, id) || has_id(
        incoming,
        id,
    ) by {
        if has_id(o, id) {
            let i = choose|i: int| 0 <= i < o.len() && (#[trigger] o[i]).id == id;
            if i < k.len() {
                assert(o[i] == k[i]);
                assert(existing.contains(k[i]));
                let a = choose|a: int| 0 <= a < existing.len() && existing[a] == k[i];
                assert(existing[a].id == id);
            } else {
                assert(o[i] == l[i - k.len()]);
                assert(has_id(l, id));
            }
        }
        if has_id(incoming, id) {
            assert(has_id(l, id));
            let b = choose|b: int| 0 <= b < l.len() && (#[trigger] l[b]).id == id;
            assert(o[k.len() + b] == l[b]);
        } else if has_id(existing, id) {
            let a = choose|a: int| 0 <= a < existing.len() && (#[trigger] existing[a]).id == id;
            assert(absent_from(incoming)(existing[a]));
            assert(k.contains(existing[a]));
            let b = choose|b: int| 0 <= b < k.len() && k[b] == existing[a];
            assert(o[b] == k[b]);
        }
    }
    if unique_ids(existing) {
        assert forall|i: int, j: int| 0 <= i < j < o.len() implies (#[trigger] o[i]).id != (
        #[trigger] o[j]).id by {
            if j < k.len() {
                assert(o[i] == k[i] && o[j] == k[j]);
            } else if i >= k.len() {
                assert(o[i] == l[i - k.len()] && o[j] == l[j - k.len()]);
            } else {
                assert(o[i] == k[i] && o[j] == l[j - k.len()]);
                assert(absent_from(incoming)(k[i]));
                assert(has_id(l, l[j - k.len()].id));
            }
        }
    }
}

/// Placing a record keeps the records that were there and adds the one.
pub proof fn lemma_placed_ids(s: Seq<RecordView>, r: RecordView)
    ensures
        forall|id: Seq<char>| has_id(placed_by_date(s, r), id) <==> has_id(s, id) || r.id == id,
        unique_ids(s) && !has_id(s, r.id) ==> unique_ids(placed_by_date(s, r)),
{
    let p = slot_by_date(s, r.internal_date);
    let t = placed_by_date(s, r);
    lemma_slot_bounds(s, r.internal_date);
    s.insert_ensures(p, r);
    assert forall|id: Seq<char>| has_id(t, id) <==> has_id(s, id) || r.id == id by {
        if has_id(t, id) {
            let i = choose|i: int| 0 <= i < t.len() && (#[trigger] t[i]).id == id;
            if i < p {
                assert(t[i] == s[i]);
            } else if i > p {
                assert(t[i] == s[i - 1]);
            }
        }
        if has_id(s, id) {
            let i = choose|i: int| 0 <= i < s.len() && (#[trigger] s[i]).id == id;
            if i < p {
                assert(t[i] == s[i]);
            } else {
                assert(t[i + 1] == s[i]);
            }
        }
        if r.id == id {
            assert(t[p] == r);
        }
    }
    if unique_ids(s) && !has_id(s, r.id) {
        assert forall|i: int, j: int| 0 <= i < j < t.len() implies (#[trigger] t[i]).id != (
        #[trigger] t[j]).id by {
            let a = if i < p { i } else { i - 1 };
            let b = if j < p { j } else { j - 1 };
            if i != p {
                assert(t[i] == s[a]);
            }
            if j != p {
                assert(t[j] == s[b]);
            }
        }
    }
}

/// Sorting keeps the identifiers, and keeps them apart.
pub proof fn lemma_sorted_ids(s: Seq<RecordView>)
    ensures
        forall|id: Seq<char>| has_id(sorted_by_date(s), id) <==> has_id(s, id),
        unique_ids(s) ==> unique_ids(sorted_by_date(s)),
    decreases s.len(),
{
    if s.len() > 0 {
        let front = s.drop_last();
        let sf = sorted_by_date(front);
        lemma_sorted_ids(front);
        lemma_placed_ids(sf, s.last());
        assert forall|id: Seq<char>| has_id(front, id) || s.last().id == id <==> has_id(
            s,
            id,
        ) by {
            if has_id(front, id) {
                let i = choose|i: int| 0 <= i < front.len() && (#[trigger] front[i]).id == id;
                assert(s[i] == front[i]);
            }
            if s.last().id == id {
                assert(s[s.len() - 1].id == id);
            }
            if has_id(s, id) {
                let i = choose|i: int| 0 <= i < s.len() && (#[trigger] s[i]).id == id;
                if i < front.len() {
                    assert(front[i] == s[i]);
                }
            }
        }
        if unique_ids(s) {
            assert forall|i: int, j: int| 0 <= i < j < front.len() implies (#[trigger] front[i]).id
                != (#[trigger] front[j]).id by {
                assert(front[i] == s[i] && front[j] == s[j]);
            }
            if has_id(front, s.last().id) {
                let i = choose|i: int|
                    0 <= i < front.len() && (#[trigger] front[i]).id == s.last().id;
                assert(s[i] == front[i]);
                assert(s[i].id != s[s.len() - 1].id);
            }
        }
    }
}

/// Merging into an index gives an index: most recent first, one record per
/// identifier, carrying the identifiers of both and no other.
pub proof fn lemma_merged_well_formed(existing: Seq<RecordView>, incoming: Seq<RecordView>)
    requires
        unique_ids(existing),
    ensures
        well_formed(merged(existing, incoming)),
        forall|id: Seq<char>|
            has_id(merged(existing, incoming), id) <==> has_id(existing, id) || has_id(
                incoming,
                id,
            ),
{
    lemma_overlaid(existing, incoming);
    lemma_sorted_by_date(overlaid(existing, incoming));
    lemma_sorted_ids(overlaid(existing, incoming));
}

/// The record that comes last among those of its identifier is handed on by
/// `last_of_each`.
pub proof fn lemma_last_is_kept(s: Seq<RecordView>, i: int)
    requires
        0 <= i < s.len(),
        forall|j: int| i < j < s.len() ==> (#[trigger] s[j]).id != s[i].id,
    ensures
        last_of_each(s).contains(s[i]),
    decreases s.len(),
{
    let rest = s.skip(1);
    let tail = last_of_each(rest);
    let out = last_of_each(s);
    if i == 0 {
        if has_id(rest, s[0].id) {
            let j = choose|j: int| 0 <= j < rest.len() && (#[trigger] rest[j]).id == s[0].id;
            assert(rest[j] == s[j + 1]);
            assert(s[j + 1].id != s[0].id);
        }
        assert(out[0] == s[0]);
    } else {
        assert(rest[i - 1] == s[i]);
        assert forall|j: int| i - 1 < j < rest.len() implies (#[trigger] rest[j]).id != rest[i
            - 1].id by {
            assert(rest[j] == s[j + 1]);
        }
        lemma_last_is_kept(rest, i - 1);
        let k = choose|k: int| 0 <= k < tail.len() && tail[k] == rest[i - 1];
        if !has_id(rest, s[0].id) {
            assert(out[k + 1] == tail[k]);
        }
    }
}

/// Merging a second time what a merge gave changes nothing:
/// `merged(e, merged(e, b)) == merged(e, b)` for every index `e` and every
/// batch `b`.
pub proof fn lemma_merge_idempotent(existing: Seq<RecordView>, incoming: Seq<RecordView>)
    requires
        well_formed(existing),
    ensures
        merged(existing, merged(existing, incoming)) == merged(existing, incoming),
{
    let m = merged(existing, incoming);
    lemma_merged_well_formed(existing, incoming);
    let k = kept(existing, m);
    lemma_filter_ids(existing, absent_from(m));
    if k.len() > 0 {
        let a = choose|a: int| 0 <= a < existing.len() && existing[a] == k[0];
        assert(has_id(existing, existing[a].id));
    }
    lemma_last_of_each_unique(m);
    lemma_sorted_stays(m);
}

/// Merging an index into the empty index gives that index.
pub proof fn lemma_merge_into_empty(incoming: Seq<RecordView>)
    requires
        well_formed(incoming),
    ensures
        merged(Seq::empty(), incoming) == incoming,
{
    let nothing = Seq::<RecordView>::empty();
    lemma_filter_ids(nothing, absent_from(incoming));
    assert(kept(nothing, incoming) =~= nothing);
    lemma_last_of_each_unique(incoming);
    assert(nothing + incoming =~= incoming);
    lemma_sorted_stays(incoming);
}

/// An incoming record wins over what was there: the record that comes last
/// in the batch among those of its identifier is in the merged index, and
/// no other record of the merged index carries that identifier.
pub proof fn lemma_incoming_wins(existing: Seq<RecordView>, incoming: Seq<RecordView>, i: int)
    requires
        unique_ids(existing),
        0 <= i < incoming.len(),
        forall|j: int| i < j < incoming.len() ==> (#[trigger] incoming[j]).id != incoming[i].id,
    ensures
        merged(existing, incoming).contains(incoming[i]),
        unique_ids(merged(existing, incoming)),
        forall|k: int|
            0 <= k < merged(existing, incoming).len() && (#[trigger] merged(
                existing,
                incoming,
            )[k]).id == incoming[i].id ==> merged(existing, incoming)[k] == incoming[i],
{
    let l = last_of_each(incoming);
    let o = overlaid(existing, incoming);
    let m = merged(existing, incoming);
    lemma_last_is_kept(incoming, i);
    let b = choose|b: int| 0 <= b < l.len() && l[b] == incoming[i];
    assert(o[kept(existing, incoming).len() + b] == l[b]);
    lemma_sorted_by_date(o);
    lemma_same_records(o, m, incoming[i]);
    lemma_merged_well_formed(existing, incoming);
}

/// A record that no incoming record replaces stays in the merged index.
pub proof fn lemma_untouched_stays(existing: Seq<RecordView>, incoming: Seq<RecordView>, i: int)
    requires
        0 <= i < existing.len(),
        !has_id(incoming, existing[i].id),
    ensures
        merged(existing, incoming).contains(existing[i]),
{
    let k = kept(existing, incoming);
    let o = overlaid(existing, incoming);
    assert(k.contains(existing[i]));
    let b = choose|b: int| 0 <= b < k.len() && k[b] == existing[i];
    assert(o[b] == k[b]);
    lemma_sorted_by_date(o);
    lemma_same_records(o, merged(existing, incoming), existing[i]);
}

/// Two sequences that hold the same records equally often hold the same
/// records.
pub proof fn lemma_same_records(s: Seq<RecordView>, t: Seq<RecordView>, r: RecordView)
    requires
        s.to_multiset() == t.to_multiset(),
    ensures
        s.contains(r) <==> t.contains(r),
{
    to_multiset_contains(s, r);
    to_multiset_contains(t, r);
}

} // verus!
