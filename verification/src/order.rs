//! The display order of records: most recent first, and among records of one
//! date the order in which they arrived.

use vstd::prelude::*;
use vstd::seq_lib::*;
use crate::record::{record_views, MessageRecord, RecordView};

verus! {

/// Most recent first: no record is older than one that stands before it.
pub open spec fn newest_first(s: Seq<RecordView>) -> bool {
    forall|i: int, j: int| 0 <= i < j < s.len() ==> s[i].internal_date >= s[j].internal_date
}

/// No date is carried by two records of `s`.
pub open spec fn distinct_dates(s: Seq<RecordView>) -> bool {
    forall|i: int, j: int|
        0 <= i < j < s.len() ==> (#[trigger] s[i]).internal_date != (#[trigger] s[j]).internal_date
}

/// The place of a record of the given date in `s`: the index of the first
/// record that is older, or the length of `s` where none is.
pub open spec fn slot_by_date(s: Seq<RecordView>, date: int) -> int
    decreases s.len(),
{
    if s.len() == 0 || s[0].internal_date < date {
        0
    } else {
        1 + slot_by_date(s.skip(1), date)
    }
}

/// `s` with `r` put behind every record that is at least as recent.
pub open spec fn placed_by_date(s: Seq<RecordView>, r: RecordView) -> Seq<RecordView> {
    s.insert(slot_by_date(s, r.internal_date), r)
}

/// The records of `s` most recent first; records of one date keep the order
/// they have in `s`.
pub open spec fn sorted_by_date(s: Seq<RecordView>) -> Seq<RecordView>
    decreases s.len(),
{
    if s.len() == 0 {
        s
    } else {
        placed_by_date(sorted_by_date(s.drop_last()), s.last())
    }
}

/// The test for the records of one date.
pub open spec fn dated(date: int) -> spec_fn(RecordView) -> bool {
    |r: RecordView| r.internal_date == date
}

/// The records of `s` that carry the given date, in the order of `s`.
pub open spec fn of_date(s: Seq<RecordView>, date: int) -> Seq<RecordView> {
    s.filter(dated(date))
}

/// The slot lies within the sequence, everything before it is at least as
/// recent as `date`, and the record at it, if any, is older.
pub proof fn lemma_slot_bounds(s: Seq<RecordView>, date: int)
    ensures
        0 <= slot_by_date(s, date) <= s.len(),
        forall|k: int| 0 <= k < slot_by_date(s, date) ==> s[k].internal_date >= date,
        slot_by_date(s, date) < s.len() ==> s[slot_by_date(s, date)].internal_date < date,
    decreases s.len(),
{
    if s.len() > 0 && s[0].internal_date >= date {
        let rest = s.skip(1);
        lemma_slot_bounds(rest, date);
        assert forall|k: int| 0 <= k < slot_by_date(s, date) implies s[k].internal_date
            >= date by {
            if k > 0 {
                assert(s[k] == rest[k - 1]);
            }
        }
    }
}

/// An index before which nothing is older than `date`, and at which a
/// record is, is the slot.
pub proof fn lemma_slot_is(s: Seq<RecordView>, date: int, j: int)
    requires
        0 <= j <= s.len(),
        forall|k: int| 0 <= k < j ==> s[k].internal_date >= date,
        j < s.len() ==> s[j].internal_date < date,
    ensures
        slot_by_date(s, date) == j,
    decreases s.len(),
{
    if j > 0 {
        lemma_slot_is(s.skip(1), date, j - 1);
    }
}

/// Placing a record into a sequence that is most recent first leaves it so.
pub proof fn lemma_placed_newest_first(s: Seq<RecordView>, r: RecordView)
    requires
        newest_first(s),
    ensures
        newest_first(placed_by_date(s, r)),
        placed_by_date(s, r).len() == s.len() + 1,
        placed_by_date(s, r).to_multiset() == s.to_multiset().insert(r),
{
    let p = slot_by_date(s, r.internal_date);
    lemma_slot_bounds(s, r.internal_date);
    to_multiset_insert(s, p, r);
}

/// Sorting gives a sequence that is most recent first and holds the same
/// records, each as often as before.
pub proof fn lemma_sorted_by_date(s: Seq<RecordView>)
    ensures
        newest_first(sorted_by_date(s)),
        sorted_by_date(s).len() == s.len(),
        sorted_by_date(s).to_multiset() == s.to_multiset(),
    decreases s.len(),
{
    if s.len() > 0 {
        lemma_sorted_by_date(s.drop_last());
        lemma_placed_newest_first(sorted_by_date(s.drop_last()), s.last());
        assert(s.drop_last().push(s.last()) =~= s);
        to_multiset_build(s.drop_last(), s.last());
    }
}

/// Sorting leaves a sequence that is most recent first as it is.
pub proof fn lemma_sorted_stays(s: Seq<RecordView>)
    requires
        newest_first(s),
    ensures
        sorted_by_date(s) == s,
    decreases s.len(),
{
    if s.len() > 0 {
        let front = s.drop_last();
        lemma_sorted_stays(front);
        lemma_slot_is(front, s.last().internal_date, front.len() as int);
    }
}

/// A sequence that holds no record of a date yields none.
proof fn lemma_none_of_date(s: Seq<RecordView>, date: int)
    requires
        forall|k: int| 0 <= k < s.len() ==> s[k].internal_date != date,
    ensures
        of_date(s, date) == Seq::<RecordView>::empty(),
    decreases s.len(),
{
    reveal(Seq::filter);
    if s.len() > 0 {
        let front = s.drop_last();
        lemma_none_of_date(front, date);
    }
}

/// Placing a record puts it behind the records of its own date and leaves
/// the records of every date in the order they had.
pub proof fn lemma_placed_of_date(s: Seq<RecordView>, r: RecordView, date: int)
    requires
        newest_first(s),
    ensures
        of_date(placed_by_date(s, r), date) == if r.internal_date == date {
            of_date(s, date).push(r)
        } else {
            of_date(s, date)
        },
{
    let p = slot_by_date(s, r.internal_date);
    let before = s.take(p);
    let behind = s.skip(p);
    lemma_slot_bounds(s, r.internal_date);
    assert(s =~= before + behind);
    before.lemma_filter_push(r, dated(date));
    if r.internal_date == date {
        lemma_none_of_date(behind, date);
    }
}

/// Sorting keeps the order of arrival among the records of one date: for
/// every date, the records of that date stand in the sorted sequence as
/// they stand in the one that was given.
pub proof fn lemma_sorted_keeps_arrival_order(s: Seq<RecordView>, date: int)
    ensures
        of_date(sorted_by_date(s), date) == of_date(s, date),
    decreases s.len(),
{
    if s.len() > 0 {
        let front = s.drop_last();
        lemma_sorted_keeps_arrival_order(front, date);
        lemma_sorted_by_date(front);
        lemma_placed_of_date(sorted_by_date(front), s.last(), date);
        front.lemma_filter_push(s.last(), dated(date));
        assert(front.push(s.last()) =~= s);
    }
}

/// Where no two records carry the same date, there is one way only to put
/// them most recent first: two such sequences of the same records are the
/// same sequence.
pub proof fn lemma_one_order(s: Seq<RecordView>, t: Seq<RecordView>)
    requires
        newest_first(s),
        newest_first(t),
        distinct_dates(s),
        s.to_multiset() == t.to_multiset(),
    ensures
        s == t,
    decreases s.len(),
{
    to_multiset_len(s);
    to_multiset_len(t);
    if s.len() == 0 {
        assert(s =~= t);
    } else {
        to_multiset_contains(s, t[0]);
        to_multiset_contains(t, t[0]);
        to_multiset_contains(s, s[0]);
        to_multiset_contains(t, s[0]);
        assert(t.contains(t[0]));
        assert(s.contains(s[0]));
        let m = choose|m: int| 0 <= m < s.len() && s[m] == t[0];
        let k = choose|k: int| 0 <= k < t.len() && t[k] == s[0];
        if k > 0 {
            assert(t[0].internal_date >= t[k].internal_date);
        }
        if m > 0 {
            assert(s[0].internal_date >= s[m].internal_date);
            assert(s[0].internal_date != s[m].internal_date);
        }
        assert(s[0] == t[0]);
        let s1 = s.skip(1);
        let t1 = t.skip(1);
        assert(s.remove(0) =~= s1);
        assert(t.remove(0) =~= t1);
        to_multiset_remove(s, 0);
        to_multiset_remove(t, 0);
        assert forall|i: int, j: int| 0 <= i < j < s1.len() implies s1[i].internal_date
            >= s1[j].internal_date && (#[trigger] s1[i]).internal_date != (
        #[trigger] s1[j]).internal_date by {
            assert(s1[i] == s[i + 1] && s1[j] == s[j + 1]);
        }
        assert forall|i: int, j: int| 0 <= i < j < t1.len() implies t1[i].internal_date
            >= t1[j].internal_date by {
            assert(t1[i] == t[i + 1] && t1[j] == t[j + 1]);
        }
        lemma_one_order(s1, t1);
        assert(s =~= seq![s[0]] + s1);
        assert(t =~= seq![t[0]] + t1);
    }
}

/// Where no two records carry the same date, the order in which they are
/// given makes no difference to the sorted sequence.
pub proof fn lemma_sorted_whatever_the_order(s: Seq<RecordView>, t: Seq<RecordView>)
    requires
        distinct_dates(s),
        s.to_multiset() == t.to_multiset(),
    ensures
        sorted_by_date(s) == sorted_by_date(t),
{
    let a = sorted_by_date(s);
    lemma_sorted_by_date(s);
    lemma_sorted_by_date(t);
    assert forall|i: int, j: int| 0 <= i < j < a.len() implies (#[trigger] a[i]).internal_date != (
    #[trigger] a[j]).internal_date by {
        lemma_permuted_dates(s, a, i, j);
    }
    lemma_one_order(a, sorted_by_date(t));
}

/// Two records at different places of a sequence carry different dates if
/// the sequence holds the records of one in which no date occurs twice.
proof fn lemma_permuted_dates(s: Seq<RecordView>, a: Seq<RecordView>, i: int, j: int)
    requires
        distinct_dates(s),
        s.to_multiset() == a.to_multiset(),
        0 <= i < j < a.len(),
    ensures
        a[i].internal_date != a[j].internal_date,
{
    if a[i].internal_date == a[j].internal_date {
        to_multiset_contains(s, a[i]);
        to_multiset_contains(a, a[i]);
        to_multiset_contains(s, a[j]);
        to_multiset_contains(a, a[j]);
        assert(a.contains(a[i]) && a.contains(a[j]));
        let p = choose|p: int| 0 <= p < s.len() && s[p] == a[i];
        let q = choose|q: int| 0 <= q < s.len() && s[q] == a[j];
        if p < q {
            assert(s[p].internal_date != s[q].internal_date);
        } else if q < p {
            assert(s[q].internal_date != s[p].internal_date);
        } else {
            // One record of `s` stands at two places of `a`: it occurs
            // twice in `a`, and so in `s`, at two places with one date.
            assert(a[i] == a[j]);
            let rest = a.remove(j);
            to_multiset_remove(a, j);
            assert(rest[i] == a[i]);
            assert(rest.contains(a[i]));
            to_multiset_contains(rest, a[i]);
            assert(a.to_multiset().count(a[i]) >= 2);
            let srest = s.remove(p);
            to_multiset_remove(s, p);
            to_multiset_contains(srest, s[p]);
            assert(srest.contains(s[p]));
            let r = choose|r: int| 0 <= r < srest.len() && srest[r] == s[p];
            let back = if r < p { r } else { r + 1 };
            assert(s[back] == s[p]);
            if back < p {
                assert(s[back].internal_date != s[p].internal_date);
            } else {
                assert(s[p].internal_date != s[back].internal_date);
            }
        }
    }
}

/// The place at which a record of the given date goes into `sorted`.
fn slot_for(sorted: &Vec<MessageRecord>, date: i64) -> (j: usize)
    ensures
        j == slot_by_date(record_views(sorted@), date as int),
        j <= sorted.len(),
{
    let mut j: usize = 0;
    while j < sorted.len() && sorted[j].internal_date >= date
        invariant
            j <= sorted.len(),
            forall|k: int| 0 <= k < j ==> sorted[k].internal_date >= date,
        decreases sorted.len() - j,
    {
        j += 1;
    }
    proof {
        lemma_slot_is(record_views(sorted@), date as int, j as int);
    }
    j
}

/// Orders records most recent first. Records of one date stay in the order
/// in which they were given.
pub fn sort_newest_first(records: Vec<MessageRecord>) -> (sorted: Vec<MessageRecord>)
    ensures
        record_views(sorted@) == sorted_by_date(record_views(records@)),
        newest_first(record_views(sorted@)),
        sorted.len() == records.len(),
        record_views(sorted@).to_multiset() == record_views(records@).to_multiset(),
{
    let ghost all = records@;
    let ghost mut done: int = 0;
    let mut pending = records;
    let mut sorted: Vec<MessageRecord> = Vec::new();
    while pending.len() > 0
        invariant
            0 <= done <= all.len(),
            pending@ == all.skip(done),
            record_views(sorted@) == sorted_by_date(record_views(all.take(done))),
        decreases pending.len(),
    {
        let r = pending.remove(0);
        let j = slot_for(&sorted, r.internal_date);
        proof {
            assert(record_views(all.take(done + 1)).drop_last() =~= record_views(all.take(done)));
        }
        sorted.insert(j, r);
        proof {
            done = done + 1;
        }
    }
    proof {
        assert(all.take(done) =~= all);
        lemma_sorted_by_date(record_views(all));
    }
    sorted
}

} // verus!
