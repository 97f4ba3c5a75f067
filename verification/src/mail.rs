//! What is asked of the mail service and what comes back: which messages to
//! fetch in one batch, and what the outcomes of the fetches, in whatever
//! order they completed, amount to.

use vstd::prelude::*;
use vstd::seq_lib::{to_multiset_build, to_multiset_contains, to_multiset_len};
use crate::merge::{has_id, lemma_same_records, lemma_sorted_ids, unique_ids};
use crate::order::{distinct_dates, lemma_sorted_by_date, lemma_sorted_whatever_the_order,
    newest_first, sort_newest_first, sorted_by_date};
use crate::record::{id_views, record_views, summary_views, MessageId, MessageRecord,
    MessageSummary, RecordView, SummaryView};

pub mod open_browser_delegate;

verus! {

/// How the fetch of one message ended.
#[derive(Debug, PartialEq, Eq)]
pub enum FetchOutcome {
    /// The message came back.
    Fetched(MessageRecord),
    /// The fetch of the message with this identifier failed.
    Failed(MessageId),
}

/// What a [`FetchOutcome`] stands for in contracts.
pub enum OutcomeView {
    Fetched(RecordView),
    Failed(Seq<char>),
}

impl View for FetchOutcome {
    type V = OutcomeView;

    open spec fn view(&self) -> OutcomeView {
        match self {
            FetchOutcome::Fetched(r) => OutcomeView::Fetched(r@),
            FetchOutcome::Failed(id) => OutcomeView::Failed(id@),
        }
    }
}

/// The views of a sequence of outcomes, in order.
pub open spec fn outcome_views(outcomes: Seq<FetchOutcome>) -> Seq<OutcomeView> {
    outcomes.map_values(|o: FetchOutcome| o@)
}

/// What a completed batch of fetches gave: the fetched records, most recent
/// first, and the identifiers whose fetch failed, in the order in which the
/// failures were seen.
#[derive(Debug, PartialEq, Eq)]
pub struct Batch {
    pub records: Vec<MessageRecord>,
    pub failed: Vec<MessageId>,
}

/// The identifier that an outcome is about.
pub open spec fn outcome_id(o: OutcomeView) -> Seq<char> {
    match o {
        OutcomeView::Fetched(r) => r.id,
        OutcomeView::Failed(id) => id,
    }
}

/// The identifiers that the outcomes are about, in order.
pub open spec fn outcome_ids(outcomes: Seq<OutcomeView>) -> Seq<Seq<char>> {
    outcomes.map_values(|o: OutcomeView| outcome_id(o))
}

/// The records of the fetches that succeeded, in the order of the outcomes.
pub open spec fn fetched(outcomes: Seq<OutcomeView>) -> Seq<RecordView>
    decreases outcomes.len(),
{
    if outcomes.len() == 0 {
        Seq::empty()
    } else {
        match outcomes.last() {
            OutcomeView::Fetched(r) => fetched(outcomes.drop_last()).push(r),
            OutcomeView::Failed(_) => fetched(outcomes.drop_last()),
        }
    }
}

/// The identifiers of the fetches that failed, in the order of the outcomes.
pub open spec fn failures(outcomes: Seq<OutcomeView>) -> Seq<Seq<char>>
    decreases outcomes.len(),
{
    if outcomes.len() == 0 {
        Seq::empty()
    } else {
        match outcomes.last() {
            OutcomeView::Fetched(_) => failures(outcomes.drop_last()),
            OutcomeView::Failed(id) => failures(outcomes.drop_last()).push(id),
        }
    }
}

/// The batch of records that the outcomes amount to: what was fetched, most
/// recent first, whatever the order of completion among different dates.
pub open spec fn gathered(outcomes: Seq<OutcomeView>) -> Seq<RecordView> {
    sorted_by_date(fetched(outcomes))
}

/// The identifiers to fetch: those of the first `limit` entries of the
/// listing, or of all of them where there are fewer.
pub open spec fn planned(listing: Seq<SummaryView>, limit: int) -> Seq<Seq<char>> {
    listing.take(if limit < listing.len() { limit } else { listing.len() as int }).map_values(
        |s: SummaryView| s.id,
    )
}

/// The outcomes answer the identifiers that were asked for: each identifier
/// has its outcome, in some order.
pub open spec fn answers(ids: Seq<Seq<char>>, outcomes: Seq<OutcomeView>) -> bool {
    outcome_ids(outcomes).to_multiset() == ids.to_multiset()
}

/// Some outcome is about the identifier `id`.
pub open spec fn has_outcome(ended: Seq<OutcomeView>, id: Seq<char>) -> bool {
    exists|i: int| 0 <= i < ended.len() && outcome_id(#[trigger] ended[i]) == id
}

/// The test that picks the identifiers that no outcome is about.
pub open spec fn lost_in(ended: Seq<OutcomeView>) -> spec_fn(Seq<char>) -> bool {
    |id: Seq<char>| !has_outcome(ended, id)
}

/// The identifiers that were asked for and that no outcome is about, in
/// the order in which they were asked for.
pub open spec fn unanswered(asked: Seq<Seq<char>>, ended: Seq<OutcomeView>) -> Seq<Seq<char>> {
    asked.filter(lost_in(ended))
}

/// A failure for each of the identifiers.
pub open spec fn as_failures(ids: Seq<Seq<char>>) -> Seq<OutcomeView> {
    ids.map_values(|id: Seq<char>| OutcomeView::Failed(id))
}

/// The outcomes of a batch with every fetch accounted for: the outcomes
/// that came in, followed by a failure for each identifier that was asked
/// for and that none of them is about.
pub open spec fn accounted(asked: Seq<Seq<char>>, ended: Seq<OutcomeView>) -> Seq<OutcomeView> {
    ended + as_failures(unanswered(asked, ended))
}

/// Every outcome is a success or a failure, and a record is among the
/// fetched ones exactly if some outcome carries it.
pub proof fn lemma_fetched(outcomes: Seq<OutcomeView>)
    ensures
        fetched(outcomes).len() + failures(outcomes).len() == outcomes.len(),
        forall|r: RecordView|
            fetched(outcomes).contains(r) <==> outcomes.contains(OutcomeView::Fetched(r)),
        forall|id: Seq<char>|
            failures(outcomes).contains(id) <==> outcomes.contains(OutcomeView::Failed(id)),
    decreases outcomes.len(),
{
    if outcomes.len() > 0 {
        let front = outcomes.drop_last();
        let last = outcomes.last();
        lemma_fetched(front);
        assert(front.push(last) =~= outcomes);
        assert forall|r: RecordView|
            fetched(outcomes).contains(r) <==> outcomes.contains(OutcomeView::Fetched(r)) by {
            let want = OutcomeView::Fetched(r);
            if fetched(outcomes).contains(r) {
                let k = choose|k: int| 0 <= k < fetched(outcomes).len() && fetched(outcomes)[k] == r;
                if k < fetched(front).len() {
                    assert(fetched(front)[k] == r);
                    assert(fetched(front).contains(r));
                    let i = choose|i: int| 0 <= i < front.len() && front[i] == want;
                    assert(outcomes[i] == want);
                } else {
                    assert(outcomes[outcomes.len() - 1] == want);
                }
            }
            if outcomes.contains(want) {
                let i = choose|i: int| 0 <= i < outcomes.len() && outcomes[i] == want;
                if i < front.len() {
                    assert(front[i] == want);
                    assert(fetched(front).contains(r));
                    let k = choose|k: int| 0 <= k < fetched(front).len() && fetched(front)[k] == r;
                    assert(fetched(outcomes)[k] == r);
                } else {
                    assert(fetched(outcomes)[fetched(outcomes).len() - 1] == r);
                }
            }
        }
        assert forall|id: Seq<char>|
            failures(outcomes).contains(id) <==> outcomes.contains(OutcomeView::Failed(id)) by {
            let want = OutcomeView::Failed(id);
            if failures(outcomes).contains(id) {
                let k = choose|k: int|
                    0 <= k < failures(outcomes).len() && failures(outcomes)[k] == id;
                if k < failures(front).len() {
                    assert(failures(front)[k] == id);
                    assert(failures(front).contains(id));
                    let i = choose|i: int| 0 <= i < front.len() && front[i] == want;
                    assert(outcomes[i] == want);
                } else {
                    assert(outcomes[outcomes.len() - 1] == want);
                }
            }
            if outcomes.contains(want) {
                let i = choose|i: int| 0 <= i < outcomes.len() && outcomes[i] == want;
                if i < front.len() {
                    assert(front[i] == want);
                    assert(failures(front).contains(id));
                    let k = choose|k: int|
                        0 <= k < failures(front).len() && failures(front)[k] == id;
                    assert(failures(outcomes)[k] == id);
                } else {
                    assert(failures(outcomes)[failures(outcomes).len() - 1] == id);
                }
            }
        }
    }
}

/// Whatever the outcomes, the gathered batch is most recent first, holds one
/// record for each fetch that succeeded and nothing else.
pub proof fn lemma_gathered(outcomes: Seq<OutcomeView>)
    ensures
        newest_first(gathered(outcomes)),
        gathered(outcomes).len() + failures(outcomes).len() == outcomes.len(),
        gathered(outcomes).to_multiset() == fetched(outcomes).to_multiset(),
        forall|r: RecordView|
            gathered(outcomes).contains(r) <==> outcomes.contains(OutcomeView::Fetched(r)),
{
    lemma_fetched(outcomes);
    lemma_sorted_by_date(fetched(outcomes));
    assert forall|r: RecordView|
        gathered(outcomes).contains(r) <==> outcomes.contains(OutcomeView::Fetched(r)) by {
        lemma_same_records(fetched(outcomes), gathered(outcomes), r);
    }
}

/// A record is among the fetched ones as often as outcomes carry it.
pub proof fn lemma_fetched_count(outcomes: Seq<OutcomeView>, r: RecordView)
    ensures
        fetched(outcomes).to_multiset().count(r) == outcomes.to_multiset().count(
            OutcomeView::Fetched(r),
        ),
    decreases outcomes.len(),
{
    if outcomes.len() == 0 {
        assert(fetched(outcomes).to_multiset().count(r) == 0) by {
            to_multiset_contains(fetched(outcomes), r);
        }
        assert(outcomes.to_multiset().count(OutcomeView::Fetched(r)) == 0) by {
            to_multiset_contains(outcomes, OutcomeView::Fetched(r));
        }
    } else {
        let front = outcomes.drop_last();
        let last = outcomes.last();
        lemma_fetched_count(front, r);
        assert(front.push(last) =~= outcomes);
        to_multiset_build(front, last);
        match last {
            OutcomeView::Fetched(x) => {
                to_multiset_build(fetched(front), x);
            },
            OutcomeView::Failed(_) => {},
        }
    }
}

/// The order in which the fetches end makes no difference to the batch of
/// records, where no two of the fetched records carry the same date: the
/// same outcomes in another order give the same batch.
pub proof fn lemma_completion_order(one: Seq<OutcomeView>, other: Seq<OutcomeView>)
    requires
        one.to_multiset() == other.to_multiset(),
        distinct_dates(fetched(one)),
    ensures
        gathered(one) == gathered(other),
{
    assert forall|r: RecordView|
        fetched(one).to_multiset().count(r) == fetched(other).to_multiset().count(r) by {
        lemma_fetched_count(one, r);
        lemma_fetched_count(other, r);
    }
    assert(fetched(one).to_multiset() =~= fetched(other).to_multiset());
    lemma_sorted_whatever_the_order(fetched(one), fetched(other));
}

/// A filter leaves apart what was apart.
proof fn lemma_filter_distinct<A>(s: Seq<A>, pred: spec_fn(A) -> bool)
    requires
        s.no_duplicates(),
    ensures
        s.filter(pred).no_duplicates(),
    decreases s.len(),
{
    reveal(Seq::filter);
    if s.len() > 0 {
        let front = s.drop_last();
        lemma_filter_distinct(front, pred);
        let f = front.filter(pred);
        if pred(s.last()) {
            assert forall|i: int, j: int| 0 <= i < j < f.len() + 1 implies f.push(s.last())[i]
                != f.push(s.last())[j] by {
                if j == f.len() {
                    front.lemma_filter_contains_rev(pred, f[i]);
                }
            }
        }
    }
}

/// Accounting for every fetch gives outcomes that answer what was asked
/// for, where the identifiers that were asked for differ from one another
/// and the outcomes that came in are about some of them, each about another.
pub proof fn lemma_accounted_answers(asked: Seq<Seq<char>>, ended: Seq<OutcomeView>)
    requires
        asked.no_duplicates(),
        outcome_ids(ended).no_duplicates(),
        forall|i: int| 0 <= i < ended.len() ==> asked.contains(outcome_id(#[trigger] ended[i])),
    ensures
        answers(asked, accounted(asked, ended)),
{
    let lost = unanswered(asked, ended);
    let all = accounted(asked, ended);
    let ids = outcome_ids(all);
    lemma_filter_distinct(asked, lost_in(ended));
    assert(ids =~= outcome_ids(ended) + lost);
    assert forall|i: int, j: int| 0 <= i < j < ids.len() implies ids[i] != ids[j] by {
        if i < ended.len() && j >= ended.len() {
            let k = j - ended.len();
            assert(lost.contains(lost[k]));
            asked.lemma_filter_pred(lost_in(ended), k);
            assert(lost_in(ended)(lost[k]));
            assert(outcome_id(ended[i]) == ids[i]);
        } else if i < ended.len() {
            assert(outcome_ids(ended)[i] != outcome_ids(ended)[j]);
        } else {
            assert(lost[i - ended.len()] != lost[j - ended.len()]);
        }
    }
    asked.lemma_multiset_has_no_duplicates();
    ids.lemma_multiset_has_no_duplicates();
    assert forall|id: Seq<char>| ids.to_multiset().count(id) == asked.to_multiset().count(id) by {
        to_multiset_contains(ids, id);
        to_multiset_contains(asked, id);
        if ids.contains(id) {
            let i = choose|i: int| 0 <= i < ids.len() && ids[i] == id;
            if i < ended.len() {
                assert(outcome_id(ended[i]) == id);
            } else {
                assert(lost.contains(lost[i - ended.len()]));
                asked.lemma_filter_contains_rev(lost_in(ended), id);
            }
        }
        if asked.contains(id) {
            let a = choose|a: int| 0 <= a < asked.len() && asked[a] == id;
            if has_outcome(ended, id) {
                let i = choose|i: int| 0 <= i < ended.len() && outcome_id(#[trigger] ended[i]) == id;
                assert(ids[i] == id);
            } else {
                assert(lost_in(ended)(asked[a]));
                asked.lemma_filter_contains(lost_in(ended), a);
                let k = choose|k: int| 0 <= k < lost.len() && lost[k] == id;
                assert(ids[ended.len() + k] == id);
            }
        }
    }
    assert(ids.to_multiset() =~= asked.to_multiset());
}

/// Where every outcome is about another message, the batch holds one
/// record per identifier.
pub proof fn lemma_gathered_unique(outcomes: Seq<OutcomeView>)
    requires
        outcome_ids(outcomes).no_duplicates(),
    ensures
        unique_ids(gathered(outcomes)),
{
    lemma_fetched_unique(outcomes);
    lemma_sorted_ids(fetched(outcomes));
}

/// Where every outcome is about another message, the fetched records carry
/// identifiers that differ from one another.
proof fn lemma_fetched_unique(outcomes: Seq<OutcomeView>)
    requires
        outcome_ids(outcomes).no_duplicates(),
    ensures
        unique_ids(fetched(outcomes)),
    decreases outcomes.len(),
{
    if outcomes.len() > 0 {
        let front = outcomes.drop_last();
        assert forall|i: int, j: int| 0 <= i < j < front.len() implies outcome_ids(front)[i]
            != outcome_ids(front)[j] by {
            assert(outcome_ids(outcomes)[i] != outcome_ids(outcomes)[j]);
        }
        lemma_fetched_unique(front);
        lemma_fetched(front);
        match outcomes.last() {
            OutcomeView::Fetched(r) => {
                let f = fetched(front);
                assert forall|i: int, j: int| 0 <= i < j < f.len() + 1 implies (#[trigger] f.push(
                    r,
                )[i]).id != (#[trigger] f.push(r)[j]).id by {
                    if j == f.len() {
                        assert(f.contains(f[i]));
                        let k = choose|k: int|
                            0 <= k < front.len() && front[k] == OutcomeView::Fetched(f[i]);
                        assert(outcome_ids(outcomes)[k] != outcome_ids(outcomes)[outcomes.len()
                            - 1]);
                    }
                }
            },
            OutcomeView::Failed(_) => {},
        }
    }
}

/// Where identifiers that differ from one another were asked for and every
/// fetch succeeded, the batch holds as many records as identifiers were
/// asked for, most recent first, and one for each of the identifiers.
pub proof fn lemma_all_fetched(ids: Seq<Seq<char>>, outcomes: Seq<OutcomeView>)
    requires
        ids.no_duplicates(),
        answers(ids, outcomes),
        forall|i: int| 0 <= i < outcomes.len() ==> outcomes[i] is Fetched,
    ensures
        gathered(outcomes).len() == ids.len(),
        newest_first(gathered(outcomes)),
        forall|i: int| 0 <= i < ids.len() ==> has_id(gathered(outcomes), #[trigger] ids[i]),
{
    lemma_fetched(outcomes);
    lemma_failed_excluded(ids, outcomes);
    if failures(outcomes).len() > 0 {
        let id = failures(outcomes)[0];
        assert(failures(outcomes).contains(id));
        assert(outcomes.contains(OutcomeView::Failed(id)));
        let i = choose|i: int| 0 <= i < outcomes.len() && outcomes[i] == OutcomeView::Failed(id);
        assert(outcomes[i] is Fetched);
    }
    assert forall|i: int| 0 <= i < ids.len() implies has_id(
        gathered(outcomes),
        #[trigger] ids[i],
    ) by {
        let o = lemma_answered(ids, outcomes, i);
        assert(outcomes[o] is Fetched);
    }
}

/// Each identifier that was asked for has an outcome.
pub proof fn lemma_answered(ids: Seq<Seq<char>>, outcomes: Seq<OutcomeView>, i: int) -> (o: int)
    requires
        answers(ids, outcomes),
        0 <= i < ids.len(),
    ensures
        0 <= o < outcomes.len(),
        outcome_id(outcomes[o]) == ids[i],
{
    to_multiset_contains(ids, ids[i]);
    to_multiset_contains(outcome_ids(outcomes), ids[i]);
    let o = choose|o: int| 0 <= o < outcome_ids(outcomes).len() && outcome_ids(outcomes)[o] == ids[i];
    o
}

/// Where identifiers that differ from one another were asked for and some
/// fetches failed, the batch leaves out exactly the identifiers that failed:
/// it holds a record for each identifier whose fetch succeeded, none for one
/// whose fetch failed, and is most recent first.
pub proof fn lemma_failed_excluded(ids: Seq<Seq<char>>, outcomes: Seq<OutcomeView>)
    requires
        ids.no_duplicates(),
        answers(ids, outcomes),
    ensures
        newest_first(gathered(outcomes)),
        gathered(outcomes).len() == ids.len() - failures(outcomes).len(),
        forall|i: int|
            0 <= i < outcomes.len() ==> (has_id(
                gathered(outcomes),
                outcome_id(#[trigger] outcomes[i]),
            ) <==> outcomes[i] is Fetched),
        forall|id: Seq<char>| has_id(gathered(outcomes), id) ==> ids.contains(id),
{
    let g = gathered(outcomes);
    let oids = outcome_ids(outcomes);
    lemma_gathered(outcomes);
    to_multiset_len(ids);
    to_multiset_len(oids);
    ids.lemma_multiset_has_no_duplicates();
    oids.lemma_multiset_has_no_duplicates_conv();
    assert forall|i: int| 0 <= i < outcomes.len() implies (has_id(
        g,
        outcome_id(#[trigger] outcomes[i]),
    ) <==> outcomes[i] is Fetched) by {
        let id = outcome_id(outcomes[i]);
        match outcomes[i] {
            OutcomeView::Fetched(r) => {
                assert(g.contains(r));
            },
            OutcomeView::Failed(_) => {
                if has_id(g, id) {
                    let k = choose|k: int| 0 <= k < g.len() && (#[trigger] g[k]).id == id;
                    assert(g.contains(g[k]));
                    let j = choose|j: int|
                        0 <= j < outcomes.len() && outcomes[j] == OutcomeView::Fetched(g[k]);
                    assert(oids[i] == id && oids[j] == id);
                }
            },
        }
    }
    assert forall|id: Seq<char>| has_id(g, id) implies ids.contains(id) by {
        let k = choose|k: int| 0 <= k < g.len() && (#[trigger] g[k]).id == id;
        assert(g.contains(g[k]));
        let j = choose|j: int| 0 <= j < outcomes.len() && outcomes[j] == OutcomeView::Fetched(g[k]);
        assert(oids[j] == id);
        to_multiset_contains(oids, id);
        to_multiset_contains(ids, id);
    }
}

/// Picks the messages to fetch from a listing: the first `limit` entries.
/// The size of the pick is what bounds the number of fetches in flight.
pub fn fetch_plan(listing: &Vec<MessageSummary>, limit: usize) -> (ids: Vec<MessageId>)
    ensures
        id_views(ids@) == planned(summary_views(listing@), limit as int),
        ids.len() <= limit,
{
    let count = if limit < listing.len() {
        limit
    } else {
        listing.len()
    };
    let mut ids: Vec<MessageId> = Vec::new();
    let mut i: usize = 0;
    while i < count
        invariant
            i <= count <= listing.len(),
            ids.len() == i,
            forall|k: int| 0 <= k < i ==> ids[k]@ == listing[k].id@,
        decreases count - i,
    {
        ids.push(listing[i].id.clone());
        i += 1;
    }
    ids
}

/// Whether some outcome is about the identifier.
fn is_answered(ended: &Vec<FetchOutcome>, id: &MessageId) -> (found: bool)
    ensures
        found == has_outcome(outcome_views(ended@), id@),
{
    let mut i: usize = 0;
    while i < ended.len()
        invariant
            i <= ended.len(),
            forall|k: int| 0 <= k < i ==> outcome_id(ended[k]@) != id@,
        decreases ended.len() - i,
    {
        let same = match &ended[i] {
            FetchOutcome::Fetched(r) => r.id == *id,
            FetchOutcome::Failed(failed) => *failed == *id,
        };
        if same {
            proof {
                assert(outcome_id(outcome_views(ended@)[i as int]) == id@);
            }
            return true;
        }
        i += 1;
    }
    false
}

/// Accounts for every fetch of a batch: to the outcomes that came in, a
/// failure is added for each identifier that was asked for and that none of
/// them is about. A fetch that was lost on the way so counts as failed.
pub fn account_for(asked: &Vec<MessageId>, ended: Vec<FetchOutcome>) -> (outcomes: Vec<
    FetchOutcome,
>)
    ensures
        outcome_views(outcomes@) == accounted(id_views(asked@), outcome_views(ended@)),
{
    let ghost ids = id_views(asked@);
    let ghost came = outcome_views(ended@);
    let mut lost: Vec<FetchOutcome> = Vec::new();
    let mut i: usize = 0;
    while i < asked.len()
        invariant
            i <= asked.len(),
            ids == id_views(asked@),
            came == outcome_views(ended@),
            outcome_views(lost@) == as_failures(unanswered(ids.take(i as int), came)),
        decreases asked.len() - i,
    {
        let ghost before = outcome_views(lost@);
        let answered = is_answered(&ended, &asked[i]);
        proof {
            assert(ids.take(i + 1) =~= ids.take(i as int).push(asked[i as int]@));
            ids.take(i as int).lemma_filter_push(asked[i as int]@, lost_in(came));
        }
        if !answered {
            lost.push(FetchOutcome::Failed(asked[i].clone()));
            proof {
                assert(as_failures(unanswered(ids.take(i as int), came).push(asked[i as int]@))
                    =~= before.push(OutcomeView::Failed(asked[i as int]@)));
            }
        }
        i += 1;
    }
    let mut outcomes = ended;
    outcomes.append(&mut lost);
    proof {
        assert(ids.take(i as int) =~= ids);
    }
    outcomes
}

/// Turns the outcomes of a batch of fetches, in the order in which they
/// completed, into the batch: the records that came back, most recent
/// first, and the identifiers that failed. A failure costs its own message
/// only.
pub fn download_recent_messages(outcomes: Vec<FetchOutcome>) -> (batch: Batch)
    ensures
        record_views(batch.records@) == gathered(outcome_views(outcomes@)),
        id_views(batch.failed@) == failures(outcome_views(outcomes@)),
        newest_first(record_views(batch.records@)),
        batch.records.len() + batch.failed.len() == outcomes.len(),
{
    let ghost all = outcomes@;
    let ghost mut done: int = 0;
    let mut pending = outcomes;
    let mut records: Vec<MessageRecord> = Vec::new();
    let mut failed: Vec<MessageId> = Vec::new();
    while pending.len() > 0
        invariant
            0 <= done <= all.len(),
            pending@ == all.skip(done),
            record_views(records@) == fetched(outcome_views(all.take(done))),
            id_views(failed@) == failures(outcome_views(all.take(done))),
        decreases pending.len(),
    {
        let outcome = pending.remove(0);
        proof {
            assert(outcome_views(all.take(done + 1)).drop_last() =~= outcome_views(
                all.take(done),
            ));
        }
        match outcome {
            FetchOutcome::Fetched(r) => {
                records.push(r);
            },
            FetchOutcome::Failed(id) => {
                failed.push(id);
            },
        }
        proof {
            done = done + 1;
        }
    }
    proof {
        assert(all.take(done) =~= all);
        lemma_gathered(outcome_views(all));
    }
    let records = sort_newest_first(records);
    Batch { records, failed }
}

} // verus!
