//! The cached index: fetched messages, most recent first, one per identifier.

use vstd::prelude::*;
use crate::merge::{absent_from, has_id, kept, last_of_each, lemma_merged_well_formed, merged,
    unique_ids, well_formed};
use crate::order::{newest_first, sort_newest_first};
use crate::record::{copy_records, record_views, MessageId, MessageRecord, RecordView};

verus! {

/// The views of a stored document, where there is one.
pub open spec fn stored_views(stored: Option<Vec<MessageRecord>>) -> Option<Seq<RecordView>> {
    match stored {
        Some(records) => Some(record_views(records@)),
        None => None,
    }
}

/// What loading gives: the stored records where they form an index, and the
/// empty index where nothing was stored or what was stored is no index.
pub open spec fn loaded(stored: Option<Seq<RecordView>>) -> Seq<RecordView> {
    match stored {
        Some(s) => if well_formed(s) {
            s
        } else {
            Seq::empty()
        },
        None => Seq::empty(),
    }
}

/// Loading what an index handed out for storing gives the index back.
pub proof fn lemma_load_round_trip(index: Seq<RecordView>)
    requires
        well_formed(index),
    ensures
        loaded(Some(index)) == index,
{
}

/// Whether some record carries the identifier.
pub fn contains_id(records: &Vec<MessageRecord>, id: &MessageId) -> (found: bool)
    ensures
        found == has_id(record_views(records@), id@),
{
    let mut i: usize = 0;
    while i < records.len()
        invariant
            i <= records.len(),
            forall|k: int| 0 <= k < i ==> records[k].id@ != id@,
        decreases records.len() - i,
    {
        if records[i].id == *id {
            proof {
                assert(record_views(records@)[i as int].id == id@);
            }
            return true;
        }
        i += 1;
    }
    false
}

/// Whether the records are most recent first.
pub fn is_newest_first(records: &Vec<MessageRecord>) -> (ordered: bool)
    ensures
        ordered == newest_first(record_views(records@)),
{
    let ghost views = record_views(records@);
    let mut i: usize = 1;
    while i < records.len()
        invariant
            1 <= i,
            views == record_views(records@),
            forall|a: int, b: int|
                0 <= a < b < i && b < views.len() ==> views[a].internal_date
                    >= views[b].internal_date,
        decreases records.len() - i,
    {
        if records[i - 1].internal_date < records[i].internal_date {
            proof {
                assert(views[i - 1].internal_date < views[i as int].internal_date);
            }
            return false;
        }
        proof {
            assert forall|a: int, b: int| 0 <= a < b < i + 1 && b < views.len() implies views[a].internal_date
                >= views[b].internal_date by {
                if b == i && a < i - 1 {
                    assert(views[a].internal_date >= views[i - 1].internal_date);
                }
            }
        }
        i += 1;
    }
    true
}

/// Whether every identifier occurs once.
pub fn has_unique_ids(records: &Vec<MessageRecord>) -> (unique: bool)
    ensures
        unique == unique_ids(record_views(records@)),
{
    let ghost views = record_views(records@);
    let mut i: usize = 0;
    while i < records.len()
        invariant
            i <= records.len(),
            views == record_views(records@),
            forall|a: int, b: int| 0 <= a < b < i ==> (#[trigger] views[a]).id != (
            #[trigger] views[b]).id,
        decreases records.len() - i,
    {
        let mut j: usize = 0;
        while j < i
            invariant
                j <= i < records.len(),
                views == record_views(records@),
                forall|a: int| 0 <= a < j ==> (#[trigger] views[a]).id != views[i as int].id,
            decreases i - j,
        {
            if records[j].id == records[i].id {
                proof {
                    assert(views[j as int].id == views[i as int].id);
                }
                return false;
            }
            j += 1;
        }
        i += 1;
    }
    true
}

/// The records of `existing` whose identifier `incoming` does not carry.
fn keep_absent(existing: Vec<MessageRecord>, incoming: &Vec<MessageRecord>) -> (out: Vec<
    MessageRecord,
>)
    ensures
        record_views(out@) == kept(record_views(existing@), record_views(incoming@)),
{
    let ghost all = existing@;
    let ghost batch = record_views(incoming@);
    let ghost mut done: int = 0;
    let mut pending = existing;
    let mut out: Vec<MessageRecord> = Vec::new();
    while pending.len() > 0
        invariant
            0 <= done <= all.len(),
            pending@ == all.skip(done),
            batch == record_views(incoming@),
            record_views(out@) == record_views(all.take(done)).filter(absent_from(batch)),
        decreases pending.len(),
    {
        let r = pending.remove(0);
        let replaced = contains_id(incoming, &r.id);
        proof {
            assert(record_views(all.take(done + 1)) =~= record_views(all.take(done)).push(r@));
            record_views(all.take(done)).lemma_filter_push(r@, absent_from(batch));
        }
        if !replaced {
            out.push(r);
        }
        proof {
            done = done + 1;
        }
    }
    out
}

/// Of each identifier the record that comes last.
fn keep_last_of_each(incoming: Vec<MessageRecord>) -> (out: Vec<MessageRecord>)
    ensures
        record_views(out@) == last_of_each(record_views(incoming@)),
{
    let ghost all = incoming@;
    let ghost mut done: int = 0;
    let mut pending = incoming;
    let mut out: Vec<MessageRecord> = Vec::new();
    while pending.len() > 0
        invariant
            0 <= done <= all.len(),
            pending@ == all.skip(done),
            record_views(out@) + last_of_each(record_views(all.skip(done))) == last_of_each(
                record_views(all),
            ),
        decreases pending.len(),
    {
        let ghost here = record_views(all.skip(done));
        let r = pending.remove(0);
        let later = contains_id(&pending, &r.id);
        proof {
            assert(pending@ =~= all.skip(done + 1));
            assert(here.skip(1) =~= record_views(all.skip(done + 1)));
        }
        if !later {
            out.push(r);
        }
        proof {
            done = done + 1;
        }
    }
    out
}

/// The index: an owned, ordered collection of fetched messages. It is most
/// recent first and holds one record per identifier, always.
#[derive(Debug)]
pub struct Index {
    records: Vec<MessageRecord>,
}

impl View for Index {
    type V = Seq<RecordView>;

    closed spec fn view(&self) -> Seq<RecordView> {
        record_views(self.records@)
    }
}

impl Index {
    #[verifier::type_invariant]
    spec fn valid(self) -> bool {
        well_formed(record_views(self.records@))
    }

    /// The empty index.
    pub fn new() -> (index: Index)
        ensures
            index@ == Seq::<RecordView>::empty(),
    {
        let records: Vec<MessageRecord> = Vec::new();
        Index { records }
    }

    /// Makes the index from what durable storage held: `None` where nothing
    /// could be read. Stored records that are not most recent first, or that
    /// carry an identifier twice, count as corrupt and give the empty index.
    pub fn load(stored: Option<Vec<MessageRecord>>) -> (index: Index)
        ensures
            index@ == loaded(stored_views(stored)),
            well_formed(index@),
    {
        match stored {
            Some(records) => {
                if is_newest_first(&records) && has_unique_ids(&records) {
                    Index { records }
                } else {
                    Index::new()
                }
            },
            None => Index::new(),
        }
    }

    /// Lays `incoming` over the index: an incoming record replaces the record
    /// of the same identifier, the last one of an identifier wins, and the
    /// result is ordered most recent first again.
    pub fn merge(self, incoming: Vec<MessageRecord>) -> (result: Index)
        ensures
            result@ == merged(self@, record_views(incoming@)),
            well_formed(result@),
    {
        proof {
            use_type_invariant(&self);
            lemma_merged_well_formed(self@, record_views(incoming@));
        }
        let mut combined = keep_absent(self.records, &incoming);
        let mut fresh = keep_last_of_each(incoming);
        let ghost stay = record_views(combined@);
        let ghost come = record_views(fresh@);
        combined.append(&mut fresh);
        proof {
            assert(record_views(combined@) =~= stay + come);
        }
        let records = sort_newest_first(combined);
        Index { records }
    }

    /// The records, most recent first: what is shown, and what is stored.
    pub fn records(&self) -> (records: &Vec<MessageRecord>)
        ensures
            record_views(records@) == self@,
            well_formed(self@),
    {
        proof {
            use_type_invariant(self);
        }
        &self.records
    }

    /// The number of records.
    pub fn len(&self) -> (n: usize)
        ensures
            n == self@.len(),
    {
        self.records.len()
    }

    /// Whether the index holds no record.
    pub fn is_empty(&self) -> (empty: bool)
        ensures
            empty == (self@.len() == 0),
    {
        self.records.len() == 0
    }

    /// Drops every record: the cache is invalidated.
    pub fn clear(&mut self)
        ensures
            final(self)@ == Seq::<RecordView>::empty(),
    {
        *self = Index::new();
    }
}

impl Clone for Index {
    /// A snapshot of the index as it is now.
    fn clone(&self) -> (copy: Self)
        ensures
            copy@ == self@,
    {
        proof {
            use_type_invariant(self);
        }
        let records = copy_records(&self.records);
        Index { records }
    }
}

} // verus!
