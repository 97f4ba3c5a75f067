//! The messages that the index stores, and their mathematical views.

use vstd::prelude::*;

verus! {

/// The identifier that the provider gives a message: unique to the message
/// and the same at every fetch. What it holds means nothing here.
pub type MessageId = String;

/// The cursor that names the next page of a listing. What it holds means
/// nothing here.
pub type PageToken = String;

/// One header line of a message.
#[derive(Debug, PartialEq, Eq)]
pub struct Header {
    pub name: String,
    pub value: String,
}

/// What a [`Header`] stands for in contracts.
pub struct HeaderView {
    pub name: Seq<char>,
    pub value: Seq<char>,
}

impl View for Header {
    type V = HeaderView;

    open spec fn view(&self) -> HeaderView {
        HeaderView { name: self.name@, value: self.value@ }
    }
}

impl Clone for Header {
    fn clone(&self) -> (copy: Self)
        ensures
            copy@ == self@,
    {
        Header { name: self.name.clone(), value: self.value.clone() }
    }
}

/// The views of a sequence of headers, in order.
pub open spec fn header_views(headers: Seq<Header>) -> Seq<HeaderView> {
    headers.map_values(|h: Header| h@)
}

/// One entry of a message listing: the identifier of a message and, where
/// the provider gave one, the identifier of its thread.
#[derive(Debug, PartialEq, Eq)]
pub struct MessageSummary {
    pub id: MessageId,
    pub thread_id: Option<String>,
}

/// What a [`MessageSummary`] stands for in contracts.
pub struct SummaryView {
    pub id: Seq<char>,
    pub thread_id: Option<Seq<char>>,
}

impl View for MessageSummary {
    type V = SummaryView;

    open spec fn view(&self) -> SummaryView {
        SummaryView {
            id: self.id@,
            thread_id: match self.thread_id {
                Some(t) => Some(t@),
                None => None,
            },
        }
    }
}

/// The views of a sequence of summaries, in order.
pub open spec fn summary_views(summaries: Seq<MessageSummary>) -> Seq<SummaryView> {
    summaries.map_values(|s: MessageSummary| s@)
}

/// A fully fetched message. `internal_date` is the provider's timestamp in
/// milliseconds since the epoch; the index is ordered by it.
#[derive(Debug, PartialEq, Eq)]
pub struct MessageRecord {
    pub id: MessageId,
    pub internal_date: i64,
    pub snippet: String,
    pub headers: Vec<Header>,
    pub raw_payload: String,
}

/// What a [`MessageRecord`] stands for in contracts.
pub struct RecordView {
    pub id: Seq<char>,
    pub internal_date: int,
    pub snippet: Seq<char>,
    pub headers: Seq<HeaderView>,
    pub raw_payload: Seq<char>,
}

impl View for MessageRecord {
    type V = RecordView;

    open spec fn view(&self) -> RecordView {
        RecordView {
            id: self.id@,
            internal_date: self.internal_date as int,
            snippet: self.snippet@,
            headers: header_views(self.headers@),
            raw_payload: self.raw_payload@,
        }
    }
}

impl Clone for MessageRecord {
    fn clone(&self) -> (copy: Self)
        ensures
            copy@ == self@,
    {
        let mut headers: Vec<Header> = Vec::new();
        let mut i: usize = 0;
        while i < self.headers.len()
            invariant
                i <= self.headers.len(),
                headers.len() == i,
                forall|k: int| 0 <= k < i ==> headers[k]@ == self.headers[k]@,
            decreases self.headers.len() - i,
        {
            headers.push(self.headers[i].clone());
            i += 1;
        }
        proof {
            assert(header_views(headers@) =~= header_views(self.headers@));
        }
        MessageRecord {
            id: self.id.clone(),
            internal_date: self.internal_date,
            snippet: self.snippet.clone(),
            headers,
            raw_payload: self.raw_payload.clone(),
        }
    }
}

/// The text, or no text where there is none.
pub open spec fn text_or_empty(text: Option<String>) -> Seq<char> {
    match text {
        Some(t) => t@,
        None => Seq::empty(),
    }
}

/// The header that a name and a value make, either of which the provider
/// may have left out: what is left out is empty.
pub open spec fn header_of(parts: (Option<String>, Option<String>)) -> HeaderView {
    HeaderView { name: text_or_empty(parts.0), value: text_or_empty(parts.1) }
}

/// The headers that pairs of a name and a value make, in order.
pub open spec fn headers_of(parts: Seq<(Option<String>, Option<String>)>) -> Seq<HeaderView> {
    parts.map_values(|p: (Option<String>, Option<String>)| header_of(p))
}

/// The date by which a message is ordered: its own, or the earliest date
/// there is where it has none, so that it comes behind every dated message.
pub open spec fn date_or_earliest(date: Option<i64>) -> int {
    match date {
        Some(d) => d as int,
        None => i64::MIN as int,
    }
}

/// The text, or an empty text where there is none.
fn or_empty(text: Option<String>) -> (out: String)
    ensures
        out@ == text_or_empty(text),
{
    match text {
        Some(t) => t,
        None => String::new(),
    }
}

impl MessageSummary {
    /// The entry of a listing that the provider handed over, where it names
    /// a message: an entry without an identifier is none.
    pub fn from_parts(id: Option<MessageId>, thread_id: Option<String>) -> (summary: Option<
        MessageSummary,
    >)
        ensures
            summary is None <==> id is None,
            summary matches Some(s) ==> id matches Some(i) && s.id@ == i@ && s.thread_id
                == thread_id,
    {
        match id {
            Some(id) => Some(MessageSummary { id, thread_id }),
            None => None,
        }
    }
}

impl MessageRecord {
    /// The record of a message that the provider handed over, every part of
    /// which it may have left out. A message without an identifier cannot be
    /// told from another and gives no record. A message without a date gets
    /// the earliest date there is; a snippet, a header name or a header
    /// value that is left out is empty.
    pub fn from_parts(
        id: Option<MessageId>,
        internal_date: Option<i64>,
        snippet: Option<String>,
        headers: Vec<(Option<String>, Option<String>)>,
        raw_payload: String,
    ) -> (record: Option<MessageRecord>)
        ensures
            record is None <==> id is None,
            record matches Some(r) ==> id matches Some(i) && r@ == (RecordView {
                id: i@,
                internal_date: date_or_earliest(internal_date),
                snippet: text_or_empty(snippet),
                headers: headers_of(headers@),
                raw_payload: raw_payload@,
            }),
    {
        let id = match id {
            Some(id) => id,
            None => {
                return None;
            },
        };
        let ghost all = headers@;
        let ghost mut done: int = 0;
        let mut pending = headers;
        let mut made: Vec<Header> = Vec::new();
        while pending.len() > 0
            invariant
                0 <= done <= all.len(),
                pending@ == all.skip(done),
                header_views(made@) == headers_of(all.take(done)),
            decreases pending.len(),
        {
            let (name, value) = pending.remove(0);
            made.push(Header { name: or_empty(name), value: or_empty(value) });
            proof {
                assert(headers_of(all.take(done + 1)) =~= headers_of(all.take(done)).push(
                    header_of(all[done]),
                ));
                done = done + 1;
            }
        }
        proof {
            assert(all.take(done) =~= all);
        }
        Some(
            MessageRecord {
                id,
                internal_date: match internal_date {
                    Some(date) => date,
                    None => i64::MIN,
                },
                snippet: or_empty(snippet),
                headers: made,
                raw_payload,
            },
        )
    }
}

/// The views of a sequence of records, in order.
pub open spec fn record_views(records: Seq<MessageRecord>) -> Seq<RecordView> {
    records.map_values(|r: MessageRecord| r@)
}

/// The views of a sequence of identifiers, in order.
pub open spec fn id_views(ids: Seq<MessageId>) -> Seq<Seq<char>> {
    ids.map_values(|id: MessageId| id@)
}

/// A copy of the records, in order.
pub fn copy_records(records: &Vec<MessageRecord>) -> (copy: Vec<MessageRecord>)
    ensures
        record_views(copy@) == record_views(records@),
{
    let mut copy: Vec<MessageRecord> = Vec::new();
    let mut i: usize = 0;
    while i < records.len()
        invariant
            i <= records.len(),
            copy.len() == i,
            forall|k: int| 0 <= k < i ==> copy[k]@ == records[k]@,
        decreases records.len() - i,
    {
        copy.push(records[i].clone());
        i += 1;
    }
    copy
}

/// A copy of the identifiers, in order.
pub fn copy_ids(ids: &Vec<MessageId>) -> (copy: Vec<MessageId>)
    ensures
        id_views(copy@) == id_views(ids@),
{
    let mut copy: Vec<MessageId> = Vec::new();
    let mut i: usize = 0;
    while i < ids.len()
        invariant
            i <= ids.len(),
            copy.len() == i,
            forall|k: int| 0 <= k < i ==> copy[k]@ == ids[k]@,
        decreases ids.len() - i,
    {
        copy.push(ids[i].clone());
        i += 1;
    }
    copy
}

} // verus!
