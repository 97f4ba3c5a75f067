//! One synchronisation run, step by step.
//!
//! The run does no work on disk or on the network itself. Its caller does
//! that work: it performs the action that a step hands out and comes back
//! with the event that tells how the work ended. What is decided in between
//! is decided here.

use vstd::prelude::*;
use crate::mail::{account_for, accounted, download_recent_messages, failures, fetch_plan,
    gathered, lemma_gathered, lemma_gathered_unique, outcome_ids, outcome_views, planned,
    FetchOutcome, OutcomeView};
use crate::index::{loaded, stored_views, Index};
use crate::merge::{lemma_merge_into_empty, lemma_merged_well_formed, merged, well_formed};
use crate::record::{copy_ids, copy_records, id_views, record_views, summary_views, MessageId,
    MessageRecord, MessageSummary, PageToken, RecordView, SummaryView};

verus! {

/// Why a call to the remote mail service gave nothing.
#[derive(Debug, Clone, Copy, PartialEq, Eq)]
pub enum RemoteFailure {
    /// The service refused the credentials.
    Unauthorized,
    /// The service could not be reached, or answered with an error.
    Unavailable,
}

/// Why a run failed.
#[derive(Debug, Clone, Copy, PartialEq, Eq)]
pub enum SyncError {
    /// The credentials were refused.
    Authentication,
    /// The identifiers of the messages could not be listed.
    Listing,
    /// The fetches could not be started at all.
    Fetching,
    /// The merged index could not be written to durable storage.
    Storing,
}

/// One page of a listing, and the token of the page that follows it.
#[derive(Debug, PartialEq, Eq)]
pub struct ListPage {
    pub summaries: Vec<MessageSummary>,
    pub next_page_token: Option<PageToken>,
}

/// What a [`ListPage`] stands for in contracts.
pub struct PageView {
    pub summaries: Seq<SummaryView>,
    pub next_page_token: Option<Seq<char>>,
}

/// The view of a page token, where there is one.
pub open spec fn token_view(token: Option<PageToken>) -> Option<Seq<char>> {
    match token {
        Some(t) => Some(t@),
        None => None,
    }
}

impl View for ListPage {
    type V = PageView;

    open spec fn view(&self) -> PageView {
        PageView {
            summaries: summary_views(self.summaries@),
            next_page_token: token_view(self.next_page_token),
        }
    }
}

/// How the work that an action asked for ended.
#[derive(Debug, PartialEq, Eq)]
pub enum SyncEvent {
    /// Durable storage was read: the stored records, or `None` where there
    /// was nothing to read or it could not be understood.
    Loaded(Option<Vec<MessageRecord>>),
    /// A page of the listing came back.
    Listed(ListPage),
    /// The listing call failed.
    ListFailed(RemoteFailure),
    /// Every fetch of the batch has ended, one way or the other.
    Fetched(Vec<FetchOutcome>),
    /// No fetch could be started.
    FetchFailed(RemoteFailure),
    /// The records were written to durable storage.
    Stored,
    /// The records could not be written.
    StoreFailed,
}

/// What a [`SyncEvent`] stands for in contracts.
pub enum EventView {
    Loaded(Option<Seq<RecordView>>),
    Listed(PageView),
    ListFailed(RemoteFailure),
    Fetched(Seq<OutcomeView>),
    FetchFailed(RemoteFailure),
    Stored,
    StoreFailed,
}

impl View for SyncEvent {
    type V = EventView;

    open spec fn view(&self) -> EventView {
        match self {
            SyncEvent::Loaded(stored) => EventView::Loaded(stored_views(*stored)),
            SyncEvent::Listed(page) => EventView::Listed(page@),
            SyncEvent::ListFailed(f) => EventView::ListFailed(*f),
            SyncEvent::Fetched(outcomes) => EventView::Fetched(outcome_views(outcomes@)),
            SyncEvent::FetchFailed(f) => EventView::FetchFailed(*f),
            SyncEvent::Stored => EventView::Stored,
            SyncEvent::StoreFailed => EventView::StoreFailed,
        }
    }
}

/// The work that the caller is to do next.
#[derive(Debug, PartialEq, Eq)]
pub enum SyncAction {
    /// Read the stored index and come back with `Loaded`.
    Load,
    /// Ask for a page of the listing: the first one, or the one that the
    /// token names.
    List { page_token: Option<PageToken> },
    /// Fetch these messages, all at once, and come back with `Fetched` when
    /// the last fetch has ended.
    Fetch { ids: Vec<MessageId> },
    /// Write these records to durable storage in place of what is there.
    Store { records: Vec<MessageRecord> },
    /// The index is ready to be shown. `failed` names the messages of this
    /// run whose fetch failed.
    Publish { failed: Vec<MessageId> },
    /// The run has failed.
    Report { error: SyncError },
    /// The event was not one that the run was waiting for: nothing to do.
    Wait,
}

/// What a [`SyncAction`] stands for in contracts.
pub enum ActionView {
    Load,
    List { page_token: Option<Seq<char>> },
    Fetch { ids: Seq<Seq<char>> },
    Store { records: Seq<RecordView> },
    Publish { failed: Seq<Seq<char>> },
    Report { error: SyncError },
    Wait,
}

impl View for SyncAction {
    type V = ActionView;

    open spec fn view(&self) -> ActionView {
        match self {
            SyncAction::Load => ActionView::Load,
            SyncAction::List { page_token } => ActionView::List {
                page_token: token_view(*page_token),
            },
            SyncAction::Fetch { ids } => ActionView::Fetch { ids: id_views(ids@) },
            SyncAction::Store { records } => ActionView::Store { records: record_views(records@) },
            SyncAction::Publish { failed } => ActionView::Publish { failed: id_views(failed@) },
            SyncAction::Report { error } => ActionView::Report { error: *error },
            SyncAction::Wait => ActionView::Wait,
        }
    }
}

/// Where a run stands.
#[derive(Debug)]
pub enum SyncState {
    /// Nothing has been loaded yet.
    Idle,
    /// The cache was empty; pages of the listing are being gathered.
    Listing { index: Index, listed: Vec<MessageSummary> },
    /// The messages `asked` are being fetched.
    Fetching { index: Index, asked: Vec<MessageId> },
    /// The merged index is being written. Until that has succeeded `index`
    /// is what readers see.
    Storing { index: Index, merged: Index, failed: Vec<MessageId> },
    /// The run is over and `index` is what readers see.
    Ready { index: Index },
    /// The run has failed and `index` is what it was before the failure.
    Failed { index: Index, error: SyncError },
}

/// What a [`SyncState`] stands for in contracts.
pub enum StateView {
    Idle,
    Listing { index: Seq<RecordView>, listed: Seq<SummaryView> },
    Fetching { index: Seq<RecordView>, asked: Seq<Seq<char>> },
    Storing { index: Seq<RecordView>, merged: Seq<RecordView>, failed: Seq<Seq<char>> },
    Ready { index: Seq<RecordView> },
    Failed { index: Seq<RecordView>, error: SyncError },
}

impl View for SyncState {
    type V = StateView;

    open spec fn view(&self) -> StateView {
        match self {
            SyncState::Idle => StateView::Idle,
            SyncState::Listing { index, listed } => StateView::Listing {
                index: index@,
                listed: summary_views(listed@),
            },
            SyncState::Fetching { index, asked } => StateView::Fetching {
                index: index@,
                asked: id_views(asked@),
            },
            SyncState::Storing { index, merged, failed } => StateView::Storing {
                index: index@,
                merged: merged@,
                failed: id_views(failed@),
            },
            SyncState::Ready { index } => StateView::Ready { index: index@ },
            SyncState::Failed { index, error } => StateView::Failed {
                index: index@,
                error: *error,
            },
        }
    }
}

/// The index that readers see in a state.
pub open spec fn index_of(state: StateView) -> Seq<RecordView> {
    match state {
        StateView::Idle => Seq::empty(),
        StateView::Listing { index, .. } => index,
        StateView::Fetching { index, .. } => index,
        StateView::Storing { index, .. } => index,
        StateView::Ready { index } => index,
        StateView::Failed { index, .. } => index,
    }
}

/// Every index that the state holds is an index.
pub open spec fn state_valid(state: StateView) -> bool {
    match state {
        StateView::Idle => true,
        StateView::Listing { index, .. } => well_formed(index),
        StateView::Fetching { index, .. } => well_formed(index),
        StateView::Storing { index, merged, .. } => well_formed(index) && well_formed(merged),
        StateView::Ready { index } => well_formed(index),
        StateView::Failed { index, .. } => well_formed(index),
    }
}

/// The error that a failed listing call ends the run with.
pub open spec fn listing_error(failure: RemoteFailure) -> SyncError {
    match failure {
        RemoteFailure::Unauthorized => SyncError::Authentication,
        RemoteFailure::Unavailable => SyncError::Listing,
    }
}

/// The error that a batch of fetches that could not be started ends the run
/// with.
pub open spec fn fetching_error(failure: RemoteFailure) -> SyncError {
    match failure {
        RemoteFailure::Unauthorized => SyncError::Authentication,
        RemoteFailure::Unavailable => SyncError::Fetching,
    }
}

/// The state that follows `state` on `event`, and the action to take, where
/// at most `max_messages` messages are to be fetched.
///
/// - A cache that holds something is shown as it is, and the run is over.
/// - An empty cache is filled: pages of the listing are gathered until there
///   is no further page or `max_messages` entries are there, the first
///   `max_messages` of them are fetched, a fetch without an outcome is
///   taken for failed, the records that came back are merged into the
///   index, and the merged index is stored and then shown.
/// - A failed listing, a batch of fetches that could not be started and a
///   failed store end the run with the index as it was.
/// - An event that the state does not await changes nothing.
pub open spec fn after(state: StateView, event: EventView, max_messages: int) -> (
    StateView,
    ActionView,
) {
    match (state, event) {
        (StateView::Idle, EventView::Loaded(stored)) => {
            let index = loaded(stored);
            if index.len() > 0 {
                (StateView::Ready { index }, ActionView::Publish { failed: Seq::empty() })
            } else {
                (
                    StateView::Listing { index, listed: Seq::empty() },
                    ActionView::List { page_token: None },
                )
            }
        },
        (StateView::Listing { index, listed }, EventView::Listed(page)) => {
            let all = listed + page.summaries;
            if page.next_page_token is Some && all.len() < max_messages {
                (
                    StateView::Listing { index, listed: all },
                    ActionView::List { page_token: page.next_page_token },
                )
            } else {
                (
                    StateView::Fetching { index, asked: planned(all, max_messages) },
                    ActionView::Fetch { ids: planned(all, max_messages) },
                )
            }
        },
        (StateView::Listing { index, .. }, EventView::ListFailed(failure)) => (
            StateView::Failed { index, error: listing_error(failure) },
            ActionView::Report { error: listing_error(failure) },
        ),
        (StateView::Fetching { index, asked }, EventView::Fetched(ended)) => {
            let outcomes = accounted(asked, ended);
            let merged = merged(index, gathered(outcomes));
            (
                StateView::Storing { index, merged, failed: failures(outcomes) },
                ActionView::Store { records: merged },
            )
        },
        (StateView::Fetching { index, .. }, EventView::FetchFailed(failure)) => (
            StateView::Failed { index, error: fetching_error(failure) },
            ActionView::Report { error: fetching_error(failure) },
        ),
        (StateView::Storing { merged, failed, .. }, EventView::Stored) => (
            StateView::Ready { index: merged },
            ActionView::Publish { failed },
        ),
        (StateView::Storing { index, .. }, EventView::StoreFailed) => (
            StateView::Failed { index, error: SyncError::Storing },
            ActionView::Report { error: SyncError::Storing },
        ),
        _ => (state, ActionView::Wait),
    }
}

/// The state that a run is in when the events have come in, one after the
/// other, from `state` on.
pub open spec fn after_all(state: StateView, events: Seq<EventView>, max_messages: int) -> StateView
    decreases events.len(),
{
    if events.len() == 0 {
        state
    } else {
        after_all(after(state, events[0], max_messages).0, events.skip(1), max_messages)
    }
}

/// A run on an empty cache, as a whole: where the listing comes in one
/// page, every outcome is about another message and the store succeeds, the
/// run ends with the index that holds what was fetched, most recent first.
pub proof fn lemma_first_run(page: PageView, ended: Seq<OutcomeView>, max_messages: int)
    requires
        page.next_page_token is None,
        outcome_ids(accounted(planned(page.summaries, max_messages), ended)).no_duplicates(),
    ensures
        after_all(
            StateView::Idle,
            seq![
                EventView::Loaded(None),
                EventView::Listed(page),
                EventView::Fetched(ended),
                EventView::Stored,
            ],
            max_messages,
        ) == (StateView::Ready {
            index: gathered(accounted(planned(page.summaries, max_messages), ended)),
        }),
{
    let events = seq![
        EventView::Loaded(None),
        EventView::Listed(page),
        EventView::Fetched(ended),
        EventView::Stored,
    ];
    let outcomes = accounted(planned(page.summaries, max_messages), ended);
    lemma_gathered(outcomes);
    lemma_gathered_unique(outcomes);
    lemma_merge_into_empty(gathered(outcomes));
    reveal_with_fuel(after_all, 5);
    assert(Seq::<SummaryView>::empty() + page.summaries =~= page.summaries);
    assert(events.skip(1)[0] == events[1]);
    assert(events.skip(1).skip(1)[0] == events[2]);
    assert(events.skip(1).skip(1).skip(1)[0] == events[3]);
    assert(events.skip(1).skip(1).skip(1).skip(1).len() == 0);
}

/// A step leaves every index an index.
pub proof fn lemma_step_keeps_valid(state: StateView, event: EventView, max_messages: int)
    requires
        state_valid(state),
    ensures
        state_valid(after(state, event, max_messages).0),
{
    match (state, event) {
        (StateView::Fetching { index, asked }, EventView::Fetched(ended)) => {
            lemma_merged_well_formed(index, gathered(accounted(asked, ended)));
        },
        _ => {},
    }
}

/// Where the listing call fails, the run reports the failure and the index
/// is what it was before: nothing is merged and nothing is stored.
pub proof fn lemma_listing_failure(
    index: Seq<RecordView>,
    listed: Seq<SummaryView>,
    failure: RemoteFailure,
    max_messages: int,
)
    ensures
        after(StateView::Listing { index, listed }, EventView::ListFailed(failure), max_messages).0
            is Failed,
        index_of(
            after(
                StateView::Listing { index, listed },
                EventView::ListFailed(failure),
                max_messages,
            ).0,
        ) == index,
        after(StateView::Listing { index, listed }, EventView::ListFailed(failure), max_messages).1
            is Report,
{
}

/// What readers see changes at two steps only: when the cache is loaded,
/// and when a merged index has been stored. Records are handed out for
/// storing at one step only: when every fetch of a batch has ended.
pub proof fn lemma_index_changes(state: StateView, event: EventView, max_messages: int)
    ensures
        index_of(after(state, event, max_messages).0) != index_of(state) ==> (state is Idle
            && event is Loaded) || (state is Storing && event is Stored),
        after(state, event, max_messages).1 is Store ==> state is Fetching && event is Fetched,
        after(state, event, max_messages).0 is Failed && !(state is Failed) ==> after(
            state,
            event,
            max_messages,
        ).1 is Report,
{
}

/// What is handed out for storing is the merged index, and loading it gives
/// that index back: after a store that succeeded, a run that starts anew
/// shows what this run shows.
pub proof fn lemma_stored_loads_back(
    index: Seq<RecordView>,
    asked: Seq<Seq<char>>,
    ended: Seq<OutcomeView>,
    max_messages: int,
)
    requires
        well_formed(index),
    ensures
        ({
            let fetching = StateView::Fetching { index, asked };
            let result = merged(index, gathered(accounted(asked, ended)));
            let stored = after(fetching, EventView::Fetched(ended), max_messages);
            &&& stored.1 == (ActionView::Store { records: result })
            &&& after(stored.0, EventView::Stored, max_messages).0 == (StateView::Ready {
                index: result,
            })
            &&& after(StateView::Idle, EventView::Loaded(Some(result)), max_messages).0 == if result.len()
                > 0 {
                StateView::Ready { index: result }
            } else {
                StateView::Listing { index: result, listed: Seq::empty() }
            }
        }),
{
    lemma_merged_well_formed(index, gathered(accounted(asked, ended)));
}

/// No step asks for more fetches than `max_messages`.
pub proof fn lemma_fetch_bounded(state: StateView, event: EventView, max_messages: int)
    requires
        0 <= max_messages,
    ensures
        after(state, event, max_messages).1 matches ActionView::Fetch { ids } ==> ids.len()
            <= max_messages,
{
}

impl SyncState {
    /// The state in which a run starts, and its first action.
    pub fn start() -> (first: (SyncState, SyncAction))
        ensures
            first.0@ == StateView::Idle,
            first.1@ == ActionView::Load,
    {
        (SyncState::Idle, SyncAction::Load)
    }

    /// The state in which a run starts that fills a stale index anew, and
    /// its first action: the index is not loaded but taken as it is given,
    /// and the listing is asked for whatever the index holds.
    pub fn refresh(index: Index) -> (first: (SyncState, SyncAction))
        ensures
            first.0@ == (StateView::Listing { index: index@, listed: Seq::empty() }),
            first.1@ == (ActionView::List { page_token: None }),
    {
        let listed: Vec<MessageSummary> = Vec::new();
        proof {
            assert(summary_views(listed@) =~= Seq::<SummaryView>::empty());
        }
        (SyncState::Listing { index, listed }, SyncAction::List { page_token: None })
    }

    /// A snapshot of the index that readers see in this state.
    pub fn snapshot(&self) -> (index: Index)
        ensures
            index@ == index_of(self@),
    {
        match self {
            SyncState::Idle => Index::new(),
            SyncState::Listing { index, .. } => index.clone(),
            SyncState::Fetching { index, .. } => index.clone(),
            SyncState::Storing { index, .. } => index.clone(),
            SyncState::Ready { index } => index.clone(),
            SyncState::Failed { index, .. } => index.clone(),
        }
    }

    /// Whether the run is over, one way or the other.
    pub fn is_over(&self) -> (over: bool)
        ensures
            over == (self@ is Ready || self@ is Failed),
    {
        match self {
            SyncState::Ready { .. } => true,
            SyncState::Failed { .. } => true,
            _ => false,
        }
    }
}

/// The error that a failed listing call ends the run with.
fn error_of_listing(failure: RemoteFailure) -> (error: SyncError)
    ensures
        error == listing_error(failure),
{
    match failure {
        RemoteFailure::Unauthorized => SyncError::Authentication,
        RemoteFailure::Unavailable => SyncError::Listing,
    }
}

/// The error that a batch of fetches that could not be started ends the run
/// with.
fn error_of_fetching(failure: RemoteFailure) -> (error: SyncError)
    ensures
        error == fetching_error(failure),
{
    match failure {
        RemoteFailure::Unauthorized => SyncError::Authentication,
        RemoteFailure::Unavailable => SyncError::Fetching,
    }
}

/// Takes one step of a run: from the state and the event that has come in
/// to the state that follows and the action to take.
pub fn step(state: SyncState, event: SyncEvent, max_messages: usize) -> (next: (
    SyncState,
    SyncAction,
))
    ensures
        next.0@ == after(state@, event@, max_messages as int).0,
        next.1@ == after(state@, event@, max_messages as int).1,
{
    match state {
        SyncState::Idle => match event {
            SyncEvent::Loaded(stored) => {
                let index = Index::load(stored);
                if index.len() > 0 {
                    let failed: Vec<MessageId> = Vec::new();
                    proof {
                        assert(id_views(failed@) =~= Seq::<Seq<char>>::empty());
                    }
                    (SyncState::Ready { index }, SyncAction::Publish { failed })
                } else {
                    let listed: Vec<MessageSummary> = Vec::new();
                    proof {
                        assert(summary_views(listed@) =~= Seq::<SummaryView>::empty());
                    }
                    (SyncState::Listing { index, listed }, SyncAction::List { page_token: None })
                }
            },
            _ => (SyncState::Idle, SyncAction::Wait),
        },
        SyncState::Listing { index, listed } => match event {
            SyncEvent::Listed(page) => {
                let ghost before = summary_views(listed@);
                let ghost came = summary_views(page.summaries@);
                let mut all = listed;
                let mut summaries = page.summaries;
                all.append(&mut summaries);
                proof {
                    assert(summary_views(all@) =~= before + came);
                }
                if page.next_page_token.is_some() && all.len() < max_messages {
                    (
                        SyncState::Listing { index, listed: all },
                        SyncAction::List { page_token: page.next_page_token },
                    )
                } else {
                    let asked = fetch_plan(&all, max_messages);
                    let ids = copy_ids(&asked);
                    (SyncState::Fetching { index, asked }, SyncAction::Fetch { ids })
                }
            },
            SyncEvent::ListFailed(failure) => {
                let error = error_of_listing(failure);
                (SyncState::Failed { index, error }, SyncAction::Report { error })
            },
            _ => (SyncState::Listing { index, listed }, SyncAction::Wait),
        },
        SyncState::Fetching { index, asked } => match event {
            SyncEvent::Fetched(ended) => {
                let batch = download_recent_messages(account_for(&asked, ended));
                let merged = index.clone().merge(batch.records);
                let records = copy_records(merged.records());
                (
                    SyncState::Storing { index, merged, failed: batch.failed },
                    SyncAction::Store { records },
                )
            },
            SyncEvent::FetchFailed(failure) => {
                let error = error_of_fetching(failure);
                (SyncState::Failed { index, error }, SyncAction::Report { error })
            },
            _ => (SyncState::Fetching { index, asked }, SyncAction::Wait),
        },
        SyncState::Storing { index, merged, failed } => match event {
            SyncEvent::Stored => (SyncState::Ready { index: merged }, SyncAction::Publish { failed }),
            SyncEvent::StoreFailed => (
                SyncState::Failed { index, error: SyncError::Storing },
                SyncAction::Report { error: SyncError::Storing },
            ),
            _ => (SyncState::Storing { index, merged, failed }, SyncAction::Wait),
        },
        SyncState::Ready { index } => (SyncState::Ready { index }, SyncAction::Wait),
        SyncState::Failed { index, error } => (SyncState::Failed { index, error }, SyncAction::Wait),
    }
}

} // verus!
