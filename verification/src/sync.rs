//! The batch synchronizer as a state machine.
//!
//! The synchronizer decides; its driver performs. The driver hands over what
//! happened as an [`Event`] and gets back the next [`Action`] to perform: a
//! call of the embedding provider for one batch, the updates of one batch to
//! write to the store, or the end of the run.

use async_openai::types::CreateEmbeddingRequest;
use vstd::prelude::*;

use crate::batch::{
    batch_count, batch_end, lemma_batch_count_step, lemma_batch_count_zero, DEFAULT_BATCH_LIMIT,
};
use crate::model::{
    first_with, ids_of, lemma_first_with, pending_id, pending_views, text_len, text_views,
    texts_of, EmbeddingUpdate, EntityKind, Keyword, Pending, PendingView, Student, StudentKeyword,
};
use crate::request::{embedding_request, request_model, request_texts};
use crate::select::{
    pending_keywords, pending_students, select_pending_keywords, select_pending_students,
};

verus! {

/// Where a run stands.
#[derive(Debug, Clone, Copy, PartialEq, Eq)]
pub enum Phase {
    /// The next batch, if there is one, can be requested.
    Ready,
    /// The provider has been asked for the vectors of the batch at the cursor.
    Embedding,
    /// The store has been handed the updates of the batch at the cursor.
    Storing,
    /// The vector of every pending entity has been written.
    Finished,
    /// The run was aborted.
    Failed,
}

/// Why a run was aborted.
#[derive(Debug, Clone, PartialEq, Eq)]
pub enum SyncError {
    /// There is no credential for the provider, or the limit on a batch is
    /// zero. Nothing was attempted.
    Configuration,
    /// The text of this entity is empty. Its batch was not sent to the
    /// provider.
    Data { id: i32 },
    /// The provider failed on the batch with these ids, or answered it with a
    /// number of vectors other than the number of its texts. None of the
    /// batch was written.
    Provider { ids: Vec<i32> },
    /// The provider did not answer the batch with these ids in time. None of
    /// the batch was written.
    Timeout { ids: Vec<i32> },
    /// The store failed to write the vector of this entity. The vectors of
    /// the entities before it are written.
    Store { id: i32 },
    /// The event does not answer the action that was handed out last.
    OutOfTurn,
}

/// What the driver reports.
#[derive(Debug, Clone, PartialEq)]
pub enum Event<V> {
    /// The run starts.
    Begin,
    /// The provider answered the last request with these vectors.
    Embedded { vectors: Vec<V> },
    /// The provider failed on the last request.
    ProviderFailed,
    /// The provider did not answer the last request in time.
    ProviderTimedOut,
    /// Every update of the last batch has been written.
    Stored,
    /// The updates of the last batch before the one for the entity with
    /// this id have been written; this one could not be.
    StoreFailed { id: i32 },
}

/// What the driver is to do next.
#[derive(Debug, PartialEq)]
pub enum Action<V> {
    /// Send `request` to the provider; it asks for the vectors of the
    /// entities with these ids, in this order.
    Embed { ids: Vec<i32>, request: CreateEmbeddingRequest },
    /// Write each update to the store, one by one and in this order, and
    /// stop at the first that fails.
    Store { updates: Vec<EmbeddingUpdate<V>> },
    /// The run is complete.
    Finished,
    /// The run is aborted.
    Failed { error: SyncError },
}

/// The state of a run as contracts see it.
pub struct SyncState {
    /// The entities selected for this run, in the order of selection.
    pub pending: Seq<Pending>,
    /// The most texts that one provider call may carry.
    pub limit: nat,
    /// How many of the pending entities are known to have their vectors
    /// written: those before it, in the order of the selection.
    pub cursor: nat,
    /// How many provider calls have been handed out.
    pub calls: nat,
    pub phase: Phase,
}

impl SyncState {
    /// The number of pending entities.
    pub open spec fn len(self) -> nat {
        self.pending.len()
    }

    /// The index one past the batch that starts at the cursor.
    pub open spec fn end(self) -> nat {
        batch_end(self.cursor, self.len(), self.limit)
    }

    /// The batch that starts at the cursor.
    pub open spec fn batch(self) -> Seq<Pending> {
        self.pending.subrange(self.cursor as int, self.end() as int)
    }

    /// The number of provider calls that a complete run makes.
    pub open spec fn total_calls(self) -> nat {
        batch_count(self.len(), self.limit)
    }

    /// The index in the batch at the cursor of the first entity whose text
    /// is empty; the length of the batch if there is none.
    pub open spec fn first_empty(self) -> int {
        first_with(self.batch(), text_len(), 0)
    }

    /// The state once the batch at the cursor is written.
    pub open spec fn past_batch(self) -> SyncState {
        SyncState { cursor: self.end(), phase: Phase::Ready, ..self }
    }

    /// The number of provider calls still to be handed out.
    pub open spec fn calls_to_go(self) -> nat {
        match self.phase {
            Phase::Ready => batch_count((self.len() - self.cursor) as nat, self.limit),
            Phase::Embedding | Phase::Storing => batch_count(
                (self.len() - self.end()) as nat,
                self.limit,
            ),
            Phase::Finished | Phase::Failed => 0,
        }
    }

    /// The cursor lies within the pending entities, and the calls made and
    /// those to go add up to the calls of a complete run.
    pub open spec fn wf(self) -> bool {
        &&& self.limit > 0
        &&& self.cursor <= self.len()
        &&& (self.phase is Embedding || self.phase is Storing) ==> self.cursor < self.len()
        &&& self.phase is Finished ==> self.cursor == self.len()
        &&& if self.phase is Failed {
            self.calls <= self.total_calls()
        } else {
            self.calls + self.calls_to_go() == self.total_calls()
        }
    }
}

/// The state in which a run over `pending` starts.
pub open spec fn initial(pending: Seq<Pending>, limit: nat) -> SyncState {
    SyncState { pending, limit, cursor: 0, calls: 0, phase: Phase::Ready }
}

/// The updates of a batch: the vector at each position goes to the entity at
/// the same position.
pub open spec fn paired<V>(batch: Seq<Pending>, vectors: Seq<V>) -> Seq<EmbeddingUpdate<V>> {
    Seq::new(batch.len(), |i: int| EmbeddingUpdate { id: batch[i].id, vector: vectors[i] })
}

/// The machine moves on from a state in which it is ready: to the end of the
/// run when nothing is left, else to the request for the batch at the
/// cursor, unless that batch holds an empty text, which aborts the run.
pub open spec fn advanced<V>(pre: SyncState, post: SyncState, action: Action<V>) -> bool {
    if pre.cursor == pre.len() {
        &&& post == SyncState { phase: Phase::Finished, ..pre }
        &&& action is Finished
    } else if pre.first_empty() < pre.batch().len() {
        &&& post == SyncState { phase: Phase::Failed, ..pre }
        &&& action == Action::<V>::Failed {
            error: SyncError::Data { id: pre.batch()[pre.first_empty()].id },
        }
    } else {
        &&& post == SyncState { phase: Phase::Embedding, calls: pre.calls + 1, ..pre }
        &&& action matches Action::Embed { ids, request }
        &&& ids@ == ids_of(pre.batch())
        &&& request_model(request) == "text-embedding-ada-002"@
        &&& request_texts(request) == texts_of(pre.batch())
    }
}

/// The batch at the cursor is given up and the run with it; the cursor stays.
pub open spec fn provider_failed<V>(pre: SyncState, post: SyncState, action: Action<V>) -> bool {
    &&& post == SyncState { phase: Phase::Failed, ..pre }
    &&& action matches Action::Failed { error: SyncError::Provider { ids } }
    &&& ids@ == ids_of(pre.batch())
}

/// The provider was too slow for the batch at the cursor: the batch is given
/// up and the run with it; the cursor stays.
pub open spec fn timed_out<V>(pre: SyncState, post: SyncState, action: Action<V>) -> bool {
    &&& post == SyncState { phase: Phase::Failed, ..pre }
    &&& action matches Action::Failed { error: SyncError::Timeout { ids } }
    &&& ids@ == ids_of(pre.batch())
}

/// The event is out of turn: a run that is under way is aborted, one that is
/// over stays as it is.
pub open spec fn refused<V>(pre: SyncState, post: SyncState, action: Action<V>) -> bool {
    &&& post == SyncState { phase: Phase::Failed, ..pre }
    &&& action == Action::<V>::Failed { error: SyncError::OutOfTurn }
}

/// What the machine answers to an event, and where that leaves it.
pub open spec fn transition<V>(
    pre: SyncState,
    event: Event<V>,
    post: SyncState,
    action: Action<V>,
) -> bool {
    match pre.phase {
        Phase::Ready => match event {
            Event::Begin => advanced(pre, post, action),
            _ => refused(pre, post, action),
        },
        Phase::Embedding => match event {
            Event::Embedded { vectors } => if vectors@.len() == pre.batch().len() {
                &&& post == SyncState { phase: Phase::Storing, ..pre }
                &&& action matches Action::Store { updates }
                &&& updates@ == paired(pre.batch(), vectors@)
            } else {
                provider_failed(pre, post, action)
            },
            Event::ProviderFailed => provider_failed(pre, post, action),
            Event::ProviderTimedOut => timed_out(pre, post, action),
            _ => refused(pre, post, action),
        },
        Phase::Storing => match event {
            Event::Stored => advanced(pre.past_batch(), post, action),
            Event::StoreFailed { id } => {
                let at = first_with(pre.batch(), pending_id(), id as int);
                if at < pre.batch().len() {
                    &&& post == SyncState {
                        phase: Phase::Failed,
                        cursor: (pre.cursor + at) as nat,
                        ..pre
                    }
                    &&& action == Action::<V>::Failed { error: SyncError::Store { id } }
                } else {
                    refused(pre, post, action)
                }
            },
            _ => refused(pre, post, action),
        },
        Phase::Finished => post == pre && action is Finished,
        Phase::Failed => refused(pre, post, action),
    }
}

/// A run of the batch synchronizer over the entities selected for it.
pub struct Synchronizer {
    pending: Vec<Pending>,
    limit: usize,
    progress: Progress,
}

/// How far a run has come. It changes in one piece, so that the run is well
/// formed at every moment.
#[derive(Clone, Copy)]
struct Progress {
    cursor: usize,
    calls: usize,
    phase: Phase,
}

impl View for Synchronizer {
    type V = SyncState;

    closed spec fn view(&self) -> SyncState {
        SyncState {
            pending: self.pending@,
            limit: self.limit as nat,
            cursor: self.progress.cursor as nat,
            calls: self.progress.calls as nat,
            phase: self.progress.phase,
        }
    }
}

impl Synchronizer {
    #[verifier::type_invariant]
    closed spec fn well_formed(self) -> bool {
        self@.wf()
    }

    /// A run over `pending` that asks the provider for at most `limit`
    /// vectors at a time.
    pub fn new(pending: Vec<Pending>, limit: usize) -> (res: Result<Synchronizer, SyncError>)
        ensures
            limit == 0 ==> res == Err::<Synchronizer, SyncError>(SyncError::Configuration),
            limit > 0 ==> res is Ok,
            res matches Ok(run) ==> run@.wf() && run@ == initial(pending@, limit as nat),
    {
        if limit == 0 {
            return Err(SyncError::Configuration);
        }
        proof {
            lemma_batch_count_zero(0, limit as nat);
        }
        Ok(
            Synchronizer {
                pending,
                limit,
                progress: Progress { cursor: 0, calls: 0, phase: Phase::Ready },
            },
        )
    }

    /// Where the run stands.
    pub fn phase(&self) -> (phase: Phase)
        ensures
            phase == self@.phase,
    {
        self.progress.phase
    }

    /// How many provider calls have been handed out.
    pub fn calls(&self) -> (calls: usize)
        ensures
            calls == self@.calls,
    {
        self.progress.calls
    }

    /// The ids from the cursor on: after a run that was aborted, those that
    /// remain unsynchronized.
    pub fn remaining_ids(&self) -> (ids: Vec<i32>)
        ensures
            ids@ == ids_of(self@.pending.skip(self@.cursor as int)),
    {
        proof {
            use_type_invariant(self);
        }
        self.ids_between(self.progress.cursor, self.pending.len())
    }

    /// Answers `event` with the next action.
    pub fn step<V>(&mut self, event: Event<V>) -> (action: Action<V>)
        ensures
            old(self)@.wf(),
            final(self)@.wf(),
            transition(old(self)@, event, final(self)@, action),
    {
        proof {
            use_type_invariant(&*self);
        }
        match self.progress.phase {
            Phase::Ready => match event {
                Event::Begin => self.advance(self.progress.cursor),
                _ => self.refuse(),
            },
            Phase::Embedding => match event {
                Event::Embedded { vectors } => {
                    let end: usize = self.end();
                    if vectors.len() == end - self.progress.cursor {
                        let updates = self.pair(end, vectors);
                        self.progress = Progress {
                            cursor: self.progress.cursor,
                            calls: self.progress.calls,
                            phase: Phase::Storing,
                        };
                        Action::Store { updates }
                    } else {
                        let ids = self.give_up();
                        Action::Failed { error: SyncError::Provider { ids } }
                    }
                },
                Event::ProviderFailed => {
                    let ids = self.give_up();
                    Action::Failed { error: SyncError::Provider { ids } }
                },
                Event::ProviderTimedOut => {
                    let ids = self.give_up();
                    Action::Failed { error: SyncError::Timeout { ids } }
                },
                _ => self.refuse(),
            },
            Phase::Storing => match event {
                Event::Stored => {
                    let end: usize = self.end();
                    self.advance(end)
                },
                Event::StoreFailed { id } => self.store_failed(id),
                _ => self.refuse(),
            },
            Phase::Finished => Action::Finished,
            Phase::Failed => self.refuse(),
        }
    }

    fn end(&self) -> (end: usize)
        ensures
            end == self@.end(),
    {
        proof {
            use_type_invariant(self);
        }
        self.end_from(self.progress.cursor)
    }

    fn end_from(&self, start: usize) -> (end: usize)
        requires
            start <= self@.len(),
        ensures
            end == batch_end(start as nat, self@.len(), self@.limit),
    {
        if self.limit <= self.pending.len() - start {
            start + self.limit
        } else {
            self.pending.len()
        }
    }

    fn fail(&mut self)
        ensures
            final(self)@.wf(),
            final(self)@ == (SyncState { phase: Phase::Failed, ..old(self)@ }),
    {
        proof {
            use_type_invariant(&*self);
            lemma_calls_within_total(self@);
        }
        self.progress = Progress {
            cursor: self.progress.cursor,
            calls: self.progress.calls,
            phase: Phase::Failed,
        };
    }

    fn ids_between(&self, start: usize, end: usize) -> (ids: Vec<i32>)
        requires
            start <= end <= self.pending@.len(),
        ensures
            ids@ == ids_of(self.pending@.subrange(start as int, end as int)),
    {
        let mut ids: Vec<i32> = Vec::new();
        let mut i: usize = start;
        while i < end
            invariant
                start <= i <= end <= self.pending@.len(),
                ids@ == ids_of(self.pending@.subrange(start as int, i as int)),
            decreases end - i,
        {
            ids.push(self.pending[i].id);
            i = i + 1;
        }
        ids
    }

    fn texts_between(&self, start: usize, end: usize) -> (texts: Vec<String>)
        requires
            start <= end <= self.pending@.len(),
        ensures
            text_views(texts@) == texts_of(self.pending@.subrange(start as int, end as int)),
    {
        let mut texts: Vec<String> = Vec::new();
        let mut i: usize = start;
        while i < end
            invariant
                start <= i <= end <= self.pending@.len(),
                texts@.len() == i - start,
                text_views(texts@) == texts_of(self.pending@.subrange(start as int, i as int)),
            decreases end - i,
        {
            let ghost before = texts@;
            let text = self.pending[i].text.clone();
            texts.push(text);
            i = i + 1;
            assert(text_views(texts@) =~= texts_of(self.pending@.subrange(start as int, i as int))) by {
                let batch = self.pending@.subrange(start as int, i as int);
                let shorter = self.pending@.subrange(start as int, i - 1);
                assert forall|k: int| 0 <= k < batch.len() implies text_views(texts@)[k]
                    == batch[k].text@ by {
                    if k < before.len() {
                        assert(texts@[k] == before[k]);
                        assert(text_views(before)[k] == texts_of(shorter)[k]);
                        assert(shorter[k] == batch[k]);
                    } else {
                        assert(texts@[k] == text);
                        assert(batch[k] == self.pending@[i - 1]);
                    }
                }
            }
        }
        texts
    }

    fn advance<V>(&mut self, cursor: usize) -> (action: Action<V>)
        requires
            old(self)@.phase is Ready && cursor == old(self)@.cursor || old(self)@.phase is Storing
                && cursor == old(self)@.end(),
        ensures
            final(self)@.wf(),
            advanced(
                (SyncState { cursor: cursor as nat, phase: Phase::Ready, ..old(self)@ }),
                final(self)@,
                action,
            ),
    {
        proof {
            use_type_invariant(&*self);
        }
        let len: usize = self.pending.len();
        if cursor == len {
            proof {
                lemma_batch_count_zero(0, self@.limit);
            }
            self.progress = Progress { cursor, calls: self.progress.calls, phase: Phase::Finished };
            return Action::Finished;
        }
        let end: usize = self.end_from(cursor);
        let mut at: usize = cursor;
        while at < end && !self.pending[at].text.as_str().is_empty()
            invariant
                cursor <= at <= end <= self.pending@.len(),
                forall|i: int| cursor <= i < at ==> text_len()(#[trigger] self.pending@[i]) != 0,
            decreases end - at,
        {
            at = at + 1;
        }
        proof {
            let batch = self.pending@.subrange(cursor as int, end as int);
            lemma_first_with(batch, text_len(), 0);
            let found = first_with(batch, text_len(), 0);
            if found < at - cursor {
                assert(batch[found] == self.pending@[cursor + found]);
            }
            if at - cursor < found {
                assert(batch[at - cursor] == self.pending@[at as int]);
            }
            lemma_calls_within_total(self@);
        }
        if at < end {
            let id: i32 = self.pending[at].id;
            self.progress = Progress { cursor, calls: self.progress.calls, phase: Phase::Failed };
            return Action::Failed { error: SyncError::Data { id } };
        }
        let ids = self.ids_between(cursor, end);
        let texts = self.texts_between(cursor, end);
        let request = embedding_request(texts);
        proof {
            lemma_batch_count_step((len - cursor) as nat, self@.limit);
            lemma_calls_within_total(self@);
            lemma_count_within_items(self@.len(), self@.limit);
        }
        self.progress = Progress { cursor, calls: self.progress.calls + 1, phase: Phase::Embedding };
        Action::Embed { ids, request }
    }

    fn give_up(&mut self) -> (ids: Vec<i32>)
        requires
            old(self)@.phase is Embedding,
        ensures
            final(self)@.wf(),
            final(self)@ == (SyncState { phase: Phase::Failed, ..old(self)@ }),
            ids@ == ids_of(old(self)@.batch()),
    {
        proof {
            use_type_invariant(&*self);
        }
        let end: usize = self.end();
        let ids = self.ids_between(self.progress.cursor, end);
        self.fail();
        ids
    }

    fn store_failed<V>(&mut self, id: i32) -> (action: Action<V>)
        requires
            old(self)@.phase is Storing,
        ensures
            final(self)@.wf(),
            transition(old(self)@, (Event::<V>::StoreFailed { id }), final(self)@, action),
    {
        proof {
            use_type_invariant(&*self);
        }
        let start: usize = self.progress.cursor;
        let end: usize = self.end();
        let mut at: usize = start;
        while at < end && self.pending[at].id != id
            invariant
                start <= at <= end <= self.pending@.len(),
                forall|i: int| start <= i < at ==> (#[trigger] self.pending@[i]).id != id,
            decreases end - at,
        {
            at = at + 1;
        }
        proof {
            let batch = self@.batch();
            lemma_first_with(batch, pending_id(), id as int);
            let found = first_with(batch, pending_id(), id as int);
            if found < at - start {
                assert(batch[found] == self.pending@[start + found]);
            }
            if at - start < found {
                assert(batch[at - start] == self.pending@[at as int]);
            }
            lemma_calls_within_total(self@);
        }
        if at < end {
            self.progress = Progress { cursor: at, calls: self.progress.calls, phase: Phase::Failed };
            Action::Failed { error: SyncError::Store { id } }
        } else {
            self.refuse()
        }
    }

    fn refuse<V>(&mut self) -> (action: Action<V>)
        requires
            !(old(self)@.phase is Finished),
        ensures
            final(self)@.wf(),
            refused(old(self)@, final(self)@, action),
    {
        self.fail();
        Action::Failed { error: SyncError::OutOfTurn }
    }

    fn pair<V>(&self, end: usize, vectors: Vec<V>) -> (updates: Vec<EmbeddingUpdate<V>>)
        requires
            end == self@.end(),
            vectors@.len() == self@.batch().len(),
        ensures
            updates@ == paired(self@.batch(), vectors@),
    {
        proof {
            use_type_invariant(self);
        }
        let mut updates: Vec<EmbeddingUpdate<V>> = Vec::new();
        let ghost all = vectors@;
        let start: usize = self.progress.cursor;
        for vector in it: vectors
            invariant
                start == self.progress.cursor,
                start <= end <= self.pending@.len(),
                all.len() == end - start,
                it.seq() == all,
                updates@.len() == it.index(),
                forall|k: int|
                    0 <= k < updates@.len() ==> updates@[k] == (EmbeddingUpdate {
                        id: self.pending@[start + k].id,
                        vector: all[k],
                    }),
        {
            let i: usize = start + updates.len();
            updates.push(EmbeddingUpdate { id: self.pending[i].id, vector });
        }
        updates
    }
}

/// Starts the run that gives every keyword without an embedding one, with
/// the provider's default limit on a batch. Without a credential for the
/// provider no run starts.
pub fn insert_keyword_embeddings<V>(
    keywords: &Vec<Keyword<V>>,
    credential: Option<&str>,
) -> (res: Result<Synchronizer, SyncError>)
    ensures
        credential is None ==> res == Err::<Synchronizer, SyncError>(SyncError::Configuration),
        credential is Some ==> res is Ok,
        res matches Ok(run) ==> run@.wf() && run@ == initial(
            run@.pending,
            DEFAULT_BATCH_LIMIT as nat,
        ) && pending_views(run@.pending) == pending_keywords(keywords@),
{
    if credential.is_none() {
        return Err(SyncError::Configuration);
    }
    Synchronizer::new(select_pending_keywords(keywords), DEFAULT_BATCH_LIMIT)
}

/// Starts the run that gives every student that has keywords and no
/// embedding one, with the provider's default limit on a batch. Without a
/// credential for the provider no run starts.
pub fn insert_student_embeddings<V>(
    students: &Vec<Student<V>>,
    relations: &Vec<StudentKeyword>,
    keywords: &Vec<Keyword<V>>,
    credential: Option<&str>,
) -> (res: Result<Synchronizer, SyncError>)
    ensures
        credential is None ==> res == Err::<Synchronizer, SyncError>(SyncError::Configuration),
        credential is Some ==> res is Ok,
        res matches Ok(run) ==> run@.wf() && run@ == initial(
            run@.pending,
            DEFAULT_BATCH_LIMIT as nat,
        ) && pending_views(run@.pending) == pending_students(students@, relations@, keywords@),
{
    if credential.is_none() {
        return Err(SyncError::Configuration);
    }
    Synchronizer::new(select_pending_students(students, relations, keywords), DEFAULT_BATCH_LIMIT)
}

/// What a run for entities of a kind takes up.
pub open spec fn pending_of<V>(
    kind: EntityKind,
    students: Seq<Student<V>>,
    relations: Seq<StudentKeyword>,
    keywords: Seq<Keyword<V>>,
) -> Seq<PendingView> {
    match kind {
        EntityKind::Keyword => pending_keywords(keywords),
        EntityKind::Student => pending_students(students, relations, keywords),
    }
}

/// Starts the run that synchronizes the entities of a kind: it takes up
/// those that are pending and cuts them into batches of the provider's
/// default limit. Without a credential for the provider no run starts.
pub fn synchronize<V>(
    kind: EntityKind,
    students: &Vec<Student<V>>,
    relations: &Vec<StudentKeyword>,
    keywords: &Vec<Keyword<V>>,
    credential: Option<&str>,
) -> (res: Result<Synchronizer, SyncError>)
    ensures
        credential is None ==> res == Err::<Synchronizer, SyncError>(SyncError::Configuration),
        credential is Some ==> res is Ok,
        res matches Ok(run) ==> run@.wf() && run@ == initial(
            run@.pending,
            DEFAULT_BATCH_LIMIT as nat,
        ) && pending_views(run@.pending) == pending_of(kind, students@, relations@, keywords@),
{
    match kind {
        EntityKind::Keyword => insert_keyword_embeddings(keywords, credential),
        EntityKind::Student => insert_student_embeddings(students, relations, keywords, credential),
    }
}

/// A run of the machine: each state but the first is the one in which the
/// machine was left when it answered the event before it with the action
/// before it.
pub open spec fn is_run<V>(
    states: Seq<SyncState>,
    events: Seq<Event<V>>,
    actions: Seq<Action<V>>,
) -> bool {
    &&& states.len() == events.len() + 1
    &&& actions.len() == events.len()
    &&& forall|i: int|
        0 <= i < events.len() ==> transition(
            #[trigger] states[i],
            events[i],
            states[i + 1],
            actions[i],
        )
}

/// The number of provider calls among the actions.
pub open spec fn embed_count<V>(actions: Seq<Action<V>>) -> nat
    decreases actions.len(),
{
    if actions.len() == 0 {
        0
    } else if actions.last() is Embed {
        embed_count(actions.drop_last()) + 1
    } else {
        embed_count(actions.drop_last())
    }
}

/// One step keeps the state well formed and the selection and the limit as
/// they are, never moves the cursor back, and counts a call exactly when it
/// hands one out. A call carries at least one text and no more than the
/// limit; the updates of a batch are as many as its texts.
pub proof fn lemma_step<V>(pre: SyncState, event: Event<V>, post: SyncState, action: Action<V>)
    requires
        pre.wf(),
        transition(pre, event, post, action),
    ensures
        post.wf(),
        post.pending == pre.pending,
        post.limit == pre.limit,
        pre.cursor <= post.cursor,
        post.calls == pre.calls + (if action is Embed { 1nat } else { 0nat }),
        action matches Action::Embed { ids, request } ==> 1 <= ids@.len() <= pre.limit
            && request_texts(request).len() == ids@.len(),
        action matches Action::Store { updates } ==> 1 <= updates@.len() <= pre.limit,
{
    lemma_calls_within_total(pre);
    lemma_batch_count_zero(0, pre.limit);
    if pre.cursor < pre.len() {
        lemma_batch_count_step((pre.len() - pre.cursor) as nat, pre.limit);
        if pre.end() < pre.len() {
            lemma_batch_count_step((pre.len() - pre.end()) as nat, pre.limit);
        }
    }
    if pre.phase is Storing && event is StoreFailed {
        lemma_first_with(pre.batch(), pending_id(), event->StoreFailed_id as int);
    }
}

/// Along a run the calls that the state counts are the calls that were
/// handed out.
pub proof fn lemma_run<V>(states: Seq<SyncState>, events: Seq<Event<V>>, actions: Seq<Action<V>>)
    requires
        is_run(states, events, actions),
        states[0].wf(),
    ensures
        states.last().wf(),
        states.last().pending == states[0].pending,
        states.last().limit == states[0].limit,
        states.last().calls == states[0].calls + embed_count(actions),
    decreases events.len(),
{
    if events.len() > 0 {
        let n = events.len() - 1;
        assert(is_run(states.drop_last(), events.drop_last(), actions.drop_last()));
        lemma_run(states.drop_last(), events.drop_last(), actions.drop_last());
        assert(states.drop_last().last() == states[n]);
        assert(transition(states[n], events[n], states[n + 1], actions[n]));
        lemma_step(states[n], events[n], states[n + 1], actions[n]);
    }
}

/// A run that starts with `pending` and reaches its end has handed out
/// `pending.len() / limit` provider calls, rounded up, and none of them
/// carries more than `limit` texts.
pub proof fn lemma_complete_run<V>(
    pending: Seq<Pending>,
    limit: nat,
    states: Seq<SyncState>,
    events: Seq<Event<V>>,
    actions: Seq<Action<V>>,
)
    requires
        limit > 0,
        is_run(states, events, actions),
        states[0] == initial(pending, limit),
        states.last().phase is Finished,
    ensures
        embed_count(actions) == batch_count(pending.len(), limit),
        forall|i: int|
            0 <= i < actions.len() ==> ((#[trigger] actions[i]) matches Action::Embed { ids, request }
                ==> 1 <= ids@.len() <= limit && request_texts(request).len() == ids@.len()),
{
    lemma_run(states, events, actions);
    assert forall|i: int| 0 <= i < actions.len() implies ((#[trigger] actions[i]) matches Action::Embed {
        ids,
        request,
    } ==> 1 <= ids@.len() <= limit && request_texts(request).len() == ids@.len()) by {
        assert(is_run(states.take(i + 1), events.take(i), actions.take(i)));
        lemma_run(states.take(i + 1), events.take(i), actions.take(i));
        assert(states.take(i + 1).last() == states[i]);
        assert(transition(states[i], events[i], states[i + 1], actions[i]));
        lemma_step(states[i], events[i], states[i + 1], actions[i]);
    }
}

/// The updates that the actions hand to the store, in order.
pub open spec fn stored<V>(actions: Seq<Action<V>>) -> Seq<EmbeddingUpdate<V>>
    decreases actions.len(),
{
    if actions.len() == 0 {
        Seq::empty()
    } else {
        match actions.last() {
            Action::Store { updates } => stored(actions.drop_last()) + updates@,
            _ => stored(actions.drop_last()),
        }
    }
}

/// What a run has handed to the store are updates for the pending entities
/// at the front of the selection, one for each and in their order, and the
/// cursor is not ahead of them: it is behind them all unless a batch is
/// being written or the run was aborted.
pub proof fn lemma_run_stores<V>(
    pending: Seq<Pending>,
    limit: nat,
    states: Seq<SyncState>,
    events: Seq<Event<V>>,
    actions: Seq<Action<V>>,
)
    requires
        limit > 0,
        is_run(states, events, actions),
        states[0] == initial(pending, limit),
    ensures
        states.last().cursor <= stored(actions).len() <= pending.len(),
        states.last().phase is Storing ==> stored(actions).len() == states.last().end(),
        !(states.last().phase is Storing) && !(states.last().phase is Failed) ==> stored(
            actions,
        ).len() == states.last().cursor,
        forall|i: int| 0 <= i < stored(actions).len() ==> (#[trigger] stored(actions)[i]).id
            == pending[i].id,
    decreases events.len(),
{
    lemma_batch_count_zero(0, limit);
    if events.len() > 0 {
        let n = events.len() - 1;
        let earlier = actions.drop_last();
        assert(is_run(states.drop_last(), events.drop_last(), earlier));
        lemma_run_stores(pending, limit, states.drop_last(), events.drop_last(), earlier);
        lemma_run(states.drop_last(), events.drop_last(), earlier);
        assert(states.drop_last().last() == states[n]);
        assert(states.drop_last()[0] == states[0]);
        assert(transition(states[n], events[n], states[n + 1], actions[n]));
        lemma_step(states[n], events[n], states[n + 1], actions[n]);
        if states[n].phase is Storing {
            lemma_first_with(
                states[n].batch(),
                pending_id(),
                events[n]->StoreFailed_id as int,
            );
        }
        assert forall|i: int| 0 <= i < stored(actions).len() implies (#[trigger] stored(
            actions,
        )[i]).id == pending[i].id by {
            if i >= stored(earlier).len() {
                let batch = states[n].batch();
                assert(stored(actions)[i].id == batch[i - states[n].cursor].id);
            }
        }
    }
}

/// Once a run has been aborted, nothing more is handed out: every later
/// event is answered with a failure, and the state stays as the failure left
/// it. Unless it was the store that failed, the cursor is where it was,
/// behind the last batch that was written.
pub proof fn lemma_nothing_after_failure<V>(
    states: Seq<SyncState>,
    events: Seq<Event<V>>,
    actions: Seq<Action<V>>,
    i: int,
    j: int,
)
    requires
        is_run(states, events, actions),
        0 <= i < j < actions.len(),
        actions[i] is Failed,
    ensures
        actions[j] is Failed,
        states[j + 1] == states[i + 1],
        states[i + 1].phase is Failed,
        !(actions[i]->error is Store) && !(states[i].phase is Storing) ==> states[i + 1].cursor
            == states[i].cursor,
    decreases j - i,
{
    assert(transition(states[i], events[i], states[i + 1], actions[i]));
    if j > i + 1 {
        lemma_nothing_after_failure(states, events, actions, i, j - 1);
    }
    assert(transition(states[j], events[j], states[j + 1], actions[j]));
}

/// A run never makes more provider calls than a complete run takes.
pub proof fn lemma_calls_within_total(state: SyncState)
    requires
        state.wf(),
    ensures
        state.calls <= state.total_calls(),
{
}

/// There are no more batches than items.
pub proof fn lemma_count_within_items(n: nat, limit: nat)
    requires
        limit > 0,
    ensures
        batch_count(n, limit) <= n,
    decreases n,
{
    if n == 0 {
        lemma_batch_count_zero(0, limit);
    } else {
        lemma_batch_count_step(n, limit);
        lemma_count_within_items((n - batch_end(0, n, limit)) as nat, limit);
    }
}

} // verus!
