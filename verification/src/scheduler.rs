//! The continuous-batching scheduler.
//!
//! Each step is built, executed by a backend, and completed. The KV manager is handed in,
//! so that the caller decides how it is shared.

use crate::abi::{
    lemma_prompt_total_take, prompt_total, DecodeOutput, FinishReason, RequestState,
    SamplingParams, SamplingState, ScheduledBatch, SequenceRequest, StepMetrics,
};
use crate::buffer::UnifiedBuffer;
use crate::completion::{CompletionEvent, CompletionRouter, CompletionSink, CompletionSinkId};
use crate::kv_manager::AienKvManager;
use crate::kv_state::KvState;
use crate::maps::{ascending, in_order, lists, sorted_keys, value_mut, view_all, view_values};
use crate::platform::InferenceWork;
use crate::scheduler_state::{
    is_victim, victim, DraftState, Round, RunningState, SchedulerConfig, SchedulerMetrics,
    SchedulerState, Settling,
};
use crate::sequence::{
    BatchPlan, DecodeItem, PrefillSpan, PromptHandle, SequenceArena, SequencePhase, SequenceRecord,
};
use crate::text::{decimal, numbered};
use std::collections::{HashMap, VecDeque};
use vstd::prelude::*;

verus! {

broadcast use {
    vstd::std_specs::hash::group_hash_axioms,
    crate::maps::group_view_values,
    crate::maps::group_view_all,
};

/// A sequence that takes part in steps.
#[derive(Debug)]
pub struct RunningSequence {
    pub request: SequenceRequest,
    pub tokens_generated: usize,
    pub prompt_tokens_prefilled: usize,
    pub is_prefilled: bool,
}

impl View for RunningSequence {
    type V = RunningState;

    open spec fn view(&self) -> RunningState {
        RunningState {
            request: self.request@,
            tokens_generated: self.tokens_generated,
            prompt_tokens_prefilled: self.prompt_tokens_prefilled,
            is_prefilled: self.is_prefilled,
        }
    }
}

impl Clone for RunningSequence {
    fn clone(&self) -> (r: Self)
        ensures
            r@ == self@,
    {
        RunningSequence {
            request: self.request.clone(),
            tokens_generated: self.tokens_generated,
            prompt_tokens_prefilled: self.prompt_tokens_prefilled,
            is_prefilled: self.is_prefilled,
        }
    }
}

/// A batch in the making.
struct BatchDraft {
    prefill_requests: Vec<SequenceRequest>,
    decode_requests: Vec<u64>,
    block_tables: HashMap<u64, Vec<usize>>,
    prefill_budget: usize,
}

impl View for BatchDraft {
    type V = DraftState;

    closed spec fn view(&self) -> DraftState {
        DraftState {
            prefill: view_all(self.prefill_requests@),
            decode: self.decode_requests@,
            tables: view_values(self.block_tables@),
            budget: self.prefill_budget,
        }
    }
}

/// Admits, runs, preempts and finishes sequences.
pub struct AienScheduler<S: CompletionSink> {
    config: SchedulerConfig,
    waiting_queue: VecDeque<SequenceRequest>,
    preempted_queue: VecDeque<SequenceRequest>,
    running_sequences: HashMap<u64, RunningSequence>,
    step_id: u64,
    metrics: SchedulerMetrics,
    arena: SequenceArena,
    completion_router: CompletionRouter<S>,
}

impl<S: CompletionSink> View for AienScheduler<S> {
    type V = SchedulerState;

    closed spec fn view(&self) -> SchedulerState {
        SchedulerState {
            config: self.config,
            waiting: view_all(self.waiting_queue@),
            preempted: view_all(self.preempted_queue@),
            running: view_values(self.running_sequences@),
            step_id: self.step_id,
            metrics: self.metrics,
            arena: self.arena@,
            router: self.completion_router@,
        }
    }
}

/// The draft keeps to the limits so far.
spec fn within_limits(r: Round) -> bool {
    &&& r.draft.budget <= r.sched.config.max_prefill_tokens
    &&& r.entries() <= r.sched.config.max_batch_size
}

/// Prompts are no longer than a `usize` counts.
proof fn lemma_prompts_fit(queue: Seq<SequenceRequest>)
    ensures
        forall|i: int|
            0 <= i < queue.len() ==> (#[trigger] view_all(queue)[i]).prompt_tokens.len()
                <= usize::MAX,
{
    assert forall|i: int| 0 <= i < queue.len() implies (#[trigger] view_all(
        queue,
    )[i]).prompt_tokens.len() <= usize::MAX by {
        assert(queue[i].prompt_tokens.len() == queue[i].prompt_tokens@.len());
    }
}

/// Two victims are one.
proof fn lemma_victim_unique(running: Map<u64, RunningState>, id: u64)
    requires
        is_victim(running, id),
    ensures
        victim(running) == id,
{
    let v = victim(running);
    assert(is_victim(running, v));
    assert(running.contains_key(v));
    assert(running.contains_key(id));
}

impl KvState {
    /// Room for a further token, and what is left of it then.
    pub proof fn lemma_append_room(self, seq: u64, n: int)
        requires
            self.wf(),
            self.append_room(n),
            n >= 1,
        ensures
            self.append_fits(seq),
            self.append_or_keep(seq).append_room(n - 1),
    {
        if self.append_possible(seq) {
            assert(self.table_wf(seq, self.tables[seq]));
            let ids = self.tables[seq].block_ids;
            if ids.len() > 0 {
                assert(ids[ids.len() - 1] < self.total_blocks);
            }
            if self.append_takes_block(seq) {
                self.lemma_take_block_wf();
            }
            let after = self.append(seq);
            assert forall|s: u64| #[trigger] after.tables.contains_key(
                s,
            ) implies after.tables[s].total_tokens + (n - 1) <= usize::MAX by {
                assert(self.tables.contains_key(s));
            }
        }
    }

    /// Letting go of a sequence keeps the room for further tokens.
    pub proof fn lemma_free_room(self, seq: u64, n: int)
        requires
            self.append_room(n),
        ensures
            self.free_sequence(seq).append_room(n),
    {
    }
}

impl<S: CompletionSink> AienScheduler<S> {
    pub fn new(config: SchedulerConfig) -> (r: Self)
        ensures
            r@ == SchedulerState::initial(config),
            r@.wf(),
    {
        AienScheduler {
            config,
            waiting_queue: VecDeque::new(),
            preempted_queue: VecDeque::new(),
            running_sequences: HashMap::new(),
            step_id: 0,
            metrics: SchedulerMetrics::default(),
            arena: SequenceArena::new(),
            completion_router: CompletionRouter::new(),
        }
    }

    /// Queues a request.
    pub fn submit_request(&mut self, request: SequenceRequest)
        ensures
            final(self)@ == old(self)@.submit_request(request@),
            old(self)@.wf() ==> final(self)@.wf(),
    {
        let record = SequenceRecord::from_request(request.clone(), None);
        let _ = self.arena.insert(record);
        self.waiting_queue.push_back(request);
    }

    /// Queues work under a new identifier, with default sampling where none is given.
    pub fn submit_work(
        &mut self,
        work: InferenceWork,
        prompt: PromptHandle,
        sampling_params: Option<SamplingParams>,
        sink_id: Option<CompletionSinkId>,
    ) -> (r: Result<(), String>)
        ensures
            match r {
                Ok(_) => {
                    &&& !old(self)@.arena.records.contains_key(work.sequence)
                    &&& final(self)@ == old(self)@.submit_work(
                        work,
                        (*prompt)@,
                        match sampling_params {
                            Some(p) => p@,
                            None => SamplingState::initial(),
                        },
                        sink_id,
                    )
                },
                Err(e) => {
                    &&& old(self)@.arena.records.contains_key(work.sequence)
                    &&& final(self)@ == old(self)@
                    &&& e@ == "Sequence "@ + decimal(work.sequence as nat)
                        + " already exists in arena"@
                },
            },
            old(self)@.wf() ==> final(self)@.wf(),
    {
        let sampling = match sampling_params {
            Some(p) => p,
            None => SamplingParams::default(),
        };
        let record = SequenceRecord::from_work(work, prompt, sampling, sink_id);
        let req = record.to_request();
        match self.arena.insert(record) {
            Ok(_) => {},
            Err(e) => {
                return Err(e);
            },
        }
        self.waiting_queue.push_back(req);
        Ok(())
    }

    pub fn arena(&self) -> (r: &SequenceArena)
        ensures
            r@ == self@.arena,
    {
        &self.arena
    }

    /// The arena; what the borrower leaves in it is the scheduler's.
    pub fn arena_mut(&mut self) -> (r: &mut SequenceArena)
        ensures
            r@ == old(self)@.arena,
            final(self)@ == (SchedulerState { arena: final(r)@, ..old(self)@ }),
    {
        &mut self.arena
    }

    pub fn completion_router(&self) -> (r: &CompletionRouter<S>)
        ensures
            r@ == self@.router,
    {
        &self.completion_router
    }

    /// The router; what the borrower leaves in it is the scheduler's.
    pub fn completion_router_mut(&mut self) -> (r: &mut CompletionRouter<S>)
        ensures
            r@ == old(self)@.router,
            final(self)@ == (SchedulerState { router: final(r)@, ..old(self)@ }),
    {
        &mut self.completion_router
    }

    pub fn register_completion_sink(&mut self, sink: S) -> (r: CompletionSinkId)
        requires
            old(self)@.router.next_id < u64::MAX,
        ensures
            r.0 == old(self)@.router.next_id,
            final(self)@ == (SchedulerState {
                router: old(self)@.router.register(sink.received(), sink.target()),
                ..old(self)@
            }),
            old(self)@.wf() ==> final(self)@.wf(),
    {
        self.completion_router.register(sink)
    }

    pub fn waiting_count(&self) -> (r: usize)
        ensures
            r == self@.waiting.len(),
    {
        self.waiting_queue.len()
    }

    pub fn preempted_count(&self) -> (r: usize)
        ensures
            r == self@.preempted.len(),
    {
        self.preempted_queue.len()
    }

    pub fn running_count(&self) -> (r: usize)
        ensures
            r == self@.running.dom().len(),
    {
        self.running_sequences.len()
    }

    pub fn metrics(&self) -> (r: &SchedulerMetrics)
        ensures
            *r == self@.metrics,
    {
        &self.metrics
    }

    /// Nothing waits, runs or is preempted.
    pub fn is_idle(&self) -> (r: bool)
        ensures
            r == self@.idle(),
    {
        self.waiting_count() == 0 && self.running_count() == 0 && self.preempted_count() == 0
    }

    /// Branches a running sequence without a sink of its own.
    pub fn fork_subagent<B: UnifiedBuffer>(
        &mut self,
        kv: &mut AienKvManager<B>,
        parent_id: u64,
        child_id: u64,
    ) -> (r: Result<(), String>)
        requires
            old(kv)@.wf(),
            old(kv)@.fork_fits(parent_id),
        ensures
            fork_result(old(self)@, old(kv)@, parent_id, child_id, None, final(self)@, final(kv)@, r),
            final(kv)@.wf(),
            old(self)@.wf() ==> final(self)@.wf(),
    {
        self.fork_subagent_with_sink(kv, parent_id, child_id, None)
    }

    /// Branches a running sequence: the branch shares its parent's blocks and prompt and
    /// goes on from the same point.
    pub fn fork_subagent_with_sink<B: UnifiedBuffer>(
        &mut self,
        kv: &mut AienKvManager<B>,
        parent_id: u64,
        child_id: u64,
        sink_id: Option<CompletionSinkId>,
    ) -> (r: Result<(), String>)
        requires
            old(kv)@.wf(),
            old(kv)@.fork_fits(parent_id),
        ensures
            fork_result(
                old(self)@,
                old(kv)@,
                parent_id,
                child_id,
                sink_id,
                final(self)@,
                final(kv)@,
                r,
            ),
            final(kv)@.wf(),
            old(self)@.wf() ==> final(self)@.wf(),
    {
        let parent = match self.running_sequences.get(&parent_id) {
            Some(p) => p.clone(),
            None => {
                return Err(
                    numbered("Parent sequence ", parent_id, " not found in running pool"),
                );
            },
        };
        match kv.fork_sequence(parent_id, child_id) {
            Ok(_) => {},
            Err(e) => {
                return Err(e);
            },
        }
        if self.arena.contains(parent_id) {
            let _ = self.arena.fork(parent_id, child_id, sink_id);
        }
        let mut child = parent;
        child.request.request_id = child_id;
        self.running_sequences.insert(child_id, child);
        Ok(())
    }

    /// The running sequence of the lowest priority; of several, the one with the smallest
    /// identifier.
    fn pick_victim(&self) -> (r: u64)
        requires
            self@.running.dom().len() > 0,
        ensures
            is_victim(self@.running, r),
            r == victim(self@.running),
    {
        let ids = sorted_keys(&self.running_sequences);
        let ghost running = self@.running;
        proof {
            assert(ids@.len() > 0) by {
                if ids@.len() == 0 {
                    assert(ids@.to_set() =~= Set::<u64>::empty());
                }
            }
        }
        let mut best: u64 = ids[0];
        let mut best_priority: u8 = self.priority_of(&ids, 0);
        let mut i: usize = 1;
        while i < ids.len()
            invariant
                1 <= i <= ids@.len(),
                ascending(ids@),
                ids@.to_set() == running.dom(),
                running == self@.running,
                running.contains_key(best),
                best_priority == running[best].request.priority,
                forall|j: int|
                    #![trigger ids@[j]]
                    0 <= j < i ==> best_priority < running[ids@[j]].request.priority
                        || best_priority == running[ids@[j]].request.priority && best <= ids@[j],
                exists|j: int| 0 <= j < i && ids@[j] == best,
            decreases ids@.len() - i,
        {
            let p: u8 = self.priority_of(&ids, i);
            assert(ids@.to_set().contains(ids@[i as int]));
            if p < best_priority {
                best = ids[i];
                best_priority = p;
            } else {
                let ghost j = choose|j: int| 0 <= j < i && ids@[j] == best;
                assert(ids@[j] < ids@[i as int]);
            }
            i = i + 1;
        }
        proof {
            assert forall|other: u64| #[trigger]
                running.contains_key(other) implies running[best].request.priority
                < running[other].request.priority || running[best].request.priority
                == running[other].request.priority && best <= other by {
                assert(ids@.to_set().contains(other));
                let j = choose|j: int| 0 <= j < ids@.len() && ids@[j] == other;
                assert(ids@[j] == other);
            }
            lemma_victim_unique(running, best);
        }
        best
    }

    /// The priority of a running sequence, by its place among the running identifiers.
    fn priority_of(&self, ids: &Vec<u64>, i: usize) -> (r: u8)
        requires
            i < ids@.len(),
            ids@.to_set() == self@.running.dom(),
        ensures
            self@.running.contains_key(ids@[i as int]),
            r == self@.running[ids@[i as int]].request.priority,
    {
        let id: u64 = ids[i];
        assert(ids@.to_set().contains(ids@[i as int]));
        match self.running_sequences.get(&id) {
            Some(seq) => seq.request.priority,
            None => {
                assert(false);
                0
            },
        }
    }

    /// Preempts a running sequence of the lowest priority: its blocks are let go of and its
    /// request is queued again.
    fn preempt_victim<B: UnifiedBuffer>(&mut self, kv: &mut AienKvManager<B>)
        requires
            old(kv)@.wf(),
            old(self)@.running.dom().len() > 0,
            old(self)@.metrics.preempted_requests < u64::MAX,
        ensures
            final(self)@ == Round::start(old(self)@, old(kv)@).preempt().sched,
            final(kv)@ == Round::start(old(self)@, old(kv)@).preempt().kv,
            final(kv)@.wf(),
            old(self)@.wf() ==> final(self)@.wf(),
    {
        let id: u64 = self.pick_victim();
        match self.running_sequences.remove(&id) {
            Some(running) => {
                kv.free_sequence(id);
                self.arena.set_phase(id, SequencePhase::Preempted);
                self.preempted_queue.push_back(running.request);
                self.metrics.preempted_requests = self.metrics.preempted_requests + 1;
            },
            None => {
                assert(false);
            },
        }
    }

    /// The batch takes further running sequences.
    fn takes_more(&self, draft: &BatchDraft) -> (r: bool)
        requires
            draft@.budget <= self@.config.max_prefill_tokens,
            draft@.decode.len() + draft@.prefill.len() <= self@.config.max_batch_size,
        ensures
            forall|kv: KvState|
                r == !({
                    let round = #[trigger] Round::of(self@, kv, draft@);
                    round.full() || round.tokens() >= self@.config.max_batch_tokens
                }),
    {
        let entries: usize = draft.decode_requests.len() + draft.prefill_requests.len();
        let tokens: u128 = (self.config.max_prefill_tokens - draft.prefill_budget) as u128
            + draft.decode_requests.len() as u128;
        entries < self.config.max_batch_size && tokens < self.config.max_batch_tokens as u128
    }

    /// Schedules a running sequence: a decode step, or the next chunk of its prompt.
    fn run_one<B: UnifiedBuffer>(
        &mut self,
        kv: &AienKvManager<B>,
        draft: &mut BatchDraft,
        id: u64,
    )
        requires
            old(self)@.running.contains_key(id),
            old(self)@.metrics.chunked_prefill_steps < u64::MAX,
            old(draft)@.budget <= old(self)@.config.max_prefill_tokens,
        ensures
            Round::of(final(self)@, kv@, final(draft)@) == Round::of(old(self)@, kv@, old(draft)@).run_one(id),
            old(self)@.wf() ==> final(self)@.wf(),
    {
        let ghost before = Round::of(self@, kv@, draft@);
        let seq = match self.running_sequences.get(&id) {
            Some(s) => s,
            None => {
                assert(false);
                return ;
            },
        };
        if seq.is_prefilled {
            match kv.get_block_table(id) {
                Some(table) => {
                    let ids = table.block_ids.clone();
                    assert(ids@ =~= table.block_ids@);
                    draft.block_tables.insert(id, ids);
                    draft.decode_requests.push(id);
                    self.arena.set_phase(id, SequencePhase::Decode);
                },
                None => {},
            }
        } else {
            let prompt_len: usize = seq.request.prompt_tokens.len();
            let remaining: usize = if seq.prompt_tokens_prefilled >= prompt_len {
                0
            } else {
                prompt_len - seq.prompt_tokens_prefilled
            };
            let mut chunk: usize = remaining;
            if chunk > self.config.prefill_chunk_size {
                chunk = self.config.prefill_chunk_size;
            }
            if chunk > draft.prefill_budget {
                chunk = draft.prefill_budget;
            }
            assert(chunk == before.next_chunk(id));
            if chunk > 0 {
                let from: usize = seq.prompt_tokens_prefilled;
                let part = seq.request.chunk(from, from + chunk);
                match kv.get_block_table(id) {
                    Some(table) => {
                        let ids = table.block_ids.clone();
                        assert(ids@ =~= table.block_ids@);
                        draft.block_tables.insert(id, ids);
                    },
                    None => {},
                }
                draft.prefill_requests.push(part);
                draft.prefill_budget = draft.prefill_budget - chunk;
                self.metrics.chunked_prefill_steps = self.metrics.chunked_prefill_steps + 1;
                self.arena.set_phase(id, SequencePhase::Prefill);
            }
        }
        assert(Round::of(self@, kv@, draft@) =~= before.run_one(id));
    }

    /// Schedules the running sequences by identifier, as far as the batch has room.
    fn run_all<B: UnifiedBuffer>(&mut self, kv: &AienKvManager<B>, draft: &mut BatchDraft)
        requires
            within_limits(Round::of(old(self)@, kv@, old(draft)@)),
            old(self)@.metrics.chunked_prefill_steps + old(self)@.running.dom().len() <= u64::MAX,
        ensures
            Round::of(final(self)@, kv@, final(draft)@) == Round::of(old(self)@, kv@, old(draft)@).run_all(in_order(old(self)@.running.dom())),
            within_limits(Round::of(final(self)@, kv@, final(draft)@)),
            final(self)@.running == old(self)@.running,
            final(self)@.config == old(self)@.config,
            final(self)@.waiting == old(self)@.waiting,
            final(self)@.preempted == old(self)@.preempted,
            final(self)@.metrics.admitted_requests == old(self)@.metrics.admitted_requests,
            old(self)@.wf() ==> final(self)@.wf(),
    {
        let ghost start = Round::of(self@, kv@, draft@);
        let ids = sorted_keys(&self.running_sequences);
        let mut i: usize = 0;
        proof {
            assert(ids@.subrange(0, ids@.len() as int) =~= ids@);
            assert(ids@.no_duplicates());
            ids@.unique_seq_to_set();
        }
        while i < ids.len() && self.takes_more(draft)
            invariant
                i <= ids@.len(),
                ids@.to_set() == start.sched.running.dom(),
                Round::of(self@, kv@, draft@).run_all(
                    ids@.subrange(i as int, ids@.len() as int),
                ) == start.run_all(ids@),
                within_limits(Round::of(self@, kv@, draft@)),
                self@.metrics.chunked_prefill_steps + (ids@.len() - i) <= u64::MAX,
                self@.running == start.sched.running,
                self@.config == start.sched.config,
                self@.waiting == start.sched.waiting,
                self@.preempted == start.sched.preempted,
                self@.metrics.admitted_requests == start.sched.metrics.admitted_requests,
                start.sched.wf() ==> self@.wf(),
            decreases ids@.len() - i,
        {
            let ghost rest = ids@.subrange(i as int, ids@.len() as int);
            proof {
                assert(ids@.to_set().contains(ids@[i as int]));
                assert(rest[0] == ids@[i as int]);
                assert(rest.subrange(1, rest.len() as int) =~= ids@.subrange(
                    i + 1,
                    ids@.len() as int,
                ));
            }
            self.run_one(kv, draft, ids[i]);
            i = i + 1;
        }
    }

    /// The batch has room for a request that starts with `chunk` prompt tokens.
    fn has_room(&self, draft: &BatchDraft, chunk: usize) -> (r: bool)
        requires
            draft@.budget <= self@.config.max_prefill_tokens,
            draft@.decode.len() + draft@.prefill.len() <= self@.config.max_batch_size,
        ensures
            r == (draft@.decode.len() + draft@.prefill.len() < self@.config.max_batch_size && chunk
                <= draft@.budget && self@.config.max_prefill_tokens - draft@.budget
                + draft@.decode.len() + chunk <= self@.config.max_batch_tokens),
    {
        let entries: usize = draft.decode_requests.len() + draft.prefill_requests.len();
        let tokens: u128 = (self.config.max_prefill_tokens - draft.prefill_budget) as u128
            + draft.decode_requests.len() as u128;
        entries < self.config.max_batch_size && chunk <= draft.prefill_budget && tokens
            + chunk as u128 <= self.config.max_batch_tokens as u128
    }

    /// Puts a request back at the front of its queue.
    fn put_back(&mut self, preempted: bool, request: SequenceRequest)
        ensures
            preempted ==> final(self).preempted_queue@ == seq![request]
                + old(self).preempted_queue@ && final(self).waiting_queue@
                == old(self).waiting_queue@,
            !preempted ==> final(self).waiting_queue@ == seq![request] + old(self).waiting_queue@
                && final(self).preempted_queue@ == old(self).preempted_queue@,
            final(self)@ == (SchedulerState {
                waiting: final(self)@.waiting,
                preempted: final(self)@.preempted,
                ..old(self)@
            }),
    {
        if preempted {
            self.preempted_queue.push_front(request);
        } else {
            self.waiting_queue.push_front(request);
        }
    }

    /// Admits the first request of a queue, if it can join the batch.
    fn admit_front<B: UnifiedBuffer>(
        &mut self,
        kv: &mut AienKvManager<B>,
        draft: &mut BatchDraft,
        preempted: bool,
    ) -> (r: bool)
        requires
            old(kv)@.wf(),
            Round::of(old(self)@, old(kv)@, old(draft)@).admit_fits(preempted),
            within_limits(Round::of(old(self)@, old(kv)@, old(draft)@)),
            old(self)@.metrics.admitted_requests < u64::MAX,
        ensures
            ({
                let before = Round::of(old(self)@, old(kv)@, old(draft)@);
                let after = Round::of(final(self)@, final(kv)@, final(draft)@);
                let queue = before.queue(preempted);
                &&& r == (queue.len() > 0 && before.admissible(queue[0]))
                &&& after == if r {
                    before.admit_one(preempted)
                } else {
                    before
                }
                &&& within_limits(after)
                &&& r ==> after.admit_fits(preempted)
            }),
            final(kv)@.wf(),
            old(self)@.wf() ==> final(self)@.wf(),
    {
        let ghost before = Round::of(self@, kv@, draft@);
        let ghost waiting = self.waiting_queue@;
        let ghost queued = self.preempted_queue@;
        let popped = if preempted {
            self.preempted_queue.pop_front()
        } else {
            self.waiting_queue.pop_front()
        };
        let req = match popped {
            Some(q) => q,
            None => {
                return false;
            },
        };
        proof {
            assert(before.queue(preempted)[0] == req@);
            if preempted {
                assert(seq![req] + queued.subrange(1, queued.len() as int) =~= queued);
            } else {
                assert(seq![req] + waiting.subrange(1, waiting.len() as int) =~= waiting);
            }
        }
        let prompt_len: usize = req.prompt_tokens.len();
        let chunk: usize = if self.config.chunk_prefill && prompt_len
            > self.config.prefill_chunk_size {
            self.config.prefill_chunk_size
        } else {
            prompt_len
        };
        assert(chunk == before.first_chunk(req@));
        if !self.has_room(draft, chunk) {
            self.put_back(preempted, req);
            return false;
        }
        let held: Option<(Vec<usize>, bool)> = match kv.get_block_table(req.request_id) {
            Some(table) => {
                let ids = table.block_ids.clone();
                assert(ids@ =~= table.block_ids@);
                Some((ids, table.total_tokens >= prompt_len))
            },
            None => None,
        };
        let (ids, cached): (Vec<usize>, bool) = match held {
            Some(h) => h,
            None => match kv.allocate_sequence(req.request_id, req.prompt_tokens.as_slice()) {
                Ok(ids) => (ids, false),
                Err(_) => {
                    self.put_back(preempted, req);
                    return false;
                },
            },
        };
        let id: u64 = req.request_id;
        let prefilled: bool = cached || chunk == prompt_len;
        draft.block_tables.insert(id, ids);
        self.arena.set_phase(
            id,
            if prefilled {
                SequencePhase::Decode
            } else {
                SequencePhase::Prefill
            },
        );
        if cached {
            draft.decode_requests.push(id);
        } else {
            draft.prefill_requests.push(req.chunk(0, chunk));
            draft.prefill_budget = draft.prefill_budget - chunk;
        }
        self.running_sequences.insert(
            id,
            RunningSequence {
                request: req,
                tokens_generated: 0,
                prompt_tokens_prefilled: if cached {
                    prompt_len
                } else {
                    0
                },
                is_prefilled: prefilled,
            },
        );
        self.metrics.admitted_requests = self.metrics.admitted_requests + 1;
        assert(Round::of(self@, kv@, draft@) =~= before.admit_one(preempted));
        true
    }

    /// Admits requests of a queue, in order, up to the first that cannot join the batch.
    fn admit_all<B: UnifiedBuffer>(
        &mut self,
        kv: &mut AienKvManager<B>,
        draft: &mut BatchDraft,
        preempted: bool,
    )
        requires
            old(kv)@.wf(),
            Round::of(old(self)@, old(kv)@, old(draft)@).admit_fits(preempted),
            within_limits(Round::of(old(self)@, old(kv)@, old(draft)@)),
            old(self)@.metrics.admitted_requests + old(self)@.preempted.len()
                + old(self)@.waiting.len() <= u64::MAX,
        ensures
            Round::of(final(self)@, final(kv)@, final(draft)@) == Round::of(old(self)@, old(kv)@, old(draft)@).admit_all(preempted),
            within_limits(Round::of(final(self)@, final(kv)@, final(draft)@)),
            final(self)@.metrics.admitted_requests + final(self)@.preempted.len()
                + final(self)@.waiting.len() <= u64::MAX,
            preempted ==> final(self)@.waiting == old(self)@.waiting,
            final(kv)@.wf(),
            old(self)@.wf() ==> final(self)@.wf(),
    {
        let ghost start = Round::of(self@, kv@, draft@);
        let mut left: usize = if preempted {
            self.preempted_queue.len()
        } else {
            self.waiting_queue.len()
        };
        let mut open: bool = left > 0;
        while open
            invariant
                open ==> left > 0,
                open ==> Round::of(self@, kv@, draft@).admit_fits(preempted),
                kv@.wf(),
                left == Round::of(self@, kv@, draft@).queue(preempted).len(),
                Round::of(self@, kv@, draft@).admit_all(preempted)
                    == start.admit_all(preempted),
                !open ==> Round::of(self@, kv@, draft@)
                    == start.admit_all(preempted),
                within_limits(Round::of(self@, kv@, draft@)),
                self@.metrics.admitted_requests + self@.preempted.len() + self@.waiting.len()
                    <= u64::MAX,
                preempted ==> self@.waiting == start.sched.waiting,
                start.sched.wf() ==> self@.wf(),
            decreases
                left,
                if open {
                    1int
                } else {
                    0
                },
        {
            open = self.admit_front(kv, draft, preempted);
            if open {
                left = left - 1;
                open = left > 0;
            }
        }
    }

    /// Builds the batch of the next step.
    pub fn build_scheduled_batch<B: UnifiedBuffer>(&mut self, kv: &mut AienKvManager<B>) -> (r:
        Result<Option<ScheduledBatch>, String>)
        requires
            old(kv)@.wf(),
            old(self)@.round_fits(),
            old(self)@.admission_fits(old(kv)@),
        ensures
            r is Ok,
            final(self)@ == old(self)@.round(old(kv)@).sched,
            final(kv)@ == old(self)@.round(old(kv)@).kv,
            match r->Ok_0 {
                Some(batch) => old(self)@.round(old(kv)@).batch() == Some(batch@),
                None => old(self)@.round(old(kv)@).batch() is None,
            },
            final(kv)@.wf(),
            old(self)@.wf() ==> final(self)@.wf(),
    {
        let ghost first = self@;
        let ghost first_kv = kv@;
        proof {
            lemma_prompts_fit(self.waiting_queue@);
            lemma_prompts_fit(self.preempted_queue@);
            if !first.under_pressure(first_kv) {
                first.lemma_admissions(first_kv);
            }
        }
        self.step_id = self.step_id + 1;
        let mut draft = BatchDraft {
            prefill_requests: Vec::new(),
            decode_requests: Vec::new(),
            block_tables: HashMap::new(),
            prefill_budget: self.config.max_prefill_tokens,
        };
        assert(Round::of(self@, kv@, draft@) =~= Round::start(self@, kv@));
        let under_pressure: bool = kv.available_blocks() < self.config.watermark_blocks
            && self.running_sequences.len() > 0;
        if under_pressure {
            self.preempt_victim(kv);
        }
        self.run_all(kv, &mut draft);
        if !under_pressure {
            self.admit_all(kv, &mut draft, true);
            self.admit_all(kv, &mut draft, false);
        }
        assert(Round::of(self@, kv@, draft@) == first.round(first_kv));
        if draft.prefill_requests.len() == 0 && draft.decode_requests.len() == 0 {
            return Ok(None);
        }
        Ok(
            Some(
                ScheduledBatch {
                    prefill_requests: draft.prefill_requests,
                    decode_requests: draft.decode_requests,
                    block_tables: draft.block_tables,
                    step_id: self.step_id,
                },
            ),
        )
    }
}

impl<S: CompletionSink> AienScheduler<S> {
    /// How much of a running sequence's prompt was prefilled since it was admitted.
    fn prefilled_of(&self, id: u64) -> (r: usize)
        ensures
            r == self@.prefilled_of(id),
    {
        match self.running_sequences.get(&id) {
            Some(seq) => seq.prompt_tokens_prefilled,
            None => 0,
        }
    }

    /// How many tokens a sequence has.
    fn position_of(&self, id: u64) -> (r: usize)
        requires
            self@.position_of(id) <= usize::MAX,
        ensures
            r == self@.position_of(id),
    {
        match self.arena.get(&id) {
            Some(record) => record.total_tokens(),
            None => match self.running_sequences.get(&id) {
                Some(seq) => seq.request.prompt_tokens.len() + seq.tokens_generated,
                None => 0,
            },
        }
    }

    /// Builds the batch of the next step as prompt spans and decode steps.
    pub fn build_batch_plan<B: UnifiedBuffer>(&mut self, kv: &mut AienKvManager<B>) -> (r: Result<
        Option<BatchPlan>,
        String,
    >)
        requires
            old(kv)@.wf(),
            old(self)@.round_fits(),
            old(self)@.admission_fits(old(kv)@),
            old(self)@.round(old(kv)@).plan_fits(),
        ensures
            r is Ok,
            final(self)@ == old(self)@.round(old(kv)@).sched,
            final(kv)@ == old(self)@.round(old(kv)@).kv,
            match r->Ok_0 {
                Some(plan) => {
                    &&& old(self)@.round(old(kv)@).batch() is Some
                    &&& old(self)@.round(old(kv)@).planned_as(plan)
                    &&& old(self)@.wf() && old(self)@.distinct() ==> forall|i: int|
                        0 <= i < plan.prefill_spans@.len() ==> old(self)@.round(
                            old(kv)@,
                        ).in_prompt(#[trigger] plan.prefill_spans@[i])
                },
                None => old(self)@.round(old(kv)@).batch() is None,
            },
            final(kv)@.wf(),
            old(self)@.wf() ==> final(self)@.wf(),
    {
        let ghost round = self@.round(kv@);
        proof {
            if self@.wf() && self@.distinct() {
                self@.law_spans_lie_in_prompts(kv@);
            }
        }
        let batch = match self.build_scheduled_batch(kv) {
            Ok(Some(b)) => b,
            Ok(None) => {
                return Ok(None);
            },
            Err(e) => {
                return Err(e);
            },
        };
        let mut prefill_spans: Vec<PrefillSpan> = Vec::new();
        let mut total_tokens: usize = 0;
        let mut i: usize = 0;
        assert(round.draft.prefill.take(0) =~= Seq::<RequestState>::empty());
        while i < batch.prefill_requests.len()
            invariant
                i <= batch.prefill_requests@.len(),
                round.draft.prefill == view_all(batch.prefill_requests@),
                round.sched == self@,
                round.plan_fits(),
                total_tokens == prompt_total(round.draft.prefill.take(i as int)),
                prefill_spans@ == round.spans().take(i as int),
            decreases batch.prefill_requests@.len() - i,
        {
            proof {
                lemma_prompt_total_take(round.draft.prefill, i as int);
            }
            let seq_id: u64 = batch.prefill_requests[i].request_id;
            let length: usize = batch.prefill_requests[i].prompt_tokens.len();
            total_tokens = total_tokens + length;
            prefill_spans.push(
                PrefillSpan { seq_id, start_pos: self.prefilled_of(seq_id), length },
            );
            assert(prefill_spans@ =~= round.spans().take(i + 1));
            i = i + 1;
        }
        assert(round.draft.prefill.take(round.draft.prefill.len() as int) =~= round.draft.prefill);
        assert(round.spans().take(round.spans().len() as int) =~= round.spans());
        let mut decode_items: Vec<DecodeItem> = Vec::new();
        let mut j: usize = 0;
        while j < batch.decode_requests.len()
            invariant
                j <= batch.decode_requests@.len(),
                round.draft.decode == batch.decode_requests@,
                round.sched == self@,
                round.plan_fits(),
                total_tokens == prompt_total(round.draft.prefill) + j,
                decode_items@ == round.items().take(j as int),
            decreases batch.decode_requests@.len() - j,
        {
            let seq_id: u64 = batch.decode_requests[j];
            assert(round.draft.decode[j as int] == seq_id);
            total_tokens = total_tokens + 1;
            decode_items.push(DecodeItem { seq_id, token_pos: self.position_of(seq_id) });
            assert(decode_items@ =~= round.items().take(j + 1));
            j = j + 1;
        }
        assert(round.items().take(round.items().len() as int) =~= round.items());
        Ok(Some(BatchPlan { step_id: batch.step_id, prefill_spans, decode_items, total_tokens }))
    }

    /// Notes that a chunk of a prompt was prefilled.
    fn note_prefill(&mut self, chunk: &SequenceRequest)
        requires
            old(self)@.prefill_room(chunk@.prompt_tokens.len() as int),
        ensures
            final(self)@ == old(self)@.note_prefill(chunk@),
            old(self)@.wf() ==> final(self)@.wf(),
    {
        let ghost before = self@;
        let id: u64 = chunk.request_id;
        let count: usize = chunk.prompt_tokens.len();
        assert(before.running.contains_key(id) ==> before.running[id].prompt_tokens_prefilled
            + count <= usize::MAX);
        match value_mut(&mut self.running_sequences, id) {
            Some(seq) => {
                if !seq.is_prefilled {
                    seq.prompt_tokens_prefilled = seq.prompt_tokens_prefilled + count;
                    if seq.prompt_tokens_prefilled >= seq.request.prompt_tokens.len() {
                        seq.is_prefilled = true;
                    }
                }
            },
            None => {},
        }
        self.arena.record_prefilled_tokens(id, count);
        assert(self@.running =~= before.note_prefill(chunk@).running);
    }

    /// Hands an event to the sink of a sequence's record.
    fn emit(&mut self, id: u64, event: CompletionEvent)
        ensures
            final(self)@ == old(self)@.emit(id, event@),
            old(self)@.wf() ==> final(self)@.wf(),
    {
        let sink: Option<CompletionSinkId> = match self.arena.get(&id) {
            Some(record) => record.sink_id,
            None => None,
        };
        match sink {
            Some(sink_id) => {
                self.completion_router.emit(sink_id, event);
            },
            None => {},
        }
    }

    /// Ends a sequence.
    fn finish<B: UnifiedBuffer>(
        &mut self,
        kv: &mut AienKvManager<B>,
        outputs: &mut Vec<DecodeOutput>,
        id: u64,
        reason: FinishReason,
        total_tokens: usize,
    )
        requires
            old(kv)@.wf(),
            old(self)@.metrics.finished_requests < u64::MAX,
        ensures
            Settling::of(final(self)@, final(kv)@, final(outputs)@) == Settling::of(
                old(self)@,
                old(kv)@,
                old(outputs)@,
            ).finish(id, reason, total_tokens),
            final(kv)@.wf(),
            old(self)@.wf() ==> final(self)@.wf(),
    {
        self.running_sequences.remove(&id);
        kv.free_sequence(id);
        self.metrics.finished_requests = self.metrics.finished_requests + 1;
        self.arena.set_phase(id, SequencePhase::Finished);
        self.emit(
            id,
            CompletionEvent::Finished { seq_id: id, finish_reason: reason, total_tokens },
        );
        outputs.push(DecodeOutput::Finished { request_id: id, reason, total_tokens });
    }

    /// Takes a token of a running sequence.
    fn take_token<B: UnifiedBuffer>(
        &mut self,
        kv: &mut AienKvManager<B>,
        outputs: &mut Vec<DecodeOutput>,
        id: u64,
        token: u32,
        logprob: Option<u32>,
        backend_appends: bool,
    )
        requires
            old(kv)@.wf(),
            Settling::of(old(self)@, old(kv)@, old(outputs)@).counts(id),
            Settling::of(old(self)@, old(kv)@, old(outputs)@).room(1),
            Settling::of(old(self)@, old(kv)@, old(outputs)@).appends(id, token, backend_appends)
                ==> old(kv)@.append_fits(id),
        ensures
            Settling::of(final(self)@, final(kv)@, final(outputs)@) == Settling::of(
                old(self)@,
                old(kv)@,
                old(outputs)@,
            ).take_token(id, token, logprob, backend_appends),
            final(kv)@.wf(),
            old(self)@.wf() ==> final(self)@.wf(),
    {
        let ghost before = Settling::of(self@, kv@, outputs@);
        let (stop, max_tokens, total): (bool, usize, usize) = match value_mut(
            &mut self.running_sequences,
            id,
        ) {
            Some(seq) => {
                seq.tokens_generated = seq.tokens_generated + 1;
                (
                    lists(seq.request.sampling_params.stop_token_ids.as_slice(), token),
                    seq.request.sampling_params.max_tokens,
                    seq.tokens_generated,
                )
            },
            None => {
                assert(false);
                return ;
            },
        };
        let mut stored: bool = true;
        if !stop && total < max_tokens && !backend_appends {
            assert(before.appends(id, token, backend_appends));
            stored = match kv.append_token(id) {
                Ok(_) => true,
                Err(_) => false,
            };
        }
        self.arena.record_generated_token(id, token);
        self.emit(id, CompletionEvent::Token { seq_id: id, token });
        assert(self@ =~= before.sched.with_token(id, token));
        if stop {
            self.finish(kv, outputs, id, FinishReason::StopToken, total);
        } else if total >= max_tokens {
            self.finish(kv, outputs, id, FinishReason::LengthLimit, total);
        } else if !stored {
            assert(self@.running.contains_key(id));
            match self.running_sequences.remove(&id) {
                Some(running) => {
                    self.preempted_queue.push_back(running.request);
                    self.metrics.preempted_requests = self.metrics.preempted_requests + 1;
                },
                None => {
                    assert(false);
                },
            }
            self.arena.set_phase(id, SequencePhase::Preempted);
            outputs.push(
                DecodeOutput::Finished {
                    request_id: id,
                    reason: FinishReason::Preempted,
                    total_tokens: total,
                },
            );
        } else {
            outputs.push(DecodeOutput::Token { request_id: id, token_id: token, logprob });
        }
        assert(Settling::of(self@, kv@, outputs@) =~= before.take_token(
            id,
            token,
            logprob,
            backend_appends,
        ));
    }

    /// Completes a step that a backend executed: notes prefill progress, settles the
    /// outputs in order, and counts the step. `backend_appends` says that the backend
    /// stored the tokens in the KV cache itself.
    pub fn complete_step<B: UnifiedBuffer>(
        &mut self,
        kv: &mut AienKvManager<B>,
        batch: &ScheduledBatch,
        outputs: &Vec<DecodeOutput>,
        metrics: &StepMetrics,
        backend_appends: bool,
    ) -> (r: Vec<DecodeOutput>)
        requires
            old(kv)@.wf(),
            old(self)@.complete_fits(old(kv)@, batch@, outputs@, *metrics, backend_appends),
        ensures
            Settling::of(final(self)@, final(kv)@, r@) == old(self)@.complete(
                old(kv)@,
                batch@,
                outputs@,
                *metrics,
                backend_appends,
            ),
            final(kv)@.wf(),
            old(self)@.wf() ==> final(self)@.wf(),
    {
        let ghost first = self@;
        let ghost chunks = batch@.prefill_requests;
        let mut i: usize = 0;
        proof {
            assert(chunks.subrange(0, chunks.len() as int) =~= chunks);
            assert(chunks.take(0) =~= Seq::<RequestState>::empty());
        }
        while i < batch.prefill_requests.len()
            invariant
                i <= chunks.len(),
                chunks == view_all(batch.prefill_requests@),
                self@.note_prefills(chunks.subrange(i as int, chunks.len() as int))
                    == first.note_prefills(chunks),
                self@.prefill_room(prompt_total(chunks) - prompt_total(chunks.take(i as int))),
                Settling::of(self@, kv@, Seq::empty()).room(outputs@.len() as int),
                self@.metrics == first.metrics,
                kv@.wf(),
                first.wf() ==> self@.wf(),
            decreases chunks.len() - i,
        {
            let ghost rest = chunks.subrange(i as int, chunks.len() as int);
            let ghost here = self@;
            let ghost n = prompt_total(chunks) - prompt_total(chunks.take(i as int));
            proof {
                lemma_prompt_total_take(chunks, i as int);
                assert(rest[0] == chunks[i as int]);
                assert(rest.subrange(1, rest.len() as int) =~= chunks.subrange(
                    i + 1,
                    chunks.len() as int,
                ));
                here.lemma_prefill_room(n, chunks[i as int]);
            }
            self.note_prefill(&batch.prefill_requests[i]);
            proof {
                lemma_prefill_keeps_room(here, kv@, chunks[i as int], outputs@.len() as int);
            }
            i = i + 1;
        }
        let ghost noted = Settling::of(self@, kv@, Seq::empty());
        proof {
            if backend_appends || kv@.append_room(outputs@.len() as int) {
                noted.law_stores_fit(outputs@, backend_appends);
            }
        }
        let mut settled: Vec<DecodeOutput> = Vec::new();
        let mut j: usize = 0;
        assert(outputs@.subrange(0, outputs@.len() as int) =~= outputs@);
        while j < outputs.len()
            invariant
                j <= outputs@.len(),
                Settling::of(self@, kv@, settled@).settle_all(
                    outputs@.subrange(j as int, outputs@.len() as int),
                    backend_appends,
                ) == noted.settle_all(outputs@, backend_appends),
                Settling::of(self@, kv@, settled@).room(outputs@.len() - j),
                Settling::of(self@, kv@, settled@).stores_fit(
                    outputs@.subrange(j as int, outputs@.len() as int),
                    backend_appends,
                ),
                self@.metrics.total_steps == first.metrics.total_steps,
                self@.metrics.total_prefill_tokens == first.metrics.total_prefill_tokens,
                self@.metrics.total_decode_tokens == first.metrics.total_decode_tokens,
                kv@.wf(),
                first.wf() ==> self@.wf(),
            decreases outputs@.len() - j,
        {
            let ghost here = Settling::of(self@, kv@, settled@);
            let ghost rest = outputs@.subrange(j as int, outputs@.len() as int);
            proof {
                assert(rest[0] == outputs@[j as int]);
                assert(rest.subrange(1, rest.len() as int) =~= outputs@.subrange(
                    j + 1,
                    outputs@.len() as int,
                ));
                here.lemma_room_shrinks(outputs@.len() - j);
                here.lemma_settle_room(outputs@[j as int], outputs@.len() - j, backend_appends);
            }
            match outputs[j] {
                DecodeOutput::Token { request_id, token_id, logprob } => {
                    let counts: bool = match self.running_sequences.get(&request_id) {
                        Some(seq) => seq.is_prefilled,
                        None => false,
                    };
                    if counts {
                        self.take_token(
                            kv,
                            &mut settled,
                            request_id,
                            token_id,
                            logprob,
                            backend_appends,
                        );
                    }
                },
                DecodeOutput::Finished { request_id, reason, total_tokens } => {
                    self.finish(kv, &mut settled, request_id, reason, total_tokens);
                },
            }
            j = j + 1;
        }
        self.metrics.total_steps = self.metrics.total_steps + 1;
        self.metrics.total_prefill_tokens = self.metrics.total_prefill_tokens
            + metrics.prefill_tokens_processed as u64;
        self.metrics.total_decode_tokens = self.metrics.total_decode_tokens
            + metrics.decode_tokens_emitted as u64;
        settled
    }
}

impl SchedulerState {
    /// Room for all prefilled tokens is room for one chunk, and for the others after it.
    proof fn lemma_prefill_room(self, n: int, chunk: RequestState)
        requires
            self.prefill_room(n),
            0 <= chunk.prompt_tokens.len() <= n,
        ensures
            self.prefill_room(chunk.prompt_tokens.len() as int),
            self.note_prefill(chunk).prefill_room(n - chunk.prompt_tokens.len()),
    {
    }
}

/// Noting a chunk keeps the room for outputs.
proof fn lemma_prefill_keeps_room(
    sched: SchedulerState,
    kv: KvState,
    chunk: RequestState,
    n: int,
)
    requires
        Settling::of(sched, kv, Seq::empty()).room(n),
    ensures
        Settling::of(sched.note_prefill(chunk), kv, Seq::empty()).room(n),
{
}

impl Settling {
    /// Room for several outputs is room for one.
    proof fn lemma_room_shrinks(self, n: int)
        requires
            self.room(n),
            n >= 1,
        ensures
            self.room(1),
            self.room(n - 1),
    {
    }

    /// After an output there is room for one fewer, and the step counts are as before.
    proof fn lemma_settle_room(self, output: DecodeOutput, n: int, backend_appends: bool)
        requires
            self.room(n),
            n >= 1,
        ensures
            self.settle(output, backend_appends).room(n - 1),
            self.settle(output, backend_appends).sched.metrics.total_steps
                == self.sched.metrics.total_steps,
            self.settle(output, backend_appends).sched.metrics.total_prefill_tokens
                == self.sched.metrics.total_prefill_tokens,
            self.settle(output, backend_appends).sched.metrics.total_decode_tokens
                == self.sched.metrics.total_decode_tokens,
    {
    }
}

/// What branching a running sequence gives.
pub open spec fn fork_result(
    before: SchedulerState,
    kv_before: KvState,
    parent: u64,
    child: u64,
    sink_id: Option<CompletionSinkId>,
    after: SchedulerState,
    kv_after: KvState,
    r: Result<(), String>,
) -> bool {
    match r {
        Ok(_) => {
            &&& before.running.contains_key(parent)
            &&& kv_before.tables.contains_key(parent)
            &&& after == before.fork(parent, child, sink_id)
            &&& kv_after == kv_before.fork(parent, child)
        },
        Err(e) => {
            &&& after == before
            &&& kv_after == kv_before
            &&& if !before.running.contains_key(parent) {
                e@ == "Parent sequence "@ + decimal(parent as nat) + " not found in running pool"@
            } else {
                &&& !kv_before.tables.contains_key(parent)
                &&& e@ == "Parent sequence "@ + decimal(parent as nat) + " not found"@
            }
        },
    }
}

} // verus!
