//! The state of the scheduler and what each of its steps makes of it.

use crate::abi::{
    prompt_total, BatchState, DecodeOutput, FinishReason, RequestState, SamplingState, StepMetrics,
};
use crate::completion::{CompletionSinkId, EventState, RouterState};
use crate::kv_state::{at_most, KvState};
use crate::maps::in_order;
use crate::platform::InferenceWork;
use crate::sequence::{
    ArenaState, BatchPlan, DecodeItem, PrefillSpan, RecordState, SequencePhase,
};
use vstd::prelude::*;

verus! {

/// Limits that a scheduler keeps to.
#[derive(Debug, Clone, Copy, PartialEq, Eq)]
pub struct SchedulerConfig {
    pub max_batch_size: usize,
    pub max_batch_tokens: usize,
    pub max_prefill_tokens: usize,
    pub prefill_chunk_size: usize,
    pub chunk_prefill: bool,
    pub watermark_blocks: usize,
}

impl Default for SchedulerConfig {
    fn default() -> (r: Self)
        ensures
            r == (SchedulerConfig {
                max_batch_size: 64,
                max_batch_tokens: 4096,
                max_prefill_tokens: 2048,
                prefill_chunk_size: 512,
                chunk_prefill: true,
                watermark_blocks: 4,
            }),
    {
        SchedulerConfig {
            max_batch_size: 64,
            max_batch_tokens: 4096,
            max_prefill_tokens: 2048,
            prefill_chunk_size: 512,
            chunk_prefill: true,
            watermark_blocks: 4,
        }
    }
}

/// Totals over all steps.
#[derive(Debug, Clone, Copy, PartialEq, Eq)]
pub struct SchedulerMetrics {
    pub total_steps: u64,
    pub admitted_requests: u64,
    pub finished_requests: u64,
    pub preempted_requests: u64,
    pub total_prefill_tokens: u64,
    pub total_decode_tokens: u64,
    pub chunked_prefill_steps: u64,
}

impl SchedulerMetrics {
    pub open spec fn zero() -> SchedulerMetrics {
        SchedulerMetrics {
            total_steps: 0,
            admitted_requests: 0,
            finished_requests: 0,
            preempted_requests: 0,
            total_prefill_tokens: 0,
            total_decode_tokens: 0,
            chunked_prefill_steps: 0,
        }
    }
}

impl Default for SchedulerMetrics {
    fn default() -> (r: Self)
        ensures
            r == SchedulerMetrics::zero(),
    {
        SchedulerMetrics {
            total_steps: 0,
            admitted_requests: 0,
            finished_requests: 0,
            preempted_requests: 0,
            total_prefill_tokens: 0,
            total_decode_tokens: 0,
            chunked_prefill_steps: 0,
        }
    }
}

/// A running sequence.
#[verifier::ext_equal]
pub struct RunningState {
    pub request: RequestState,
    pub tokens_generated: usize,
    pub prompt_tokens_prefilled: usize,
    pub is_prefilled: bool,
}

/// The state of a scheduler.
#[verifier::ext_equal]
pub struct SchedulerState {
    pub config: SchedulerConfig,
    pub waiting: Seq<RequestState>,
    pub preempted: Seq<RequestState>,
    pub running: Map<u64, RunningState>,
    pub step_id: u64,
    pub metrics: SchedulerMetrics,
    pub arena: ArenaState,
    pub router: RouterState,
}

/// `id` runs at the lowest priority, and is the smallest identifier that does.
pub open spec fn is_victim(running: Map<u64, RunningState>, id: u64) -> bool {
    &&& running.contains_key(id)
    &&& forall|other: u64| #[trigger]
        running.contains_key(other) ==> running[id].request.priority
            < running[other].request.priority || running[id].request.priority
            == running[other].request.priority && id <= other
}

/// The sequence to preempt.
pub open spec fn victim(running: Map<u64, RunningState>) -> u64 {
    choose|id: u64| is_victim(running, id)
}

impl SchedulerState {
    pub open spec fn initial(config: SchedulerConfig) -> SchedulerState {
        SchedulerState {
            config,
            waiting: Seq::empty(),
            preempted: Seq::empty(),
            running: Map::empty(),
            step_id: 0,
            metrics: SchedulerMetrics::zero(),
            arena: ArenaState::initial(),
            router: RouterState::empty(1),
        }
    }

    /// Running sequences and records are held under their own identifiers.
    pub open spec fn wf(self) -> bool {
        &&& self.running.dom().finite()
        &&& forall|id: u64| #[trigger]
            self.running.contains_key(id) ==> self.running[id].request.request_id == id
        &&& self.arena.wf()
        &&& self.router.wf()
    }

    /// The state after a request was queued; its record is made unless there is one.
    pub open spec fn submit_request(self, request: RequestState) -> SchedulerState {
        SchedulerState {
            arena: self.arena.insert_or_keep(RecordState::of_request(request, None)),
            waiting: self.waiting.push(request),
            ..self
        }
    }

    /// The state after work was queued under a new identifier.
    pub open spec fn submit_work(
        self,
        work: InferenceWork,
        prompt: Seq<u32>,
        sampling: SamplingState,
        sink_id: Option<CompletionSinkId>,
    ) -> SchedulerState {
        let record = RecordState::of_work(work, prompt, sampling, sink_id);
        SchedulerState {
            arena: self.arena.insert(record),
            waiting: self.waiting.push(record.request()),
            ..self
        }
    }

    /// The state after `child` was branched off the running `parent`.
    pub open spec fn fork(
        self,
        parent: u64,
        child: u64,
        sink_id: Option<CompletionSinkId>,
    ) -> SchedulerState {
        let p = self.running[parent];
        SchedulerState {
            arena: self.arena.fork_or_keep(parent, child, sink_id),
            running: self.running.insert(
                child,
                RunningState {
                    request: RequestState { request_id: child, ..p.request },
                    ..p
                },
            ),
            ..self
        }
    }

    /// Few blocks are free, and a sequence runs that could give some back.
    pub open spec fn under_pressure(self, kv: KvState) -> bool {
        &&& kv.free.len() < self.config.watermark_blocks
        &&& self.running.dom().len() > 0
    }

    pub open spec fn in_phase(self, id: u64, phase: SequencePhase) -> SchedulerState {
        SchedulerState { arena: self.arena.in_phase(id, phase), ..self }
    }

    /// Nothing waits, runs or is preempted.
    pub open spec fn idle(self) -> bool {
        &&& self.waiting.len() == 0
        &&& self.running.dom().len() == 0
        &&& self.preempted.len() == 0
    }

    /// The counters that building a batch advances have room.
    pub open spec fn round_fits(self) -> bool {
        &&& self.step_id < u64::MAX
        &&& self.metrics.preempted_requests < u64::MAX
        &&& self.metrics.chunked_prefill_steps + self.running.dom().len() <= u64::MAX
        &&& self.metrics.admitted_requests + self.preempted.len() + self.waiting.len() <= u64::MAX
    }

    /// A request is queued.
    pub open spec fn has_queued(self) -> bool {
        self.waiting.len() > 0 || self.preempted.len() > 0
    }
}

/// A batch in the making.
#[verifier::ext_equal]
pub struct DraftState {
    pub prefill: Seq<RequestState>,
    pub decode: Seq<u64>,
    pub tables: Map<u64, Seq<usize>>,
    /// Prompt tokens that may still be scheduled.
    pub budget: usize,
}

/// What building a batch works on.
#[verifier::ext_equal]
pub struct Round {
    pub sched: SchedulerState,
    pub kv: KvState,
    pub draft: DraftState,
}

impl Round {
    pub open spec fn of(sched: SchedulerState, kv: KvState, draft: DraftState) -> Round {
        Round { sched, kv, draft }
    }

    /// A round with an empty batch.
    pub open spec fn start(sched: SchedulerState, kv: KvState) -> Round {
        Round {
            sched,
            kv,
            draft: DraftState {
                prefill: Seq::empty(),
                decode: Seq::empty(),
                tables: Map::empty(),
                budget: sched.config.max_prefill_tokens,
            },
        }
    }

    pub open spec fn entries(self) -> nat {
        self.draft.decode.len() + self.draft.prefill.len()
    }

    /// Tokens of the batch: those prefilled, and one for each decode step.
    pub open spec fn tokens(self) -> int {
        self.sched.config.max_prefill_tokens - self.draft.budget + self.draft.decode.len()
    }

    pub open spec fn full(self) -> bool {
        self.entries() >= self.sched.config.max_batch_size
    }

    // ---- Preemption ----
    /// The round after the victim gave its blocks back and was queued.
    pub open spec fn preempt(self) -> Round {
        let id = victim(self.sched.running);
        Round {
            sched: SchedulerState {
                running: self.sched.running.remove(id),
                arena: self.sched.arena.in_phase(id, SequencePhase::Preempted),
                preempted: self.sched.preempted.push(self.sched.running[id].request),
                metrics: SchedulerMetrics {
                    preempted_requests: (self.sched.metrics.preempted_requests + 1) as u64,
                    ..self.sched.metrics
                },
                ..self.sched
            },
            kv: self.kv.free_sequence(id),
            ..self
        }
    }

    // ---- Running sequences ----
    /// The round after a decode step of a running sequence was scheduled.
    pub open spec fn decode_running(self, id: u64) -> Round {
        if self.kv.tables.contains_key(id) {
            Round {
                sched: self.sched.in_phase(id, SequencePhase::Decode),
                draft: DraftState {
                    tables: self.draft.tables.insert(id, self.kv.tables[id].block_ids),
                    decode: self.draft.decode.push(id),
                    ..self.draft
                },
                ..self
            }
        } else {
            self
        }
    }

    /// How many prompt tokens of a running sequence are prefilled next.
    pub open spec fn next_chunk(self, id: u64) -> int {
        let seq = self.sched.running[id];
        let remaining = if seq.prompt_tokens_prefilled >= seq.request.prompt_tokens.len() {
            0
        } else {
            seq.request.prompt_tokens.len() - seq.prompt_tokens_prefilled
        };
        at_most(
            at_most(remaining, self.sched.config.prefill_chunk_size as int),
            self.draft.budget as int,
        )
    }

    /// The round after the next chunk of a running sequence was scheduled.
    pub open spec fn prefill_running(self, id: u64) -> Round {
        let n = self.next_chunk(id);
        let seq = self.sched.running[id];
        let from = seq.prompt_tokens_prefilled as int;
        if n > 0 {
            Round {
                sched: SchedulerState {
                    metrics: SchedulerMetrics {
                        chunked_prefill_steps: (self.sched.metrics.chunked_prefill_steps
                            + 1) as u64,
                        ..self.sched.metrics
                    },
                    ..self.sched.in_phase(id, SequencePhase::Prefill)
                },
                draft: DraftState {
                    tables: if self.kv.tables.contains_key(id) {
                        self.draft.tables.insert(id, self.kv.tables[id].block_ids)
                    } else {
                        self.draft.tables
                    },
                    prefill: self.draft.prefill.push(
                        RequestState {
                            prompt_tokens: seq.request.prompt_tokens.subrange(from, from + n),
                            ..seq.request
                        },
                    ),
                    budget: (self.draft.budget - n) as usize,
                    ..self.draft
                },
                ..self
            }
        } else {
            self
        }
    }

    pub open spec fn run_one(self, id: u64) -> Round {
        if self.sched.running[id].is_prefilled {
            self.decode_running(id)
        } else {
            self.prefill_running(id)
        }
    }

    /// The round after the sequences `ids` were scheduled in turn, as far as the batch has
    /// room.
    pub open spec fn run_all(self, ids: Seq<u64>) -> Round
        decreases ids.len(),
    {
        if ids.len() == 0 || self.full() || self.tokens() >= self.sched.config.max_batch_tokens {
            self
        } else {
            self.run_one(ids[0]).run_all(ids.subrange(1, ids.len() as int))
        }
    }

    // ---- Admission ----
    /// The queue that is admitted from.
    pub open spec fn queue(self, preempted: bool) -> Seq<RequestState> {
        if preempted {
            self.sched.preempted
        } else {
            self.sched.waiting
        }
    }

    /// How many prompt tokens of a request are prefilled on admission.
    pub open spec fn first_chunk(self, request: RequestState) -> int {
        let n = request.prompt_tokens.len() as int;
        if self.sched.config.chunk_prefill {
            at_most(n, self.sched.config.prefill_chunk_size as int)
        } else {
            n
        }
    }

    /// The batch has room for a request.
    pub open spec fn has_room(self, request: RequestState) -> bool {
        &&& !self.full()
        &&& self.first_chunk(request) <= self.draft.budget
        &&& self.tokens() + self.first_chunk(request) <= self.sched.config.max_batch_tokens
    }

    /// A request can join the batch: there is room in it, and it has blocks or can get
    /// them.
    pub open spec fn admissible(self, request: RequestState) -> bool {
        &&& self.has_room(request)
        &&& self.kv.tables.contains_key(request.request_id) || self.kv.blocks_needed(
            request.prompt_tokens.len() as int,
        ) <= self.kv.free.len()
    }

    /// A request has its whole prompt in the KV cache.
    pub open spec fn is_cached(self, request: RequestState) -> bool {
        &&& self.kv.tables.contains_key(request.request_id)
        &&& self.kv.tables[request.request_id].total_tokens >= request.prompt_tokens.len()
    }

    /// The round after the first request of a queue was admitted: to decode, where its
    /// prompt is cached, else with the first chunk of its prompt.
    pub open spec fn admit_one(self, preempted: bool) -> Round {
        let queue = self.queue(preempted);
        let request = queue[0];
        let id = request.request_id;
        let n = request.prompt_tokens.len() as int;
        let chunk = self.first_chunk(request);
        let rest = queue.subrange(1, queue.len() as int);
        let kv = self.kv.allocate_or_keep(id, n);
        let cached = self.is_cached(request);
        let tables = self.draft.tables.insert(id, kv.tables[id].block_ids);
        Round {
            sched: SchedulerState {
                waiting: if preempted {
                    self.sched.waiting
                } else {
                    rest
                },
                preempted: if preempted {
                    rest
                } else {
                    self.sched.preempted
                },
                running: self.sched.running.insert(
                    id,
                    RunningState {
                        request,
                        tokens_generated: 0,
                        prompt_tokens_prefilled: if cached {
                            n as usize
                        } else {
                            0
                        },
                        is_prefilled: cached || chunk == n,
                    },
                ),
                metrics: SchedulerMetrics {
                    admitted_requests: (self.sched.metrics.admitted_requests + 1) as u64,
                    ..self.sched.metrics
                },
                ..self.sched.in_phase(
                    id,
                    if cached || chunk == n {
                        SequencePhase::Decode
                    } else {
                        SequencePhase::Prefill
                    },
                )
            },
            kv,
            draft: if cached {
                DraftState { tables, decode: self.draft.decode.push(id), ..self.draft }
            } else {
                DraftState {
                    tables,
                    prefill: self.draft.prefill.push(
                        RequestState {
                            prompt_tokens: request.prompt_tokens.subrange(0, chunk),
                            ..request
                        },
                    ),
                    budget: (self.draft.budget - chunk) as usize,
                    ..self.draft
                }
            },
        }
    }

    /// The round after requests were admitted from a queue, in order, up to the first that
    /// cannot join.
    pub open spec fn admit_all(self, preempted: bool) -> Round
        decreases self.queue(preempted).len(),
    {
        if self.queue(preempted).len() == 0 || !self.admissible(self.queue(preempted)[0]) {
            self
        } else {
            self.admit_one(preempted).admit_all(preempted)
        }
    }

    /// Admitting from a queue can be carried out: each request that there is room for has
    /// blocks, or blocks hold tokens and those that it would be given exist in the tensor
    /// pool.
    pub open spec fn admit_fits(self, preempted: bool) -> bool
        decreases self.queue(preempted).len(),
    {
        if self.queue(preempted).len() == 0 || !self.has_room(self.queue(preempted)[0]) {
            true
        } else {
            let request = self.queue(preempted)[0];
            &&& self.kv.tables.contains_key(request.request_id) || self.kv.allocate_fits(
                request.prompt_tokens.len() as int,
            )
            &&& self.admissible(request) ==> self.admit_one(preempted).admit_fits(preempted)
        }
    }
}

impl SchedulerState {
    /// Building a batch: under memory pressure the victim is preempted; running sequences
    /// are scheduled by identifier; without pressure preempted requests, then waiting ones,
    /// are admitted.
    pub open spec fn round(self, kv: KvState) -> Round {
        let next = SchedulerState { step_id: (self.step_id + 1) as u64, ..self };
        if self.under_pressure(kv) {
            let r = Round::start(next, kv).preempt();
            r.run_all(in_order(r.sched.running.dom()))
        } else {
            Round::start(next, kv).run_all(in_order(self.running.dom())).admit_all(true).admit_all(
                false,
            )
        }
    }
}

impl SchedulerState {
    /// The round after the running sequences were scheduled, without memory pressure.
    pub open spec fn after_running(self, kv: KvState) -> Round {
        let next = SchedulerState { step_id: (self.step_id + 1) as u64, ..self };
        Round::start(next, kv).run_all(in_order(self.running.dom()))
    }

    /// The round after preempted requests were admitted too.
    pub open spec fn after_preempted(self, kv: KvState) -> Round {
        self.after_running(kv).admit_all(true)
    }

    /// The admissions of a round, if there are any, can be carried out: blocks hold tokens, and
    /// the tensor pool has every block, or at least those that are given out.
    pub open spec fn admission_fits(self, kv: KvState) -> bool {
        !self.under_pressure(kv) && self.has_queued() ==> kv.can_allocate() || {
            &&& self.after_running(kv).admit_fits(true)
            &&& self.after_preempted(kv).admit_fits(false)
        }
    }
}

impl Round {
    /// The batch that a round gives; none, where nothing was scheduled.
    pub open spec fn batch(self) -> Option<BatchState> {
        if self.entries() == 0 {
            None
        } else {
            Some(
                BatchState {
                    prefill_requests: self.draft.prefill,
                    decode_requests: self.draft.decode,
                    block_tables: self.draft.tables,
                    step_id: self.sched.step_id,
                },
            )
        }
    }
}

impl SchedulerState {
    /// How much of a running sequence's prompt was prefilled since it was admitted.
    pub open spec fn prefilled_of(self, id: u64) -> usize {
        if self.running.contains_key(id) {
            self.running[id].prompt_tokens_prefilled
        } else {
            0
        }
    }

    /// How many tokens a sequence has, by its record if there is one: its prompt and all that
    /// it ever generated.
    pub open spec fn position_of(self, id: u64) -> int {
        if self.arena.records.contains_key(id) {
            self.arena.records[id].tokens()
        } else if self.running.contains_key(id) {
            self.running[id].request.prompt_tokens.len() + self.running[id].tokens_generated
        } else {
            0
        }
    }

    /// No identifier is used twice among the requests that wait, run or are preempted.
    pub open spec fn distinct(self) -> bool {
        &&& distinct_ids(self.waiting)
        &&& distinct_ids(self.preempted)
        &&& forall|i: int, j: int|
            #![trigger self.waiting[i], self.preempted[j]]
            0 <= i < self.waiting.len() && 0 <= j < self.preempted.len()
                ==> self.waiting[i].request_id != self.preempted[j].request_id
        &&& forall|i: int|
            0 <= i < self.waiting.len() ==> !self.running.contains_key(
                (#[trigger] self.waiting[i]).request_id,
            )
        &&& forall|i: int|
            0 <= i < self.preempted.len() ==> !self.running.contains_key(
                (#[trigger] self.preempted[i]).request_id,
            )
    }

    /// How many requests wait, run or are preempted.
    pub open spec fn held(self) -> nat {
        self.waiting.len() + self.preempted.len() + self.running.dom().len()
    }
}

/// No two requests of a queue have one identifier.
pub open spec fn distinct_ids(queue: Seq<RequestState>) -> bool {
    forall|i: int, j: int|
        #![trigger queue[i], queue[j]]
        0 <= i < j < queue.len() ==> queue[i].request_id != queue[j].request_id
}

impl Round {
    /// The prompt stretches that a batch prefills.
    pub open spec fn spans(self) -> Seq<PrefillSpan> {
        self.draft.prefill.map_values(
            |request: RequestState|
                PrefillSpan {
                    seq_id: request.request_id,
                    start_pos: self.sched.prefilled_of(request.request_id),
                    length: request.prompt_tokens.len() as usize,
                },
        )
    }

    /// The decode steps of a batch.
    pub open spec fn items(self) -> Seq<DecodeItem> {
        self.draft.decode.map_values(
            |id: u64| DecodeItem { seq_id: id, token_pos: self.sched.position_of(id) as usize },
        )
    }

    pub open spec fn planned_tokens(self) -> nat {
        prompt_total(self.draft.prefill) + self.draft.decode.len()
    }

    /// The total and the positions of a plan are `usize`s.
    pub open spec fn plan_fits(self) -> bool {
        &&& self.planned_tokens() <= usize::MAX
        &&& forall|i: int|
            0 <= i < self.draft.decode.len() ==> self.sched.position_of(
                #[trigger] self.draft.decode[i],
            ) <= usize::MAX
    }

    /// The lengths of stretches, added up.
    pub open spec fn span_total(spans: Seq<PrefillSpan>) -> nat
        decreases spans.len(),
    {
        if spans.len() == 0 {
            0
        } else {
            Round::span_total(spans.drop_last()) + spans.last().length as nat
        }
    }

    /// A stretch lies within the prompt of its running sequence and starts where the part
    /// that was prefilled ends.
    pub open spec fn in_prompt(self, span: PrefillSpan) -> bool {
        &&& self.sched.running.contains_key(span.seq_id)
        &&& span.start_pos == self.sched.running[span.seq_id].prompt_tokens_prefilled
        &&& span.start_pos + span.length
            <= self.sched.running[span.seq_id].request.prompt_tokens.len()
    }

    /// `plan` is what a round gives as spans and steps.
    pub open spec fn planned_as(self, plan: BatchPlan) -> bool {
        &&& plan.step_id == self.sched.step_id
        &&& plan.prefill_spans@ == self.spans()
        &&& plan.decode_items@ == self.items()
        &&& plan.total_tokens == self.planned_tokens()
    }
}

// ---- Completing a step ----
/// What completing a step works on.
#[verifier::ext_equal]
pub struct Settling {
    pub sched: SchedulerState,
    pub kv: KvState,
    pub outputs: Seq<DecodeOutput>,
}

impl SchedulerState {
    /// The state after a chunk was prefilled.
    pub open spec fn note_prefill(self, chunk: RequestState) -> SchedulerState {
        let id = chunk.request_id;
        let n = chunk.prompt_tokens.len();
        SchedulerState {
            running: if self.running.contains_key(id) && !self.running[id].is_prefilled {
                let done = self.running[id].prompt_tokens_prefilled + n;
                self.running.insert(
                    id,
                    RunningState {
                        prompt_tokens_prefilled: done as usize,
                        is_prefilled: done >= self.running[id].request.prompt_tokens.len(),
                        ..self.running[id]
                    },
                )
            } else {
                self.running
            },
            arena: self.arena.with_prefilled(id, n as usize),
            ..self
        }
    }

    /// The state after chunks were prefilled, in order.
    pub open spec fn note_prefills(self, chunks: Seq<RequestState>) -> SchedulerState
        decreases chunks.len(),
    {
        if chunks.len() == 0 {
            self
        } else {
            self.note_prefill(chunks[0]).note_prefills(chunks.subrange(1, chunks.len() as int))
        }
    }

    /// The sink of a sequence's record.
    pub open spec fn sink_of(self, id: u64) -> Option<CompletionSinkId> {
        if self.arena.records.contains_key(id) {
            self.arena.records[id].sink_id
        } else {
            None
        }
    }

    pub open spec fn emit(self, id: u64, event: EventState) -> SchedulerState {
        SchedulerState { router: self.router.emit_to(self.sink_of(id), event), ..self }
    }

    /// The totals after a step.
    pub open spec fn count_step(self, metrics: StepMetrics) -> SchedulerState {
        SchedulerState {
            metrics: SchedulerMetrics {
                total_steps: (self.metrics.total_steps + 1) as u64,
                total_prefill_tokens: (self.metrics.total_prefill_tokens
                    + metrics.prefill_tokens_processed) as u64,
                total_decode_tokens: (self.metrics.total_decode_tokens
                    + metrics.decode_tokens_emitted) as u64,
                ..self.metrics
            },
            ..self
        }
    }

    /// The state after a running sequence generated a token.
    pub open spec fn with_token(self, id: u64, token: u32) -> SchedulerState {
        SchedulerState {
            running: self.running.insert(
                id,
                RunningState {
                    tokens_generated: (self.running[id].tokens_generated + 1) as usize,
                    ..self.running[id]
                },
            ),
            arena: self.arena.with_token(id, token),
            ..self
        }.emit(id, EventState::Token { seq_id: id, token })
    }
}

impl Settling {
    pub open spec fn of(sched: SchedulerState, kv: KvState, outputs: Seq<DecodeOutput>) -> Settling {
        Settling { sched, kv, outputs }
    }

    /// The token counts: its sequence runs and its prompt is prefilled.
    pub open spec fn counts(self, id: u64) -> bool {
        self.sched.running.contains_key(id) && self.sched.running[id].is_prefilled
    }

    pub open spec fn is_stop(self, id: u64, token: u32) -> bool {
        self.sched.running[id].request.sampling_params.stop_token_ids.contains(token)
    }

    pub open spec fn at_limit(self, id: u64) -> bool {
        self.sched.running[id].tokens_generated + 1
            >= self.sched.running[id].request.sampling_params.max_tokens
    }

    /// The scheduler stores the token itself.
    pub open spec fn appends(self, id: u64, token: u32, backend_appends: bool) -> bool {
        !self.is_stop(id, token) && !self.at_limit(id) && !backend_appends
    }

    /// Why a sequence ends with a token, if it does: a stop token, its limit, or no block
    /// to store the token in.
    pub open spec fn ending(self, id: u64, token: u32, backend_appends: bool) -> Option<
        FinishReason,
    > {
        if self.is_stop(id, token) {
            Some(FinishReason::StopToken)
        } else if self.at_limit(id) {
            Some(FinishReason::LengthLimit)
        } else if !backend_appends && !self.kv.append_possible(id) {
            Some(FinishReason::Preempted)
        } else {
            None
        }
    }

    /// A sequence ended: it runs no more, its blocks are let go of, and its sink hears of it.
    pub open spec fn finish(self, id: u64, reason: FinishReason, total_tokens: usize) -> Settling {
        Settling {
            sched: SchedulerState {
                running: self.sched.running.remove(id),
                metrics: SchedulerMetrics {
                    finished_requests: (self.sched.metrics.finished_requests + 1) as u64,
                    ..self.sched.metrics
                },
                ..self.sched.in_phase(id, SequencePhase::Finished).emit(
                    id,
                    EventState::Finished { seq_id: id, finish_reason: reason, total_tokens },
                )
            },
            kv: self.kv.free_sequence(id),
            outputs: self.outputs.push(
                DecodeOutput::Finished { request_id: id, reason, total_tokens },
            ),
        }
    }

    /// A sequence could not go on: it is queued again and keeps its blocks.
    pub open spec fn set_back(self, id: u64, total_tokens: usize) -> Settling {
        Settling {
            sched: SchedulerState {
                running: self.sched.running.remove(id),
                preempted: self.sched.preempted.push(self.sched.running[id].request),
                metrics: SchedulerMetrics {
                    preempted_requests: (self.sched.metrics.preempted_requests + 1) as u64,
                    ..self.sched.metrics
                },
                ..self.sched.in_phase(id, SequencePhase::Preempted)
            },
            outputs: self.outputs.push(
                DecodeOutput::Finished {
                    request_id: id,
                    reason: FinishReason::Preempted,
                    total_tokens,
                },
            ),
            ..self
        }
    }

    /// The state after a token that counts.
    pub open spec fn take_token(
        self,
        id: u64,
        token: u32,
        logprob: Option<u32>,
        backend_appends: bool,
    ) -> Settling {
        let total = (self.sched.running[id].tokens_generated + 1) as usize;
        let noted = Settling {
            sched: self.sched.with_token(id, token),
            kv: if self.appends(id, token, backend_appends) {
                self.kv.append_or_keep(id)
            } else {
                self.kv
            },
            ..self
        };
        match self.ending(id, token, backend_appends) {
            Some(FinishReason::Preempted) => noted.set_back(id, total),
            Some(reason) => noted.finish(id, reason, total),
            None => Settling {
                outputs: self.outputs.push(
                    DecodeOutput::Token { request_id: id, token_id: token, logprob },
                ),
                ..noted
            },
        }
    }

    /// The state after one output of the backend; a token that does not count is dropped.
    pub open spec fn settle(self, output: DecodeOutput, backend_appends: bool) -> Settling {
        match output {
            DecodeOutput::Token { request_id, token_id, logprob } => if self.counts(request_id) {
                self.take_token(request_id, token_id, logprob, backend_appends)
            } else {
                self
            },
            DecodeOutput::Finished { request_id, reason, total_tokens } => self.finish(
                request_id,
                reason,
                total_tokens,
            ),
        }
    }

    /// The state after all outputs of the backend, in order.
    pub open spec fn settle_all(self, outputs: Seq<DecodeOutput>, backend_appends: bool) -> Settling
        decreases outputs.len(),
    {
        if outputs.len() == 0 {
            self
        } else {
            self.settle(outputs[0], backend_appends).settle_all(
                outputs.subrange(1, outputs.len() as int),
                backend_appends,
            )
        }
    }

    /// An output whose token the scheduler stores itself can be stored: the counters have
    /// room, and the blocks that it touches exist in the tensor pool.
    pub open spec fn store_fits(self, output: DecodeOutput, backend_appends: bool) -> bool {
        match output {
            DecodeOutput::Token { request_id, token_id, .. } => {
                self.counts(request_id) && self.appends(request_id, token_id, backend_appends)
                    ==> self.kv.append_fits(request_id)
            },
            DecodeOutput::Finished { .. } => true,
        }
    }

    /// The outputs can be stored one after another.
    pub open spec fn stores_fit(self, outputs: Seq<DecodeOutput>, backend_appends: bool) -> bool
        decreases outputs.len(),
    {
        if outputs.len() == 0 {
            true
        } else {
            &&& self.store_fits(outputs[0], backend_appends)
            &&& self.settle(outputs[0], backend_appends).stores_fit(
                outputs.subrange(1, outputs.len() as int),
                backend_appends,
            )
        }
    }

    /// The counters that `n` more outputs advance have room.
    pub open spec fn room(self, n: int) -> bool {
        &&& forall|id: u64| #[trigger]
            self.sched.running.contains_key(id) ==> self.sched.running[id].tokens_generated + n
                <= usize::MAX
        &&& self.sched.arena.token_room(n)
        &&& self.sched.metrics.finished_requests + n <= u64::MAX
        &&& self.sched.metrics.preempted_requests + n <= u64::MAX
    }
}

impl KvState {
    /// Sequences can be allocated: blocks hold tokens, and the tensor pool has every block.
    pub open spec fn can_allocate(self) -> bool {
        self.block_size > 0 && self.pool_covers_blocks()
    }

    /// Tables and counters have room for `n` more tokens, and the tensor pool for every
    /// block.
    pub open spec fn append_room(self, n: int) -> bool {
        &&& self.pool_covers_blocks()
        &&& self.cow_faults + n <= usize::MAX
        &&& forall|s: u64| #[trigger]
            self.tables.contains_key(s) ==> self.tables[s].total_tokens + n <= usize::MAX
    }
}

impl SchedulerState {
    /// The prefill counters have room for `n` more tokens.
    pub open spec fn prefill_room(self, n: int) -> bool {
        &&& forall|id: u64| #[trigger]
            self.running.contains_key(id) ==> self.running[id].prompt_tokens_prefilled + n
                <= usize::MAX
        &&& self.arena.prefill_room(n)
    }

    /// Completing a step: prefill progress is noted, the outputs are settled, and the step
    /// is counted.
    pub open spec fn complete(
        self,
        kv: KvState,
        batch: BatchState,
        outputs: Seq<DecodeOutput>,
        metrics: StepMetrics,
        backend_appends: bool,
    ) -> Settling {
        let settled = Settling {
            sched: self.note_prefills(batch.prefill_requests),
            kv,
            outputs: Seq::empty(),
        }.settle_all(outputs, backend_appends);
        Settling { sched: settled.sched.count_step(metrics), ..settled }
    }

    /// The counters that completing a step advances have room, and its outputs can be stored:
    /// the backend did that, or the tensor pool has every block, or at least those that the
    /// tokens go to.
    pub open spec fn complete_fits(
        self,
        kv: KvState,
        batch: BatchState,
        outputs: Seq<DecodeOutput>,
        metrics: StepMetrics,
        backend_appends: bool,
    ) -> bool {
        &&& self.prefill_room(prompt_total(batch.prefill_requests) as int)
        &&& Settling { sched: self, kv, outputs: Seq::empty() }.room(outputs.len() as int)
        &&& backend_appends || kv.append_room(outputs.len() as int) || Settling {
            sched: self.note_prefills(batch.prefill_requests),
            kv,
            outputs: Seq::empty(),
        }.stores_fit(outputs, backend_appends)
        &&& self.metrics.total_steps < u64::MAX
        &&& self.metrics.total_prefill_tokens + metrics.prefill_tokens_processed <= u64::MAX
        &&& self.metrics.total_decode_tokens + metrics.decode_tokens_emitted <= u64::MAX
    }
}

} // verus!
