//! The runtime spine: numbering of work, steps, swarms of branches, and operator commands.
//!
//! Worlds, swarms and the runtime's own sequence table live with the caller. The spine says
//! what is to be done to them and takes back what came of it.

use crate::abi::{
    DecodeOutput, RequestState, SamplingParams, SamplingState, ScheduledBatch, SequenceRequest,
    StepMetrics,
};
use crate::buffer::UnifiedBuffer;
use crate::completion::{CompletionSink, CompletionSinkId};
use crate::kv_manager::AienKvManager;
use crate::layout::low_u32;
use crate::platform::{InferenceWork, KvHandle, ModelHandle, Priority};
use crate::scheduler::{fork_result, AienScheduler};
use crate::scheduler_state::{SchedulerConfig, SchedulerState, Settling};
use crate::sequence::PromptHandle;
use crate::text::{decimal, numbered};
use std::collections::HashSet;
use vstd::prelude::*;
use vstd::slice::slice_to_vec;

verus! {

broadcast use vstd::std_specs::hash::group_hash_axioms;

/// 0.7 as an `f32`.
pub const BRANCH_TEMPERATURE: u32 = 0x3F33_3333;

/// 0.95 as an `f32`.
pub const BRANCH_TOP_P: u32 = 0x3F73_3333;

// ---- Commands and answers ----
/// What an operator asks for. `L` describes the swarm to launch.
pub enum ControlCommand<L> {
    LaunchSwarm(L),
    CancelSwarm(u64),
    GetRuntimeStatus,
    InspectSwarm(u64),
}

/// The state of the runtime in numbers.
#[derive(Debug, Clone, Copy, PartialEq, Eq, Structural)]
pub struct RuntimeStatusReport {
    pub active_sequences: usize,
    pub active_swarms: usize,
    pub active_worlds: usize,
    pub free_kv_blocks: usize,
    pub total_kv_blocks: usize,
    pub shared_kv_pages: usize,
    pub cow_faults: usize,
    /// Bits of an `f32`. It is not measured and always zero.
    pub gpu_utilization_pct: u32,
}

/// What an operator is answered.
#[derive(Debug)]
pub enum ControlResponse {
    SwarmAccepted { swarm_id: u64, operation_id: u64 },
    SwarmCancelled { swarm_id: u64 },
    Status(RuntimeStatusReport),
    Error(String),
}

/// What a command comes to: an answer at once, or something for the caller to do first.
pub enum ControlAction<L> {
    Reply(ControlResponse),
    Launch(L),
    Cancel(u64),
    Report,
    Inspect(u64),
}

/// What a step's output asks of the runtime's sequence table.
#[derive(Debug, Clone, Copy, PartialEq, Eq, Structural)]
pub enum ArenaAction {
    /// One more token was generated.
    CountToken(u64),
    /// The sequence is complete and its place is free.
    Complete(u64),
}

/// The operations that were carried out.
pub struct RuntimeController {
    processed: HashSet<u64>,
}

impl View for RuntimeController {
    type V = Set<u64>;

    closed spec fn view(&self) -> Set<u64> {
        self.processed@
    }
}

impl RuntimeController {
    pub fn new() -> (r: Self)
        ensures
            r@ == Set::<u64>::empty(),
    {
        RuntimeController { processed: HashSet::new() }
    }

    pub fn is_operation_processed(&self, operation_id: u64) -> (r: bool)
        ensures
            r == self@.contains(operation_id),
    {
        self.processed.contains(&operation_id)
    }

    pub fn mark_operation_processed(&mut self, operation_id: u64)
        ensures
            final(self)@ == old(self)@.insert(operation_id),
    {
        self.processed.insert(operation_id);
    }
}

// ---- The model ----
/// The state of a spine.
#[verifier::ext_equal]
pub struct SpineState {
    pub sched: SchedulerState,
    pub processed: Set<u64>,
    /// Counts both submitted work and steps.
    pub counter: u64,
}

/// The work that a submission describes.
pub open spec fn work_of(id: u64, priority: u8, max_tokens: usize) -> InferenceWork {
    InferenceWork {
        sequence: id,
        model: ModelHandle(1),
        kv: KvHandle(id),
        priority: Priority::of_rank(priority),
        deadline: None,
        branch_parent: None,
        next_token_budget: (max_tokens as int % 0x1_0000_0000) as u32,
    }
}

/// The request of a swarm's branch.
pub open spec fn branch_request(
    id: u64,
    prompt: Seq<u32>,
    max_tokens: usize,
    priority: u8,
    now: u64,
) -> RequestState {
    RequestState {
        request_id: id,
        prompt_tokens: prompt,
        sampling_params: SamplingState {
            temperature: BRANCH_TEMPERATURE,
            top_p: BRANCH_TOP_P,
            max_tokens,
            stop_token_ids: seq![2u32],
        },
        arrival_time_ns: now,
        priority,
    }
}

/// What an output asks of the runtime's sequence table.
pub open spec fn action_of(output: DecodeOutput) -> ArenaAction {
    match output {
        DecodeOutput::Token { request_id, .. } => ArenaAction::CountToken(request_id),
        DecodeOutput::Finished { request_id, .. } => ArenaAction::Complete(request_id),
    }
}

impl SpineState {
    pub open spec fn initial(config: SchedulerConfig) -> SpineState {
        SpineState {
            sched: SchedulerState::initial(config),
            processed: Set::empty(),
            counter: 0,
        }
    }

    /// The next number.
    pub open spec fn next(self) -> u64 {
        (self.counter + 1) as u64
    }

    pub open spec fn counted(self) -> SpineState {
        SpineState { counter: self.next(), ..self }
    }

    /// The state after work was queued under the next number.
    pub open spec fn submit(
        self,
        prompt: Seq<u32>,
        sampling: SamplingState,
        priority: u8,
        sink_id: Option<CompletionSinkId>,
    ) -> SpineState {
        SpineState {
            sched: self.sched.submit_work(
                work_of(self.next(), priority, sampling.max_tokens),
                prompt,
                sampling,
                sink_id,
            ),
            ..self.counted()
        }
    }

    /// The state after branches were queued, in order.
    pub open spec fn with_branches(
        self,
        branches: Seq<u64>,
        prompt: Seq<u32>,
        max_tokens: usize,
        priority: u8,
    ) -> SpineState
        decreases branches.len(),
    {
        if branches.len() == 0 {
            self
        } else {
            SpineState {
                sched: self.sched.submit_request(
                    branch_request(branches[0], prompt, max_tokens, priority, self.counter),
                ),
                ..self
            }.with_branches(
                branches.subrange(1, branches.len() as int),
                prompt,
                max_tokens,
                priority,
            )
        }
    }

    /// An operation of this number is refused.
    pub open spec fn refuses(self, operation_id: u64) -> bool {
        self.processed.contains(operation_id)
    }

    /// The state after an operation that the caller carried out, or failed to.
    pub open spec fn settle(self, operation_id: u64, done: bool) -> SpineState {
        SpineState {
            processed: if done {
                self.processed.insert(operation_id)
            } else {
                self.processed
            },
            ..self
        }
    }

    /// Branches join the end of the waiting queue in their order, and nothing that waits,
    /// runs or is preempted is touched.
    pub proof fn law_branches_queue_in_order(
        self,
        branches: Seq<u64>,
        prompt: Seq<u32>,
        max_tokens: usize,
        priority: u8,
    )
        ensures
            ({
                let after = self.with_branches(branches, prompt, max_tokens, priority);
                &&& after.sched.waiting == self.sched.waiting + branches.map_values(
                    |id: u64| branch_request(id, prompt, max_tokens, priority, self.counter),
                )
                &&& after.sched.preempted == self.sched.preempted
                &&& after.sched.running == self.sched.running
                &&& after.counter == self.counter
                &&& after.processed == self.processed
            }),
        decreases branches.len(),
    {
        let request = |id: u64| branch_request(id, prompt, max_tokens, priority, self.counter);
        let after = self.with_branches(branches, prompt, max_tokens, priority);
        if branches.len() == 0 {
            assert(after.sched.waiting =~= self.sched.waiting + branches.map_values(request));
        } else {
            let next = SpineState {
                sched: self.sched.submit_request(request(branches[0])),
                ..self
            };
            let rest = branches.subrange(1, branches.len() as int);
            next.law_branches_queue_in_order(rest, prompt, max_tokens, priority);
            assert(rest.map_values(
                |id: u64| branch_request(id, prompt, max_tokens, priority, next.counter),
            ) =~= rest.map_values(request));
            assert(branches.map_values(request) =~= seq![request(branches[0])]
                + rest.map_values(request));
            assert(after.sched.waiting =~= self.sched.waiting + branches.map_values(request));
        }
    }

    /// An operation that was carried out is refused from then on; one that failed may be
    /// asked for again; and no settlement lets a refused operation through.
    pub proof fn law_operation_runs_once(self, operation_id: u64, other: u64, done: bool)
        ensures
            self.settle(operation_id, true).refuses(operation_id),
            self.settle(operation_id, false) == self,
            self.refuses(other) ==> self.settle(operation_id, done).refuses(other),
            other != operation_id ==> self.settle(operation_id, done).refuses(other)
                == self.refuses(other),
    {
        assert(self.settle(operation_id, false) =~= self);
    }

    /// Work that is submitted gets a number above all earlier ones, waits behind all others,
    /// and keeps the prompt, sampling, priority and sink that it came with.
    pub proof fn law_submitted_work_is_queued(
        self,
        prompt: Seq<u32>,
        sampling: SamplingState,
        priority: u8,
        sink_id: Option<CompletionSinkId>,
    )
        requires
            self.counter < u64::MAX,
        ensures
            ({
                let after = self.submit(prompt, sampling, priority, sink_id);
                let id = self.next();
                &&& after.counter > self.counter
                &&& after.sched.waiting.len() == self.sched.waiting.len() + 1
                &&& after.sched.waiting.last().request_id == id
                &&& after.sched.waiting.last().prompt_tokens == prompt
                &&& after.sched.waiting.last().sampling_params == sampling
                &&& after.sched.waiting.last().priority == Priority::of_rank(priority).rank_of()
                &&& after.sched.arena.records.contains_key(id)
                &&& after.sched.sink_of(id) == sink_id
            }),
    {
    }
}

// ---- The spine ----
/// Numbers work, steps the scheduler, and answers operators.
pub struct AienRuntimeSpine<S: CompletionSink> {
    pub scheduler: AienScheduler<S>,
    pub controller: RuntimeController,
    pub step_counter: u64,
}

impl<S: CompletionSink> View for AienRuntimeSpine<S> {
    type V = SpineState;

    open spec fn view(&self) -> SpineState {
        SpineState {
            sched: self.scheduler@,
            processed: self.controller@,
            counter: self.step_counter,
        }
    }
}

impl<S: CompletionSink> AienRuntimeSpine<S> {
    pub fn new(scheduler_config: SchedulerConfig) -> (r: Self)
        ensures
            r@ == SpineState::initial(scheduler_config),
            r@.sched.wf(),
    {
        AienRuntimeSpine {
            scheduler: AienScheduler::new(scheduler_config),
            controller: RuntimeController::new(),
            step_counter: 0,
        }
    }

    /// Queues described work.
    pub fn submit_inference_work(
        &mut self,
        work: InferenceWork,
        prompt: PromptHandle,
        sampling_params: Option<SamplingParams>,
        sink_id: Option<CompletionSinkId>,
    ) -> (r: Result<(), String>)
        ensures
            match r {
                Ok(_) => {
                    &&& !old(self)@.sched.arena.records.contains_key(work.sequence)
                    &&& final(self)@ == (SpineState {
                        sched: old(self)@.sched.submit_work(
                            work,
                            (*prompt)@,
                            match sampling_params {
                                Some(p) => p@,
                                None => SamplingState::initial(),
                            },
                            sink_id,
                        ),
                        ..old(self)@
                    })
                },
                Err(e) => {
                    &&& old(self)@.sched.arena.records.contains_key(work.sequence)
                    &&& final(self)@ == old(self)@
                    &&& e@ == "Sequence "@ + decimal(work.sequence as nat)
                        + " already exists in arena"@
                },
            },
            old(self)@.sched.wf() ==> final(self)@.sched.wf(),
    {
        self.scheduler.submit_work(work, prompt, sampling_params, sink_id)
    }

    /// Queues a prompt under the next number. The number is used up also where that fails.
    pub fn submit_work(
        &mut self,
        prompt: PromptHandle,
        sampling_params: SamplingParams,
        priority: u8,
        sink_id: Option<CompletionSinkId>,
    ) -> (r: Result<u64, String>)
        requires
            old(self)@.counter < u64::MAX,
        ensures
            match r {
                Ok(id) => {
                    &&& id == old(self)@.next()
                    &&& !old(self)@.sched.arena.records.contains_key(id)
                    &&& final(self)@ == old(self)@.submit(
                        (*prompt)@,
                        sampling_params@,
                        priority,
                        sink_id,
                    )
                },
                Err(e) => {
                    &&& old(self)@.sched.arena.records.contains_key(old(self)@.next())
                    &&& final(self)@ == old(self)@.counted()
                    &&& e@ == "Sequence "@ + decimal(old(self)@.next() as nat)
                        + " already exists in arena"@
                },
            },
            old(self)@.sched.wf() ==> final(self)@.sched.wf(),
    {
        self.step_counter = self.step_counter + 1;
        let seq_id: u64 = self.step_counter;
        let work = InferenceWork {
            sequence: seq_id,
            model: ModelHandle(1),
            kv: KvHandle(seq_id),
            priority: Priority::from_rank(priority),
            deadline: None,
            branch_parent: None,
            next_token_budget: low_u32(sampling_params.max_tokens),
        };
        match self.scheduler.submit_work(work, prompt, Some(sampling_params), sink_id) {
            Ok(_) => Ok(seq_id),
            Err(e) => Err(e),
        }
    }

    pub fn register_completion_sink(&mut self, sink: S) -> (r: CompletionSinkId)
        requires
            old(self)@.sched.router.next_id < u64::MAX,
        ensures
            r.0 == old(self)@.sched.router.next_id,
            final(self)@ == (SpineState {
                sched: SchedulerState {
                    router: old(self)@.sched.router.register(
                        sink.received(),
                        sink.target(),
                    ),
                    ..old(self)@.sched
                },
                ..old(self)@
            }),
            old(self)@.sched.wf() ==> final(self)@.sched.wf(),
    {
        self.scheduler.register_completion_sink(sink)
    }

    /// Branches a running sequence.
    pub fn fork_subagent<B: UnifiedBuffer>(
        &mut self,
        kv: &mut AienKvManager<B>,
        parent_id: u64,
        child_id: u64,
        sink_id: Option<CompletionSinkId>,
    ) -> (r: Result<(), String>)
        requires
            old(kv)@.wf(),
            old(kv)@.fork_fits(parent_id),
        ensures
            fork_result(
                old(self)@.sched,
                old(kv)@,
                parent_id,
                child_id,
                sink_id,
                final(self)@.sched,
                final(kv)@,
                r,
            ),
            final(self)@ == (SpineState { sched: final(self)@.sched, ..old(self)@ }),
            final(kv)@.wf(),
            old(self)@.sched.wf() ==> final(self)@.sched.wf(),
    {
        self.scheduler.fork_subagent_with_sink(kv, parent_id, child_id, sink_id)
    }

    /// A run of at most `max_steps` steps takes a further one: it has one left, and there is
    /// something to do.
    pub fn takes_further_step(&self, steps_taken: usize, max_steps: usize) -> (r: bool)
        ensures
            r == (steps_taken < max_steps && !self@.sched.idle()),
    {
        steps_taken < max_steps && !self.scheduler.is_idle()
    }

    /// Counts a step and builds its batch. Without a batch there is nothing to execute.
    pub fn begin_step<B: UnifiedBuffer>(&mut self, kv: &mut AienKvManager<B>) -> (r: Result<
        Option<ScheduledBatch>,
        String,
    >)
        requires
            old(kv)@.wf(),
            old(self)@.counter < u64::MAX,
            old(self)@.sched.round_fits(),
            old(self)@.sched.admission_fits(old(kv)@),
        ensures
            r is Ok,
            ({
                let round = old(self)@.sched.round(old(kv)@);
                &&& final(self)@ == (SpineState { sched: round.sched, ..old(self)@.counted() })
                &&& final(kv)@ == round.kv
                &&& match r->Ok_0 {
                    Some(batch) => round.batch() == Some(batch@),
                    None => round.batch() is None,
                }
            }),
            final(kv)@.wf(),
            old(self)@.sched.wf() ==> final(self)@.sched.wf(),
    {
        self.step_counter = self.step_counter + 1;
        self.scheduler.build_scheduled_batch(kv)
    }

    /// Takes in what a backend made of a batch. The final outputs, and what each asks of the
    /// runtime's sequence table.
    pub fn finish_step<B: UnifiedBuffer>(
        &mut self,
        kv: &mut AienKvManager<B>,
        batch: &ScheduledBatch,
        outputs: &Vec<DecodeOutput>,
        metrics: &StepMetrics,
        backend_appends: bool,
    ) -> (r: (Vec<DecodeOutput>, Vec<ArenaAction>))
        requires
            old(kv)@.wf(),
            old(self)@.sched.complete_fits(
                old(kv)@,
                batch@,
                outputs@,
                *metrics,
                backend_appends,
            ),
        ensures
            Settling::of(final(self)@.sched, final(kv)@, r.0@) == old(self)@.sched.complete(
                old(kv)@,
                batch@,
                outputs@,
                *metrics,
                backend_appends,
            ),
            final(self)@ == (SpineState { sched: final(self)@.sched, ..old(self)@ }),
            r.1@ == r.0@.map_values(|output: DecodeOutput| action_of(output)),
            final(kv)@.wf(),
            old(self)@.sched.wf() ==> final(self)@.sched.wf(),
    {
        let finals = self.scheduler.complete_step(kv, batch, outputs, metrics, backend_appends);
        let actions = arena_actions(&finals);
        (finals, actions)
    }

    /// Queues the branches of a swarm that was launched.
    pub fn enqueue_branches(
        &mut self,
        branches: &[u64],
        prompt_tokens: &[u32],
        max_tokens_per_branch: usize,
        priority: u8,
    )
        ensures
            final(self)@ == old(self)@.with_branches(
                branches@,
                prompt_tokens@,
                max_tokens_per_branch,
                priority,
            ),
            old(self)@.sched.wf() ==> final(self)@.sched.wf(),
    {
        let ghost first = self@;
        let mut i: usize = 0;
        assert(branches@.subrange(0, branches@.len() as int) =~= branches@);
        while i < branches.len()
            invariant
                i <= branches@.len(),
                self@.with_branches(
                    branches@.subrange(i as int, branches@.len() as int),
                    prompt_tokens@,
                    max_tokens_per_branch,
                    priority,
                ) == first.with_branches(
                    branches@,
                    prompt_tokens@,
                    max_tokens_per_branch,
                    priority,
                ),
                first.sched.wf() ==> self@.sched.wf(),
            decreases branches@.len() - i,
        {
            let ghost rest = branches@.subrange(i as int, branches@.len() as int);
            let ghost here = self@;
            proof {
                assert(rest.subrange(1, rest.len() as int) =~= branches@.subrange(
                    i + 1,
                    branches@.len() as int,
                ));
            }
            let request = SequenceRequest {
                request_id: branches[i],
                prompt_tokens: slice_to_vec(prompt_tokens),
                sampling_params: SamplingParams {
                    temperature: BRANCH_TEMPERATURE,
                    top_p: BRANCH_TOP_P,
                    max_tokens: max_tokens_per_branch,
                    stop_token_ids: vec![2],
                },
                arrival_time_ns: self.step_counter,
                priority,
            };
            assert(request@ =~= branch_request(
                rest[0],
                prompt_tokens@,
                max_tokens_per_branch,
                priority,
                here.counter,
            ));
            self.scheduler.submit_request(request);
            i = i + 1;
        }
    }

    /// What a command comes to. One whose operation was carried out before is refused.
    pub fn handle_control_command<L>(&self, operation_id: u64, command: ControlCommand<L>) -> (r:
        ControlAction<L>)
        ensures
            if self@.refuses(operation_id) {
                r matches ControlAction::Reply(ControlResponse::Error(e)) && e@ == "Operation "@
                    + decimal(operation_id as nat) + " already processed"@
            } else {
                r == match command {
                    ControlCommand::LaunchSwarm(req) => ControlAction::Launch(req),
                    ControlCommand::CancelSwarm(id) => ControlAction::Cancel(id),
                    ControlCommand::GetRuntimeStatus => ControlAction::Report,
                    ControlCommand::InspectSwarm(id) => ControlAction::Inspect(id),
                }
            },
    {
        if self.controller.is_operation_processed(operation_id) {
            return ControlAction::Reply(
                ControlResponse::Error(
                    numbered("Operation ", operation_id, " already processed"),
                ),
            );
        }
        match command {
            ControlCommand::LaunchSwarm(req) => ControlAction::Launch(req),
            ControlCommand::CancelSwarm(id) => ControlAction::Cancel(id),
            ControlCommand::GetRuntimeStatus => ControlAction::Report,
            ControlCommand::InspectSwarm(id) => ControlAction::Inspect(id),
        }
    }

    /// The answer to a launch that the caller tried. One that succeeded is carried out.
    pub fn settle_launch(&mut self, operation_id: u64, outcome: Result<u64, String>) -> (r:
        ControlResponse)
        ensures
            final(self)@ == old(self)@.settle(operation_id, outcome is Ok),
            r == match outcome {
                Ok(swarm_id) => ControlResponse::SwarmAccepted { swarm_id, operation_id },
                Err(e) => ControlResponse::Error(e),
            },
    {
        match outcome {
            Ok(swarm_id) => {
                self.controller.mark_operation_processed(operation_id);
                ControlResponse::SwarmAccepted { swarm_id, operation_id }
            },
            Err(e) => ControlResponse::Error(e),
        }
    }

    /// The answer to a cancellation that the caller tried.
    pub fn settle_cancel(
        &mut self,
        operation_id: u64,
        swarm_id: u64,
        outcome: Result<(), String>,
    ) -> (r: ControlResponse)
        ensures
            final(self)@ == old(self)@.settle(operation_id, outcome is Ok),
            r == match outcome {
                Ok(_) => ControlResponse::SwarmCancelled { swarm_id },
                Err(e) => ControlResponse::Error(e),
            },
    {
        match outcome {
            Ok(_) => {
                self.controller.mark_operation_processed(operation_id);
                ControlResponse::SwarmCancelled { swarm_id }
            },
            Err(e) => ControlResponse::Error(e),
        }
    }

    /// The answer to an inspection.
    pub fn settle_inspection(&self, swarm_id: u64, found: bool, report: RuntimeStatusReport) -> (r:
        ControlResponse)
        ensures
            if found {
                r == ControlResponse::Status(report)
            } else {
                r matches ControlResponse::Error(e) && e@ == "Swarm "@ + decimal(swarm_id as nat)
                    + " not found"@
            },
    {
        if found {
            ControlResponse::Status(report)
        } else {
            ControlResponse::Error(numbered("Swarm ", swarm_id, " not found"))
        }
    }

    /// The state of the runtime: the caller's counts, and the block counts of the KV manager.
    pub fn status_report<B: UnifiedBuffer>(
        &self,
        kv: &AienKvManager<B>,
        active_sequences: usize,
        active_swarms: usize,
        active_worlds: usize,
    ) -> (r: RuntimeStatusReport)
        requires
            kv@.wf(),
            kv@.logical_pages() <= usize::MAX,
            kv@.bytes_saved() <= usize::MAX,
        ensures
            r == (RuntimeStatusReport {
                active_sequences,
                active_swarms,
                active_worlds,
                free_kv_blocks: kv@.free.len() as usize,
                total_kv_blocks: kv@.total_blocks,
                shared_kv_pages: kv@.shared_pages() as usize,
                cow_faults: kv@.cow_faults,
                gpu_utilization_pct: 0,
            }),
    {
        let metrics = kv.metrics();
        let free: usize = kv.free_block_count();
        RuntimeStatusReport {
            active_sequences,
            active_swarms,
            active_worlds,
            free_kv_blocks: free,
            total_kv_blocks: free + kv.allocated_block_count(),
            shared_kv_pages: metrics.shared_pages,
            cow_faults: metrics.cow_faults,
            gpu_utilization_pct: 0,
        }
    }
}

/// What each output asks of the runtime's sequence table.
pub fn arena_actions(outputs: &Vec<DecodeOutput>) -> (r: Vec<ArenaAction>)
    ensures
        r@ == outputs@.map_values(|output: DecodeOutput| action_of(output)),
{
    let ghost act = |output: DecodeOutput| action_of(output);
    let mut r: Vec<ArenaAction> = Vec::new();
    let mut i: usize = 0;
    while i < outputs.len()
        invariant
            i <= outputs@.len(),
            r@.len() == i,
            act == (|output: DecodeOutput| action_of(output)),
            forall|j: int| 0 <= j < i ==> #[trigger] r@[j] == act(outputs@[j]),
        decreases outputs@.len() - i,
    {
        r.push(
            match outputs[i] {
                DecodeOutput::Token { request_id, .. } => ArenaAction::CountToken(request_id),
                DecodeOutput::Finished { request_id, .. } => ArenaAction::Complete(request_id),
            },
        );
        i = i + 1;
    }
    assert(r@ =~= outputs@.map_values(act));
    r
}

} // verus!
