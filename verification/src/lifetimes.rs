//! The life of a request in the scheduler: how it starts, what each token makes of it, when it
//! ends, and how a branch goes on from its parent.

use crate::abi::{BatchState, DecodeOutput, FinishReason, RequestState, StepMetrics};
use crate::completion::CompletionSinkId;
use crate::kv_state::KvState;
use crate::maps::{ascending, in_order, lemma_ordered};
use crate::scheduler_state::{Round, RunningState, SchedulerState, Settling};
use crate::sequence::SequencePhase;
use vstd::prelude::*;

verus! {

impl SchedulerState {
    /// A branch goes on from its parent's point: it runs with as many tokens generated and as
    /// much of the prompt prefilled, under the parent's request but for the identifier, and its
    /// record, where the parent has one, tells the same. Nothing else changes.
    pub proof fn law_branch_goes_on(
        self,
        parent: u64,
        child: u64,
        sink_id: Option<CompletionSinkId>,
    )
        requires
            self.running.contains_key(parent),
            parent != child,
        ensures
            ({
                let after = self.fork(parent, child, sink_id);
                let p = self.running[parent];
                let c = after.running[child];
                &&& after.running.contains_key(child)
                &&& c.tokens_generated == p.tokens_generated
                &&& c.prompt_tokens_prefilled == p.prompt_tokens_prefilled
                &&& c.is_prefilled == p.is_prefilled
                &&& c.request.request_id == child
                &&& c.request.prompt_tokens == p.request.prompt_tokens
                &&& c.request.sampling_params == p.request.sampling_params
                &&& c.request.arrival_time_ns == p.request.arrival_time_ns
                &&& c.request.priority == p.request.priority
                &&& after.running.remove(child) == self.running.remove(child)
                &&& after.waiting == self.waiting
                &&& after.preempted == self.preempted
                &&& after.config == self.config
                &&& after.step_id == self.step_id
                &&& after.metrics == self.metrics
                &&& after.router == self.router
                &&& after.arena.total_tokens_generated == self.arena.total_tokens_generated
                &&& after.arena.total_prefilled_tokens == self.arena.total_prefilled_tokens
                &&& after.arena.records.remove(child) == self.arena.records.remove(child)
                &&& self.arena.records.contains_key(child) ==> after.arena == self.arena
                &&& self.arena.records.contains_key(parent) && !self.arena.records.contains_key(
                    child,
                ) ==> {
                    let r = self.arena.records[parent];
                    let n = after.arena.records[child];
                    &&& after.arena.records.contains_key(child)
                    &&& n.seq_id == child
                    &&& n.kv.0 == child
                    &&& n.branch_parent == Some(parent)
                    &&& n.sink_id == sink_id
                    &&& n.phase == SequencePhase::Decode
                    &&& n.prompt == r.prompt
                    &&& n.generated_tokens == r.generated_tokens
                    &&& n.tokens_generated == r.tokens_generated
                    &&& n.prompt_tokens_prefilled == r.prompt_tokens_prefilled
                    &&& n.is_prefilled == r.is_prefilled
                    &&& n.sampling_params == r.sampling_params
                    &&& n.priority == r.priority
                    &&& n.model == r.model
                    &&& n.deadline == r.deadline
                    &&& n.next_token_budget == r.next_token_budget
                    &&& n.arrival_time_ns == r.arrival_time_ns
                }
            }),
    {
        let after = self.fork(parent, child, sink_id);
        assert(after.running.remove(child) =~= self.running.remove(child));
        assert(after.arena.records.remove(child) =~= self.arena.records.remove(child));
    }

    /// A branch that is given the tokens that its parent is given ends when the parent does,
    /// for the same reason and with as many tokens.
    pub proof fn law_branch_ends_as_parent(
        self,
        kv: KvState,
        parent: u64,
        child: u64,
        sink_id: Option<CompletionSinkId>,
        token: u32,
        logprob: Option<u32>,
    )
        requires
            self.running.contains_key(parent),
            self.running[parent].is_prefilled,
            parent != child,
        ensures
            ({
                let s = Settling {
                    sched: self.fork(parent, child, sink_id),
                    kv,
                    outputs: Seq::empty(),
                };
                let p = s.settle(
                    DecodeOutput::Token { request_id: parent, token_id: token, logprob },
                    true,
                );
                let c = s.settle(
                    DecodeOutput::Token { request_id: child, token_id: token, logprob },
                    true,
                );
                &&& p.outputs.len() == 1
                &&& c.outputs.len() == 1
                &&& match p.outputs[0] {
                    DecodeOutput::Finished { reason, total_tokens, .. } => c.outputs[0]
                        == (DecodeOutput::Finished { request_id: child, reason, total_tokens }),
                    DecodeOutput::Token { .. } => c.outputs[0] == (DecodeOutput::Token {
                        request_id: child,
                        token_id: token,
                        logprob,
                    }),
                }
                &&& p.sched.running.contains_key(parent) == c.sched.running.contains_key(child)
                &&& p.sched.running.contains_key(parent)
                    ==> p.sched.running[parent].tokens_generated
                    == c.sched.running[child].tokens_generated
            }),
    {
    }
}

/// What a sequence is told of a token that counts: its end where the token is one of its stop
/// tokens, where it reached its limit, or where there is nowhere to store the token; else the
/// token.
pub open spec fn told(
    r: RunningState,
    id: u64,
    token: u32,
    logprob: Option<u32>,
    stored: bool,
) -> DecodeOutput {
    let n = (r.tokens_generated + 1) as usize;
    if r.request.sampling_params.stop_token_ids.contains(token) {
        DecodeOutput::Finished { request_id: id, reason: FinishReason::StopToken, total_tokens: n }
    } else if n >= r.request.sampling_params.max_tokens {
        DecodeOutput::Finished {
            request_id: id,
            reason: FinishReason::LengthLimit,
            total_tokens: n,
        }
    } else if !stored {
        DecodeOutput::Finished { request_id: id, reason: FinishReason::Preempted, total_tokens: n }
    } else {
        DecodeOutput::Token { request_id: id, token_id: token, logprob }
    }
}

impl Settling {
    /// What a token makes of a running sequence: it is told of one thing; it runs on with one
    /// token more, or runs no more; only one that ended for good gives its blocks back and
    /// counts as finished; only one whose token could not be stored is queued again. Every
    /// other sequence is left alone.
    pub proof fn law_token_settles(
        self,
        id: u64,
        token: u32,
        logprob: Option<u32>,
        backend_appends: bool,
    )
        requires
            self.sched.running.contains_key(id),
            self.sched.running[id].is_prefilled,
            self.sched.running[id].tokens_generated < usize::MAX,
            self.sched.metrics.finished_requests < u64::MAX,
            self.sched.metrics.preempted_requests < u64::MAX,
            self.sched.arena.token_room(1),
        ensures
            ({
                let r = self.sched.running[id];
                let done = self.settle(
                    DecodeOutput::Token { request_id: id, token_id: token, logprob },
                    backend_appends,
                );
                let out = told(
                    r,
                    id,
                    token,
                    logprob,
                    backend_appends || self.kv.append_possible(id),
                );
                let set_back = out is Finished && out->reason == FinishReason::Preempted;
                let ended = out is Finished && !set_back;
                &&& done.outputs == self.outputs.push(out)
                &&& done.sched.running == if out is Token {
                    self.sched.running.insert(
                        id,
                        RunningState {
                            tokens_generated: (r.tokens_generated + 1) as usize,
                            request: r.request,
                            prompt_tokens_prefilled: r.prompt_tokens_prefilled,
                            is_prefilled: r.is_prefilled,
                        },
                    )
                } else {
                    self.sched.running.remove(id)
                }
                &&& done.sched.waiting == self.sched.waiting
                &&& done.sched.preempted == if set_back {
                    self.sched.preempted.push(r.request)
                } else {
                    self.sched.preempted
                }
                &&& done.sched.metrics.finished_requests
                    == self.sched.metrics.finished_requests + if ended {
                    1int
                } else {
                    0int
                }
                &&& done.sched.metrics.preempted_requests
                    == self.sched.metrics.preempted_requests + if set_back {
                    1int
                } else {
                    0int
                }
                &&& done.kv == if ended {
                    self.kv.free_sequence(id)
                } else if out is Token && !backend_appends {
                    self.kv.append(id)
                } else {
                    self.kv
                }
                &&& self.sched.arena.records.contains_key(id) ==> {
                    let before = self.sched.arena.records[id];
                    let after = done.sched.arena.records[id];
                    &&& after.generated_tokens == before.generated_tokens.push(token)
                    &&& after.tokens_generated == before.tokens_generated + 1
                    &&& after.prompt == before.prompt
                    &&& after.sink_id == before.sink_id
                    &&& after.phase == if ended {
                        SequencePhase::Finished
                    } else if set_back {
                        SequencePhase::Preempted
                    } else {
                        before.phase
                    }
                    &&& done.sched.arena.total_tokens_generated
                        == self.sched.arena.total_tokens_generated + 1
                }
                &&& done.sched.arena.records.remove(id) == self.sched.arena.records.remove(id)
            }),
    {
        let r = self.sched.running[id];
        let done = self.settle(
            DecodeOutput::Token { request_id: id, token_id: token, logprob },
            backend_appends,
        );
        assert(done.sched.arena.records.remove(id) =~= self.sched.arena.records.remove(id));
        let more = RunningState {
            tokens_generated: (r.tokens_generated + 1) as usize,
            request: r.request,
            prompt_tokens_prefilled: r.prompt_tokens_prefilled,
            is_prefilled: r.is_prefilled,
        };
        assert(self.sched.running.insert(id, more).remove(id) =~= self.sched.running.remove(id));
    }

    /// What an end that the backend reports makes of a sequence: it runs no more, gives its
    /// blocks back, counts as finished, and the report is passed on as it is.
    pub proof fn law_end_settles(
        self,
        id: u64,
        reason: FinishReason,
        total_tokens: usize,
        backend_appends: bool,
    )
        requires
            self.sched.metrics.finished_requests < u64::MAX,
        ensures
            ({
                let out = DecodeOutput::Finished { request_id: id, reason, total_tokens };
                let done = self.settle(out, backend_appends);
                &&& done.outputs == self.outputs.push(out)
                &&& done.sched.running == self.sched.running.remove(id)
                &&& done.sched.waiting == self.sched.waiting
                &&& done.sched.preempted == self.sched.preempted
                &&& done.sched.metrics.finished_requests
                    == self.sched.metrics.finished_requests + 1
                &&& done.sched.metrics.preempted_requests
                    == self.sched.metrics.preempted_requests
                &&& done.kv == self.kv.free_sequence(id)
                &&& self.sched.arena.records.contains_key(id)
                    ==> done.sched.arena.records[id].phase == SequencePhase::Finished
                    && done.sched.arena.records[id].generated_tokens
                    == self.sched.arena.records[id].generated_tokens
                &&& done.sched.arena.records.remove(id) == self.sched.arena.records.remove(id)
            }),
    {
        let done = self.settle(
            DecodeOutput::Finished { request_id: id, reason, total_tokens },
            backend_appends,
        );
        assert(done.sched.arena.records.remove(id) =~= self.sched.arena.records.remove(id));
    }

    /// A sequence that meets no stop token runs until it has as many tokens as it may have, and
    /// then ends with that many: tokens that come after its end change nothing.
    pub proof fn law_limit_is_reached(self, id: u64, tokens: Seq<u32>)
        requires
            self.sched.running.contains_key(id),
            self.sched.running[id].is_prefilled,
            self.sched.running[id].tokens_generated
                < self.sched.running[id].request.sampling_params.max_tokens,
            forall|i: int|
                0 <= i < tokens.len()
                    ==> !self.sched.running[id].request.sampling_params.stop_token_ids.contains(
                    #[trigger] tokens[i],
                ),
        ensures
            ({
                let r = self.sched.running[id];
                let max = r.request.sampling_params.max_tokens;
                let left = max - r.tokens_generated;
                let outputs = tokens.map_values(
                    |t: u32|
                        DecodeOutput::Token { request_id: id, token_id: t, logprob: None },
                );
                let done = self.settle_all(outputs, true);
                if tokens.len() < left {
                    &&& done.sched.running.contains_key(id)
                    &&& done.sched.running[id].tokens_generated == r.tokens_generated
                        + tokens.len()
                    &&& done.outputs == self.outputs + outputs
                } else {
                    &&& !done.sched.running.contains_key(id)
                    &&& done.outputs == (self.outputs + outputs.take(left - 1)).push(
                        DecodeOutput::Finished {
                            request_id: id,
                            reason: FinishReason::LengthLimit,
                            total_tokens: max,
                        },
                    )
                }
            }),
        decreases tokens.len(),
    {
        let r = self.sched.running[id];
        let left = r.request.sampling_params.max_tokens - r.tokens_generated;
        let out = |t: u32| DecodeOutput::Token { request_id: id, token_id: t, logprob: None };
        let outputs = tokens.map_values(out);
        if tokens.len() == 0 {
            assert(self.outputs + outputs =~= self.outputs);
        } else {
            let rest = tokens.subrange(1, tokens.len() as int);
            let after = outputs.subrange(1, outputs.len() as int);
            assert(after =~= rest.map_values(out));
            assert(!r.request.sampling_params.stop_token_ids.contains(tokens[0]));
            let next = self.settle(outputs[0], true);
            if left > 1 {
                assert forall|i: int| 0 <= i < rest.len() implies !next.sched.running[
                    id
                ].request.sampling_params.stop_token_ids.contains(#[trigger] rest[i]) by {
                    assert(rest[i] == tokens[i + 1]);
                }
                next.law_limit_is_reached(id, rest);
                assert(next.outputs + after =~= self.outputs + outputs);
                if tokens.len() >= left {
                    assert(next.outputs + after.take(left - 2) =~= self.outputs + outputs.take(
                        left - 1,
                    ));
                }
            } else {
                next.lemma_late_tokens(id, after);
                assert(outputs.take(0) =~= Seq::<DecodeOutput>::empty());
                assert(self.outputs + outputs.take(0) =~= self.outputs);
            }
        }
    }

    /// Tokens of a sequence that does not run change nothing.
    proof fn lemma_late_tokens(self, id: u64, outputs: Seq<DecodeOutput>)
        requires
            !self.sched.running.contains_key(id),
            forall|i: int|
                0 <= i < outputs.len() ==> (#[trigger] outputs[i]) is Token
                    && outputs[i]->Token_request_id == id,
        ensures
            self.settle_all(outputs, true) == self,
        decreases outputs.len(),
    {
        if outputs.len() > 0 {
            assert(outputs[0] is Token);
            let rest = outputs.subrange(1, outputs.len() as int);
            assert forall|i: int| 0 <= i < rest.len() implies (#[trigger] rest[i]) is Token
                && rest[i]->Token_request_id == id by {
                assert(rest[i] == outputs[i + 1]);
            }
            self.lemma_late_tokens(id, rest);
        }
    }
}

// ---- Rounds ----
impl Round {
    proof fn lemma_runs_keep_running(self, ids: Seq<u64>)
        ensures
            self.run_all(ids).sched.running == self.sched.running,
            self.run_all(ids).sched.config == self.sched.config,
            self.run_all(ids).sched.step_id == self.sched.step_id,
            self.run_all(ids).sched.waiting == self.sched.waiting,
            self.run_all(ids).sched.preempted == self.sched.preempted,
            self.run_all(ids).kv == self.kv,
            self.run_all(ids).sched.metrics.preempted_requests
                == self.sched.metrics.preempted_requests,
            self.run_all(ids).sched.metrics.finished_requests
                == self.sched.metrics.finished_requests,
            self.run_all(ids).sched.metrics.total_steps == self.sched.metrics.total_steps,
        decreases ids.len(),
    {
        if !(ids.len() == 0 || self.full() || self.tokens()
            >= self.sched.config.max_batch_tokens) {
            self.run_one(ids[0]).lemma_runs_keep_running(ids.subrange(1, ids.len() as int));
        }
    }

    /// The next chunk of a running prompt is as long as it may be: it takes the prompt to its
    /// end, or is as long as a chunk may be, or uses up the tokens that the batch had left for
    /// prompts.
    pub proof fn law_chunks_are_full(self, id: u64)
        requires
            self.sched.running.contains_key(id),
            !self.sched.running[id].is_prefilled,
            self.sched.running[id].prompt_tokens_prefilled
                < self.sched.running[id].request.prompt_tokens.len(),
            self.sched.config.prefill_chunk_size > 0,
            self.draft.budget > 0,
        ensures
            ({
                let seq = self.sched.running[id];
                let after = self.run_one(id);
                let chunk = after.draft.prefill.last();
                let n = chunk.prompt_tokens.len();
                &&& after.draft.prefill.len() == self.draft.prefill.len() + 1
                &&& after.draft.decode == self.draft.decode
                &&& chunk.request_id == seq.request.request_id
                &&& chunk.sampling_params == seq.request.sampling_params
                &&& n > 0
                &&& seq.prompt_tokens_prefilled + n == seq.request.prompt_tokens.len() || n
                    == self.sched.config.prefill_chunk_size || after.draft.budget == 0
                &&& after.draft.budget == self.draft.budget - n
            }),
    {
    }
}

/// A request stands in a queue.
pub open spec fn stands_in(queue: Seq<RequestState>, request: RequestState) -> bool {
    exists|i: int| 0 <= i < queue.len() && queue[i] == request
}

impl Round {
    /// What admitting from a queue makes of the running sequences.
    proof fn lemma_admits(self, preempted: bool, id: u64)
        requires
            forall|i: int|
                0 <= i < self.queue(preempted).len() ==> (#[trigger] self.queue(
                    preempted,
                )[i]).request_id != id || !self.sched.running.contains_key(id),
            self.sched.distinct(),
        ensures
            ({
                let after = self.admit_all(preempted);
                &&& self.sched.running.contains_key(id) ==> after.sched.running.contains_key(id)
                    && after.sched.running[id] == self.sched.running[id]
                &&& !self.sched.running.contains_key(id) && after.sched.running.contains_key(id)
                    ==> {
                    let r = after.sched.running[id];
                    &&& stands_in(self.queue(preempted), r.request)
                    &&& r.request.request_id == id
                    &&& r.tokens_generated == 0
                    &&& r.prompt_tokens_prefilled == 0 || r.is_prefilled
                        && r.prompt_tokens_prefilled == r.request.prompt_tokens.len() as usize
                    &&& r.prompt_tokens_prefilled == 0 && r.request.prompt_tokens.len()
                        <= usize::MAX ==> r.is_prefilled == (!self.sched.config.chunk_prefill
                        || r.request.prompt_tokens.len() <= self.sched.config.prefill_chunk_size)
                }
                &&& after.queue(!preempted) == self.queue(!preempted)
                &&& after.sched.config == self.sched.config
                &&& after.sched.step_id == self.sched.step_id
                &&& after.sched.metrics.preempted_requests
                    == self.sched.metrics.preempted_requests
                &&& after.sched.metrics.finished_requests
                    == self.sched.metrics.finished_requests
                &&& after.sched.metrics.total_steps == self.sched.metrics.total_steps
                &&& after.queue(preempted).len() == 0 || !after.admissible(
                    after.queue(preempted)[0],
                )
            }),
        decreases self.queue(preempted).len(),
    {
        let queue = self.queue(preempted);
        if queue.len() > 0 && self.admissible(queue[0]) {
            let next = self.admit_one(preempted);
            let rest = next.queue(preempted);
            assert(rest == queue.subrange(1, queue.len() as int));
            assert forall|i: int| 0 <= i < rest.len() implies (#[trigger] rest[i]).request_id != id
                || !next.sched.running.contains_key(id) by {
                assert(rest[i] == queue[i + 1]);
                assert(queue[0].request_id != queue[i + 1].request_id);
            }
            self.lemma_one_still_distinct(preempted);
            next.lemma_admits(preempted, id);
            let after = self.admit_all(preempted);
            if !self.sched.running.contains_key(id) && after.sched.running.contains_key(id) {
                let r = after.sched.running[id];
                if next.sched.running.contains_key(id) {
                    assert(r.request == queue[0]);
                } else {
                    let i = choose|i: int| 0 <= i < rest.len() && rest[i] == r.request;
                    assert(queue[i + 1] == r.request);
                }
            }
        }
    }
}

impl SchedulerState {
    /// How a round treats those that run and those that wait. While enough blocks are free, or
    /// nothing runs, every running sequence runs on with the progress that it has; one that
    /// starts comes from a queue, as it stood there, and has generated nothing; what then
    /// heads the waiting queue does not fit into the batch or has no blocks.
    pub proof fn law_round_goes_on(self, kv: KvState, id: u64)
        requires
            self.wf(),
            self.distinct(),
            kv.free.len() >= self.config.watermark_blocks || self.running.dom().len() == 0,
            self.step_id < u64::MAX,
        ensures
            ({
                let after = self.round(kv);
                &&& after.sched.step_id == self.step_id + 1
                &&& after.sched.metrics.preempted_requests == self.metrics.preempted_requests
                &&& after.sched.metrics.finished_requests == self.metrics.finished_requests
                &&& after.sched.metrics.total_steps == self.metrics.total_steps
                &&& self.running.contains_key(id) ==> after.sched.running.contains_key(id)
                    && after.sched.running[id] == self.running[id]
                &&& !self.running.contains_key(id) && after.sched.running.contains_key(id) ==> {
                    let r = after.sched.running[id];
                    &&& stands_in(self.preempted, r.request) || stands_in(self.waiting, r.request)
                    &&& r.request.request_id == id
                    &&& r.tokens_generated == 0
                    &&& r.prompt_tokens_prefilled == 0 || r.is_prefilled
                        && r.prompt_tokens_prefilled == r.request.prompt_tokens.len() as usize
                    &&& r.prompt_tokens_prefilled == 0 && r.request.prompt_tokens.len()
                        <= usize::MAX ==> r.is_prefilled == (!self.config.chunk_prefill
                        || r.request.prompt_tokens.len() <= self.config.prefill_chunk_size)
                }
                &&& after.sched.waiting.len() > 0 ==> {
                    let head = after.sched.waiting[0];
                    let n = head.prompt_tokens.len() as int;
                    let size = self.config.prefill_chunk_size as int;
                    let chunk = if self.config.chunk_prefill && size < n {
                        size
                    } else {
                        n
                    };
                    let tokens = self.config.max_prefill_tokens - after.draft.budget
                        + after.draft.decode.len();
                    ||| after.draft.decode.len() + after.draft.prefill.len()
                        >= self.config.max_batch_size
                    ||| chunk > after.draft.budget
                    ||| tokens + chunk > self.config.max_batch_tokens
                    ||| !after.kv.tables.contains_key(head.request_id)
                        && after.kv.blocks_needed(n) > after.kv.free.len()
                }
            }),
    {
        let next = SchedulerState { step_id: (self.step_id + 1) as u64, ..self };
        let start = Round::start(next, kv);
        let ids = in_order(self.running.dom());
        start.lemma_runs_keep_running(ids);
        let ran = start.run_all(ids);
        let queue = ran.queue(true);
        assert forall|i: int| 0 <= i < queue.len() implies (#[trigger] queue[i]).request_id != id
            || !ran.sched.running.contains_key(id) by {
            assert(queue[i] == self.preempted[i]);
        }
        assert(ran.sched.distinct());
        ran.lemma_admits(true, id);
        let then = ran.admit_all(true);
        ran.lemma_still_distinct(true);
        let waiting = then.queue(false);
        assert forall|i: int| 0 <= i < waiting.len() implies (#[trigger] waiting[i]).request_id
            != id || !then.sched.running.contains_key(id) by {
            assert(waiting[i] == then.sched.waiting[i]);
        }
        then.lemma_admits(false, id);
    }

    /// Under memory pressure, that is with fewer blocks free than there should be while
    /// something runs, one running sequence gives way, and none of lower priority runs: its
    /// blocks are given back and its request is queued behind the preempted ones. Nothing
    /// starts, and all others run on with the progress that they have.
    pub proof fn law_pressure_is_relieved(self, kv: KvState) -> (gone: u64)
        requires
            self.wf(),
            kv.free.len() < self.config.watermark_blocks,
            self.running.dom().len() > 0,
            self.metrics.preempted_requests < u64::MAX,
            self.step_id < u64::MAX,
        ensures
            self.running.contains_key(gone),
            forall|other: u64| #[trigger]
                self.running.contains_key(other) ==> self.running[gone].request.priority
                    <= self.running[other].request.priority,
            self.round(kv).sched.running == self.running.remove(gone),
            self.round(kv).sched.waiting == self.waiting,
            self.round(kv).sched.preempted == self.preempted.push(self.running[gone].request),
            self.round(kv).kv == kv.free_sequence(gone),
            self.round(kv).sched.metrics.preempted_requests == self.metrics.preempted_requests + 1,
            self.round(kv).sched.step_id == self.step_id + 1,
            self.arena.records.contains_key(gone) ==> self.round(
                kv,
            ).sched.arena.records[gone].phase == SequencePhase::Preempted,
    {
        let gone = crate::scheduler_state::victim(self.running);
        self.law_pressure_preempts_one(kv);
        let next = SchedulerState { step_id: (self.step_id + 1) as u64, ..self };
        let r = Round::start(next, kv).preempt();
        let ids = in_order(r.sched.running.dom());
        r.lemma_runs_keep_running(ids);
        lemma_ordered(r.sched.running.dom());
        if ids.contains(gone) {
            assert(ids.to_set().contains(gone));
        }
        r.lemma_runs_leave_phase(ids, gone);
        gone
    }
}

impl Round {
    /// Admitting a request keeps identifiers distinct.
    proof fn lemma_one_still_distinct(self, preempted: bool)
        requires
            self.sched.distinct(),
            self.queue(preempted).len() > 0,
        ensures
            self.admit_one(preempted).sched.distinct(),
    {
        let queue = self.queue(preempted);
        let other = self.queue(!preempted);
        let next = self.admit_one(preempted);
        let rest = next.queue(preempted);
        let before = self.sched;
        let after = next.sched;
        assert(rest == queue.subrange(1, queue.len() as int));
        assert forall|i: int, j: int|
            #![trigger rest[i], rest[j]]
            0 <= i < j < rest.len() implies rest[i].request_id != rest[j].request_id by {
            assert(rest[i] == queue[i + 1]);
            assert(rest[j] == queue[j + 1]);
        }
        assert forall|i: int| 0 <= i < rest.len() implies !after.running.contains_key(
            (#[trigger] rest[i]).request_id,
        ) by {
            assert(rest[i] == queue[i + 1]);
            assert(queue[0].request_id != queue[i + 1].request_id);
        }
        assert forall|i: int| 0 <= i < other.len() implies !after.running.contains_key(
            (#[trigger] other[i]).request_id,
        ) by {
            if preempted {
                assert(before.waiting[i].request_id != before.preempted[0].request_id);
            } else {
                assert(before.waiting[0].request_id != before.preempted[i].request_id);
            }
        }
        assert forall|i: int, j: int|
            #![trigger after.waiting[i], after.preempted[j]]
            0 <= i < after.waiting.len() && 0 <= j < after.preempted.len() implies
            after.waiting[i].request_id != after.preempted[j].request_id by {
            if preempted {
                assert(after.preempted[j] == before.preempted[j + 1]);
                assert(after.waiting[i] == before.waiting[i]);
            } else {
                assert(after.waiting[i] == before.waiting[i + 1]);
                assert(after.preempted[j] == before.preempted[j]);
            }
        }
    }

    proof fn lemma_still_distinct(self, preempted: bool)
        requires
            self.sched.distinct(),
        ensures
            self.admit_all(preempted).sched.distinct(),
        decreases self.queue(preempted).len(),
    {
        if self.queue(preempted).len() > 0 && self.admissible(self.queue(preempted)[0]) {
            self.lemma_one_still_distinct(preempted);
            self.admit_one(preempted).lemma_still_distinct(preempted);
        }
    }
}

// ---- Totals ----
/// How many outputs report an end for good.
pub open spec fn ends_in(outputs: Seq<DecodeOutput>) -> nat
    decreases outputs.len(),
{
    if outputs.len() == 0 {
        0
    } else {
        ends_in(outputs.drop_last()) + match outputs.last() {
            DecodeOutput::Finished { reason, .. } => if reason == FinishReason::Preempted {
                0nat
            } else {
                1nat
            },
            DecodeOutput::Token { .. } => 0nat,
        }
    }
}


impl Settling {
    proof fn lemma_ends_are_counted(self, outputs: Seq<DecodeOutput>, backend_appends: bool)
        requires
            self.sched.metrics.finished_requests + outputs.len() <= u64::MAX,
            forall|i: int|
                0 <= i < outputs.len() ==> (#[trigger] outputs[i]) is Token || outputs[i]->reason
                    != FinishReason::Preempted,
        ensures
            ({
                let done = self.settle_all(outputs, backend_appends);
                done.sched.metrics.finished_requests - self.sched.metrics.finished_requests
                    == ends_in(done.outputs) - ends_in(self.outputs)
            }),
        decreases outputs.len(),
    {
        if outputs.len() > 0 {
            let next = self.settle(outputs[0], backend_appends);
            let rest = outputs.subrange(1, outputs.len() as int);
            assert(outputs[0] is Token || outputs[0]->reason != FinishReason::Preempted);
            assert forall|i: int| 0 <= i < rest.len() implies (#[trigger] rest[i]) is Token
                || rest[i]->reason != FinishReason::Preempted by {
                assert(rest[i] == outputs[i + 1]);
            }
            if next.outputs.len() > 0 && next.outputs != self.outputs {
                assert(next.outputs.drop_last() =~= self.outputs);
            }
            next.lemma_ends_are_counted(rest, backend_appends);
        }
    }
}

impl SchedulerState {
    /// The totals of a step: one step more, the tokens that the backend counted, and one
    /// finished request for each end for good that is reported.
    pub proof fn law_totals_add_up(
        self,
        kv: KvState,
        batch: BatchState,
        outputs: Seq<DecodeOutput>,
        metrics: StepMetrics,
        backend_appends: bool,
    )
        requires
            self.complete_fits(kv, batch, outputs, metrics, backend_appends),
            forall|i: int|
                0 <= i < outputs.len() ==> (#[trigger] outputs[i]) is Token || outputs[i]->reason
                    != FinishReason::Preempted,
        ensures
            ({
                let done = self.complete(kv, batch, outputs, metrics, backend_appends);
                let m = done.sched.metrics;
                &&& m.total_steps == self.metrics.total_steps + 1
                &&& m.total_prefill_tokens == self.metrics.total_prefill_tokens
                    + metrics.prefill_tokens_processed
                &&& m.total_decode_tokens == self.metrics.total_decode_tokens
                    + metrics.decode_tokens_emitted
                &&& m.admitted_requests == self.metrics.admitted_requests
                &&& m.chunked_prefill_steps == self.metrics.chunked_prefill_steps
                &&& m.finished_requests == self.metrics.finished_requests + ends_in(done.outputs)
            }),
    {
        self.lemma_notes_keep_totals(batch.prefill_requests);
        let noted = Settling {
            sched: self.note_prefills(batch.prefill_requests),
            kv,
            outputs: Seq::empty(),
        };
        noted.lemma_ends_are_counted(outputs, backend_appends);
        noted.lemma_settling_keeps_totals(outputs, backend_appends);
    }

    proof fn lemma_notes_keep_totals(self, chunks: Seq<RequestState>)
        ensures
            self.note_prefills(chunks).metrics == self.metrics,
        decreases chunks.len(),
    {
        if chunks.len() > 0 {
            self.note_prefill(chunks[0]).lemma_notes_keep_totals(
                chunks.subrange(1, chunks.len() as int),
            );
        }
    }
}

impl Settling {
    proof fn lemma_settling_keeps_totals(self, outputs: Seq<DecodeOutput>, backend_appends: bool)
        ensures
            ({
                let m = self.settle_all(outputs, backend_appends).sched.metrics;
                &&& m.total_steps == self.sched.metrics.total_steps
                &&& m.total_prefill_tokens == self.sched.metrics.total_prefill_tokens
                &&& m.total_decode_tokens == self.sched.metrics.total_decode_tokens
                &&& m.admitted_requests == self.sched.metrics.admitted_requests
                &&& m.chunked_prefill_steps == self.sched.metrics.chunked_prefill_steps
            }),
        decreases outputs.len(),
    {
        if outputs.len() > 0 {
            self.settle(outputs[0], backend_appends).lemma_settling_keeps_totals(
                outputs.subrange(1, outputs.len() as int),
                backend_appends,
            );
        }
    }
}

// ---- Order ----
/// Entries that were added from place `from` on have increasing identifiers, all of them at
/// least `least`.
spec fn rises(ids: Seq<u64>, from: int, least: int) -> bool {
    &&& forall|i: int, j: int| from <= i < j < ids.len() ==> ids[i] < ids[j]
    &&& forall|i: int| from <= i < ids.len() ==> least <= #[trigger] ids[i]
}

/// The identifiers of requests.
pub open spec fn ids_of(requests: Seq<RequestState>) -> Seq<u64> {
    requests.map_values(|r: RequestState| r.request_id)
}

impl Round {
    proof fn lemma_runs_in_order(self, ids: Seq<u64>, least: int)
        requires
            ascending(ids),
            forall|i: int| 0 <= i < ids.len() ==> least <= #[trigger] ids[i],
            forall|i: int|
                0 <= i < ids.len() ==> self.sched.running[#[trigger] ids[i]].request.request_id
                    == ids[i],
        ensures
            ({
                let after = self.run_all(ids);
                &&& self.draft.decode.is_prefix_of(after.draft.decode)
                &&& self.draft.prefill.is_prefix_of(after.draft.prefill)
                &&& rises(after.draft.decode, self.draft.decode.len() as int, least)
                &&& rises(ids_of(after.draft.prefill), self.draft.prefill.len() as int, least)
            }),
        decreases ids.len(),
    {
        if !(ids.len() == 0 || self.full() || self.tokens()
            >= self.sched.config.max_batch_tokens) {
            let id = ids[0];
            let next = self.run_one(id);
            let rest = ids.subrange(1, ids.len() as int);
            assert forall|i: int| 0 <= i < rest.len() implies id + 1 <= #[trigger] rest[i] by {
                assert(rest[i] == ids[i + 1]);
                assert(ids[0] < ids[i + 1]);
            }
            assert forall|i: int, j: int| 0 <= i < j < rest.len() implies rest[i] < rest[j] by {
                assert(rest[i] == ids[i + 1]);
                assert(rest[j] == ids[j + 1]);
            }
            assert(next.sched.running == self.sched.running);
            assert forall|i: int| 0 <= i < rest.len() implies next.sched.running[
                #[trigger] rest[i]
            ].request.request_id == rest[i] by {
                assert(rest[i] == ids[i + 1]);
            }
            next.lemma_runs_in_order(rest, id + 1);
            let after = self.run_all(ids);
            let d = after.draft.decode;
            let p = ids_of(after.draft.prefill);
            assert(self.sched.running[ids[0]].request.request_id == id);
            if next.draft.decode.len() > self.draft.decode.len() {
                let at = self.draft.decode.len() as int;
                assert(next.draft.decode == self.draft.decode.push(id));
                assert(next.draft.decode[at] == id);
                assert(d[at] == next.draft.decode[at]);
            }
            if next.draft.prefill.len() > self.draft.prefill.len() {
                let at = self.draft.prefill.len() as int;
                assert(after.draft.prefill[at] == next.draft.prefill[at]);
                assert(p[at] == id);
            }
        }
    }
}

impl SchedulerState {
    /// Those that run are taken up by identifier, the smallest first: both the decode steps and
    /// the chunks of a batch start with theirs, in that order.
    pub proof fn law_running_go_in_order(self, kv: KvState)
        requires
            self.wf(),
        ensures
            ascending(self.after_running(kv).draft.decode),
            ascending(ids_of(self.after_running(kv).draft.prefill)),
    {
        let next = SchedulerState { step_id: (self.step_id + 1) as u64, ..self };
        let ids = in_order(self.running.dom());
        lemma_ordered(self.running.dom());
        assert forall|i: int| 0 <= i < ids.len() implies next.running[
            #[trigger] ids[i]
        ].request.request_id == ids[i] by {
            assert(ids.to_set().contains(ids[i]));
            assert(self.running.contains_key(ids[i]));
        }
        Round::start(next, kv).lemma_runs_in_order(ids, 0);
    }

    /// A request is queued behind all others, as it is; it gets a record that stands for it,
    /// unless there is one under its identifier already. Nothing that runs is touched.
    pub proof fn law_request_is_queued(self, request: RequestState)
        ensures
            ({
                let after = self.submit_request(request);
                let id = request.request_id;
                &&& after.waiting.len() == self.waiting.len() + 1
                &&& after.waiting.last() == request
                &&& after.waiting.drop_last() == self.waiting
                &&& after.preempted == self.preempted
                &&& after.running == self.running
                &&& after.metrics == self.metrics
                &&& after.router == self.router
                &&& after.step_id == self.step_id
                &&& after.arena.records.contains_key(id)
                &&& self.arena.records.contains_key(id) ==> after.arena == self.arena
                &&& !self.arena.records.contains_key(id) ==> {
                    let r = after.arena.records[id];
                    &&& r.seq_id == id
                    &&& r.prompt == request.prompt_tokens
                    &&& r.sampling_params == request.sampling_params
                    &&& r.arrival_time_ns == request.arrival_time_ns
                    &&& r.phase == SequencePhase::Waiting
                    &&& r.tokens_generated == 0
                    &&& r.generated_tokens.len() == 0
                    &&& r.prompt_tokens_prefilled == 0
                    &&& !r.is_prefilled
                    &&& r.sink_id is None
                    &&& r.branch_parent is None
                    &&& after.arena.records.remove(id) == self.arena.records
                }
            }),
    {
        let after = self.submit_request(request);
        assert(after.waiting.drop_last() =~= self.waiting);
        if !self.arena.records.contains_key(request.request_id) {
            assert(after.arena.records.remove(request.request_id) =~= self.arena.records);
        }
    }

    /// A sequence starts at the end of its prompt, and with each token that counts its position
    /// moves on by one; no other sequence moves.
    pub proof fn law_positions_move_on(self, request: RequestState, id: u64, token: u32, other: u64)
        requires
            self.running.contains_key(id),
            self.running[id].tokens_generated < usize::MAX,
            self.arena.token_room(1),
            other != id,
        ensures
            self.with_token(id, token).position_of(id) == self.position_of(id) + 1,
            self.with_token(id, token).position_of(other) == self.position_of(other),
            !self.arena.records.contains_key(request.request_id) ==> self.submit_request(
                request,
            ).position_of(request.request_id) == request.prompt_tokens.len(),
    {
    }

    /// A branch stands where its parent stands.
    pub proof fn law_branch_stands_with_parent(
        self,
        parent: u64,
        child: u64,
        sink_id: Option<CompletionSinkId>,
    )
        requires
            self.running.contains_key(parent),
            parent != child,
            !self.arena.records.contains_key(child),
        ensures
            self.fork(parent, child, sink_id).position_of(child) == self.position_of(parent),
            self.fork(parent, child, sink_id).position_of(parent) == self.position_of(parent),
    {
    }
}

// ---- Admission ----
impl Round {
    /// The phase of a sequence that is not taken up stays.
    proof fn lemma_runs_leave_phase(self, ids: Seq<u64>, id: u64)
        requires
            !ids.contains(id),
        ensures
            self.run_all(ids).sched.arena.records.contains_key(id)
                == self.sched.arena.records.contains_key(id),
            self.run_all(ids).sched.arena.records[id] == self.sched.arena.records[id],
        decreases ids.len(),
    {
        if !(ids.len() == 0 || self.full() || self.tokens()
            >= self.sched.config.max_batch_tokens) {
            let rest = ids.subrange(1, ids.len() as int);
            assert(ids.contains(ids[0]));
            if rest.contains(id) {
                let i = choose|i: int| 0 <= i < rest.len() && rest[i] == id;
                assert(ids[i + 1] == id);
            }
            self.run_one(ids[0]).lemma_runs_leave_phase(rest, id);
        }
    }

    /// What taking up a running sequence does: one whose prompt is prefilled and that has
    /// blocks gets a decode step, with its blocks; one with prompt tokens left gets the next of
    /// them. Its record is moved to the phase that it is in, and nothing else changes.
    pub proof fn law_running_is_taken_up(self, id: u64)
        requires
            self.sched.running.contains_key(id),
            self.sched.metrics.chunked_prefill_steps < u64::MAX,
        ensures
            ({
                let seq = self.sched.running[id];
                let after = self.run_one(id);
                let known = self.kv.tables.contains_key(id);
                &&& after.kv == self.kv
                &&& after.sched.running == self.sched.running
                &&& seq.is_prefilled && known ==> {
                    &&& after.draft.decode == self.draft.decode.push(id)
                    &&& after.draft.prefill == self.draft.prefill
                    &&& after.draft.budget == self.draft.budget
                    &&& after.draft.tables == self.draft.tables.insert(
                        id,
                        self.kv.tables[id].block_ids,
                    )
                    &&& self.sched.arena.records.contains_key(id)
                        ==> after.sched.arena.records[id].phase == SequencePhase::Decode
                }
                &&& seq.is_prefilled && !known ==> after == self
                &&& !seq.is_prefilled ==> {
                    let n = after.draft.prefill.len();
                    let chunks = self.draft.prefill.len();
                    let from = seq.prompt_tokens_prefilled as int;
                    &&& after.draft.decode == self.draft.decode
                    &&& n == chunks || n == chunks + 1
                    &&& n == chunks ==> after == self
                    &&& n == chunks + 1 ==> {
                        let chunk = after.draft.prefill.last();
                        let len = chunk.prompt_tokens.len() as int;
                        &&& after.draft.prefill.drop_last() == self.draft.prefill
                        &&& chunk == (RequestState {
                            prompt_tokens: seq.request.prompt_tokens.subrange(from, from + len),
                            ..seq.request
                        })
                        &&& after.sched.metrics.chunked_prefill_steps
                            == self.sched.metrics.chunked_prefill_steps + 1
                        &&& self.sched.arena.records.contains_key(id)
                            ==> after.sched.arena.records[id].phase == SequencePhase::Prefill
                        &&& known ==> after.draft.tables == self.draft.tables.insert(
                            id,
                            self.kv.tables[id].block_ids,
                        )
                        &&& !known ==> after.draft.tables == self.draft.tables
                    }
                }
            }),
    {
        let after = self.run_one(id);
        if after.draft.prefill.len() > self.draft.prefill.len() {
            assert(after.draft.prefill.drop_last() =~= self.draft.prefill);
        }
    }

    /// What admitting a request does. One whose whole prompt is in the KV cache gets a decode
    /// step. Another gets blocks, unless it has some, and the front of its prompt as its first
    /// chunk: as much as a chunk may hold, or all of it where prompts are not cut. It then runs
    /// as it stood in the queue, with nothing generated and nothing noted as prefilled.
    pub proof fn law_admission(self, preempted: bool)
        requires
            self.queue(preempted).len() > 0,
            self.admissible(self.queue(preempted)[0]),
            self.queue(preempted)[0].prompt_tokens.len() <= usize::MAX,
            self.sched.metrics.admitted_requests < u64::MAX,
        ensures
            ({
                let request = self.queue(preempted)[0];
                let id = request.request_id;
                let n = request.prompt_tokens.len() as int;
                let size = self.sched.config.prefill_chunk_size as int;
                let cut = self.sched.config.chunk_prefill && size < n;
                let chunk = if cut {
                    size
                } else {
                    n
                };
                let cached = self.kv.tables.contains_key(id) && self.kv.tables[id].total_tokens
                    >= n;
                let after = self.admit_one(preempted);
                &&& after.queue(preempted) == self.queue(preempted).drop_first()
                &&& after.queue(!preempted) == self.queue(!preempted)
                &&& after.sched.running.remove(id) == self.sched.running.remove(id)
                &&& after.sched.running.contains_key(id)
                &&& after.sched.running[id].request == request
                &&& after.sched.running[id].tokens_generated == 0
                &&& after.sched.running[id].prompt_tokens_prefilled == if cached {
                    n
                } else {
                    0
                }
                &&& after.sched.running[id].is_prefilled == (cached || !cut)
                &&& after.sched.metrics.admitted_requests
                    == self.sched.metrics.admitted_requests + 1
                &&& self.kv.tables.contains_key(id) ==> after.kv == self.kv
                &&& !self.kv.tables.contains_key(id) ==> after.kv == self.kv.allocate(id, n)
                &&& after.draft.tables == self.draft.tables.insert(
                    id,
                    after.kv.tables[id].block_ids,
                )
                &&& cached ==> {
                    &&& after.draft.decode == self.draft.decode.push(id)
                    &&& after.draft.prefill == self.draft.prefill
                    &&& after.draft.budget == self.draft.budget
                }
                &&& !cached ==> {
                    &&& after.draft.decode == self.draft.decode
                    &&& after.draft.prefill == self.draft.prefill.push(
                        RequestState {
                            prompt_tokens: request.prompt_tokens.take(chunk),
                            ..request
                        },
                    )
                    &&& after.draft.budget == self.draft.budget - chunk
                }
                &&& self.sched.arena.records.contains_key(id)
                    ==> after.sched.arena.records[id].phase == if cached || !cut {
                    SequencePhase::Decode
                } else {
                    SequencePhase::Prefill
                }
            }),
    {
        let queue = self.queue(preempted);
        let request = queue[0];
        let id = request.request_id;
        let after = self.admit_one(preempted);
        let chunk = self.first_chunk(request);
        assert(after.queue(preempted) =~= queue.drop_first());
        assert(after.sched.running.remove(id) =~= self.sched.running.remove(id));
        assert(request.prompt_tokens.take(chunk) =~= request.prompt_tokens.subrange(0, chunk));
    }

    proof fn lemma_admits_within_tokens(self, preempted: bool, most: int)
        requires
            self.tokens() <= most,
            self.sched.config.max_batch_tokens <= most,
            !self.sched.config.chunk_prefill || self.sched.config.prefill_chunk_size > 0,
            forall|i: int|
                0 <= i < self.queue(preempted).len() ==> (#[trigger] self.queue(
                    preempted,
                )[i]).prompt_tokens.len() > 0,
        ensures
            self.admit_all(preempted).tokens() <= most,
            self.admit_all(preempted).sched.config == self.sched.config,
            self.admit_all(preempted).queue(!preempted) == self.queue(!preempted),
        decreases self.queue(preempted).len(),
    {
        let queue = self.queue(preempted);
        if queue.len() > 0 && self.admissible(queue[0]) {
            let next = self.admit_one(preempted);
            assert(queue[0].prompt_tokens.len() > 0);
            assert forall|i: int| 0 <= i < next.queue(preempted).len() implies (
            #[trigger] next.queue(preempted)[i]).prompt_tokens.len() > 0 by {
                assert(next.queue(preempted)[i] == queue[i + 1]);
            }
            next.lemma_admits_within_tokens(preempted, most);
        }
    }
}

impl SchedulerState {
    /// Admission keeps to the tokens of a batch: no request is admitted beyond them, so that
    /// only what ran already can have crossed the limit.
    pub proof fn law_admission_within_tokens(self, kv: KvState)
        requires
            !self.under_pressure(kv),
            !self.config.chunk_prefill || self.config.prefill_chunk_size > 0,
            forall|i: int|
                0 <= i < self.waiting.len() ==> (#[trigger] self.waiting[i]).prompt_tokens.len()
                    > 0,
            forall|i: int|
                0 <= i < self.preempted.len() ==> (#[trigger] self.preempted[i]).prompt_tokens.len()
                    > 0,
        ensures
            self.round(kv).tokens() <= self.config.max_batch_tokens || self.round(kv).tokens()
                <= self.after_running(kv).tokens(),
    {
        let next = SchedulerState { step_id: (self.step_id + 1) as u64, ..self };
        Round::start(next, kv).lemma_runs_keep_running(in_order(self.running.dom()));
        let ran = self.after_running(kv);
        let most = if ran.tokens() > self.config.max_batch_tokens {
            ran.tokens()
        } else {
            self.config.max_batch_tokens as int
        };
        assert(ran.queue(true) == self.preempted);
        ran.lemma_admits_within_tokens(true, most);
        assert(ran.admit_all(true).queue(false) == self.waiting);
        ran.admit_all(true).lemma_admits_within_tokens(false, most);
    }
}

// ---- Limits ----
impl SchedulerState {
    /// No running sequence has as many tokens as it may have; one that may have none is left
    /// out, for it ends with its first.
    pub open spec fn under_limits(self) -> bool {
        forall|id: u64| #[trigger]
            self.running.contains_key(id) ==> {
                let r = self.running[id];
                r.request.sampling_params.max_tokens == 0 || r.tokens_generated
                    < r.request.sampling_params.max_tokens
            }
    }

    proof fn lemma_notes_keep_limits(self, chunks: Seq<RequestState>)
        requires
            self.under_limits(),
        ensures
            self.note_prefills(chunks).under_limits(),
        decreases chunks.len(),
    {
        if chunks.len() > 0 {
            self.note_prefill(chunks[0]).lemma_notes_keep_limits(
                chunks.subrange(1, chunks.len() as int),
            );
        }
    }

    /// Whatever is done, no sequence runs on beyond its limit: neither branching, nor building a
    /// batch, nor completing a step lets one.
    pub proof fn law_limits_hold(
        self,
        kv: KvState,
        batch: BatchState,
        outputs: Seq<DecodeOutput>,
        metrics: StepMetrics,
        backend_appends: bool,
        parent: u64,
        child: u64,
        sink_id: Option<CompletionSinkId>,
    )
        requires
            self.under_limits(),
        ensures
            self.running.contains_key(parent) ==> self.fork(parent, child, sink_id).under_limits(),
            self.round(kv).sched.under_limits(),
            self.complete(kv, batch, outputs, metrics, backend_appends).sched.under_limits(),
    {
        let next = SchedulerState { step_id: (self.step_id + 1) as u64, ..self };
        let start = Round::start(next, kv);
        if self.under_pressure(kv) {
            let r = start.preempt();
            r.lemma_runs_keep_running(in_order(r.sched.running.dom()));
        } else {
            start.lemma_runs_keep_running(in_order(self.running.dom()));
            let ran = self.after_running(kv);
            ran.lemma_admits_keep_limits(true);
            ran.admit_all(true).lemma_admits_keep_limits(false);
        }
        self.lemma_notes_keep_limits(batch.prefill_requests);
        let noted = Settling {
            sched: self.note_prefills(batch.prefill_requests),
            kv,
            outputs: Seq::empty(),
        };
        noted.lemma_settling_keeps_limits(outputs, backend_appends);
    }
}

impl Round {
    proof fn lemma_admits_keep_limits(self, preempted: bool)
        requires
            self.sched.under_limits(),
        ensures
            self.admit_all(preempted).sched.under_limits(),
        decreases self.queue(preempted).len(),
    {
        if self.queue(preempted).len() > 0 && self.admissible(self.queue(preempted)[0]) {
            self.admit_one(preempted).lemma_admits_keep_limits(preempted);
        }
    }
}

impl Settling {
    proof fn lemma_settling_keeps_limits(self, outputs: Seq<DecodeOutput>, backend_appends: bool)
        requires
            self.sched.under_limits(),
        ensures
            self.settle_all(outputs, backend_appends).sched.under_limits(),
        decreases outputs.len(),
    {
        if outputs.len() > 0 {
            self.settle(outputs[0], backend_appends).lemma_settling_keeps_limits(
                outputs.subrange(1, outputs.len() as int),
                backend_appends,
            );
        }
    }
}

} // verus!
