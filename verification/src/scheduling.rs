//! What the scheduler promises over a step: its limits, its queues, and that no request
//! and no block is lost.

use crate::abi::{
    prompt_total, BatchState, DecodeOutput, FinishReason, RequestState, SamplingState, StepMetrics,
};
use crate::completion::{CompletionSinkId, EventState};
use crate::kv_state::KvState;
use crate::maps::{in_order, lemma_ordered};
use crate::platform::InferenceWork;
use crate::scheduler_state::{
    distinct_ids, is_victim, victim, Round, RunningState, SchedulerConfig, SchedulerState, Settling,
};
use vstd::prelude::*;

verus! {

/// A request under this identifier is in a queue.
pub open spec fn is_queued(queue: Seq<RequestState>, id: u64) -> bool {
    exists|i: int| 0 <= i < queue.len() && (#[trigger] queue[i]).request_id == id
}

/// A sequence was reported as finished.
pub open spec fn is_reported(outputs: Seq<DecodeOutput>, id: u64) -> bool {
    exists|i: int|
        0 <= i < outputs.len() && (#[trigger] outputs[i]) is Finished
            && outputs[i]->Finished_request_id == id
}

/// Adding to the end keeps what is there and adds one.
proof fn lemma_queued_push(queue: Seq<RequestState>, request: RequestState, id: u64)
    ensures
        is_queued(queue.push(request), id) == (is_queued(queue, id) || request.request_id == id),
{
    let more = queue.push(request);
    if is_queued(queue, id) {
        let i = choose|i: int| 0 <= i < queue.len() && (#[trigger] queue[i]).request_id == id;
        assert(more[i].request_id == id);
    }
    assert(more[queue.len() as int] == request);
    if is_queued(more, id) {
        let i = choose|i: int| 0 <= i < more.len() && (#[trigger] more[i]).request_id == id;
        if i < queue.len() {
            assert(queue[i].request_id == id);
        }
    }
}

/// Taking the first leaves the others.
proof fn lemma_queued_pop(queue: Seq<RequestState>, id: u64)
    requires
        queue.len() > 0,
    ensures
        is_queued(queue, id) == (is_queued(queue.subrange(1, queue.len() as int), id)
            || queue[0].request_id == id),
{
    let rest = queue.subrange(1, queue.len() as int);
    if is_queued(queue, id) {
        let i = choose|i: int| 0 <= i < queue.len() && (#[trigger] queue[i]).request_id == id;
        if i > 0 {
            assert(rest[i - 1].request_id == id);
        }
    }
    if is_queued(rest, id) {
        let i = choose|i: int| 0 <= i < rest.len() && (#[trigger] rest[i]).request_id == id;
        assert(queue[i + 1].request_id == id);
    }
    if queue[0].request_id == id {
        assert(queue[0].request_id == id);
    }
}

/// Reports stay, and a new one is there.
proof fn lemma_reported_push(outputs: Seq<DecodeOutput>, output: DecodeOutput, id: u64)
    ensures
        is_reported(outputs, id) ==> is_reported(outputs.push(output), id),
        output is Finished && output->Finished_request_id == id ==> is_reported(
            outputs.push(output),
            id,
        ),
{
    let more = outputs.push(output);
    if is_reported(outputs, id) {
        let i = choose|i: int|
            0 <= i < outputs.len() && (#[trigger] outputs[i]) is Finished
                && outputs[i]->Finished_request_id == id;
        assert(more[i] == outputs[i]);
    }
    assert(more[outputs.len() as int] == output);
}

/// A finite, nonempty set of running sequences has a victim.
proof fn lemma_victim_exists(running: Map<u64, RunningState>)
    requires
        running.dom().finite(),
        running.dom().len() > 0,
    ensures
        is_victim(running, victim(running)),
    decreases running.dom().len(),
{
    let a = running.dom().choose();
    assert(running.contains_key(a));
    let rest = running.remove(a);
    if rest.dom().len() == 0 {
        assert(forall|other: u64| #[trigger] running.contains_key(other) ==> other == a) by {
            assert forall|other: u64| #[trigger] running.contains_key(other) implies other == a by {
                if other != a {
                    assert(rest.dom().contains(other));
                }
            }
        }
        assert(is_victim(running, a));
    } else {
        lemma_victim_exists(rest);
        let v = victim(rest);
        assert(rest.contains_key(v));
        let pa = running[a].request.priority;
        let pv = running[v].request.priority;
        let best = if pa < pv || pa == pv && a <= v {
            a
        } else {
            v
        };
        assert forall|other: u64| #[trigger] running.contains_key(
            other,
        ) implies running[best].request.priority < running[other].request.priority
            || running[best].request.priority == running[other].request.priority && best <= other by {
            if other != a {
                assert(rest.contains_key(other));
            }
        }
        assert(is_victim(running, best));
    }
}

impl SchedulerState {
    /// A sequence waits, runs or is preempted.
    pub open spec fn knows(self, id: u64) -> bool {
        ||| self.running.contains_key(id)
        ||| is_queued(self.waiting, id)
        ||| is_queued(self.preempted, id)
    }

    /// Only running and preempted sequences hold blocks.
    pub open spec fn owns_all(self, kv: KvState) -> bool {
        forall|id: u64| #[trigger]
            kv.tables.contains_key(id) ==> self.running.contains_key(id) || is_queued(
                self.preempted,
                id,
            )
    }

    /// The books are in order: every counted block is held, and every holder is known.
    pub open spec fn accounts(self, kv: KvState) -> bool {
        &&& kv.wf()
        &&& kv.counts_exact()
        &&& self.owns_all(kv)
    }
}

impl Round {
    /// The limits hold so far, and the budget tells what was spent.
    spec fn in_budget(self) -> bool {
        let chunk = self.sched.config.prefill_chunk_size as int;
        &&& self.draft.budget <= self.sched.config.max_prefill_tokens
        &&& self.entries() <= self.sched.config.max_batch_size
        &&& prompt_total(self.draft.prefill) + self.draft.budget
            == self.sched.config.max_prefill_tokens
        &&& self.tokens() <= self.sched.config.max_batch_tokens + if chunk > 1 {
            chunk
        } else {
            1
        }
    }

    /// The tables of the batch are those of the KV manager, and every decode step has one.
    spec fn tables_match(self) -> bool {
        &&& forall|id: u64| #[trigger]
            self.draft.tables.contains_key(id) ==> self.kv.tables.contains_key(id)
                && self.draft.tables[id] == self.kv.tables[id].block_ids
        &&& forall|i: int|
            0 <= i < self.draft.decode.len() ==> self.draft.tables.contains_key(
                #[trigger] self.draft.decode[i],
            )
    }

    proof fn lemma_run_one(self, id: u64)
        requires
            !self.full(),
            self.tokens() < self.sched.config.max_batch_tokens,
        ensures
            self.in_budget() ==> self.run_one(id).in_budget(),
            self.tables_match() ==> self.run_one(id).tables_match(),
            self.run_one(id).kv == self.kv,
            self.run_one(id).sched.running == self.sched.running,
            self.run_one(id).sched.waiting == self.sched.waiting,
            self.run_one(id).sched.preempted == self.sched.preempted,
            self.run_one(id).sched.config == self.sched.config,
            self.run_one(id).sched.router == self.sched.router,
            self.run_one(id).sched.metrics.admitted_requests
                == self.sched.metrics.admitted_requests,
    {
        let after = self.run_one(id);
        if after.draft.prefill.len() > self.draft.prefill.len() {
            assert(after.draft.prefill.drop_last() =~= self.draft.prefill);
        }
        if self.tables_match() {
            assert forall|i: int|
                0 <= i < after.draft.decode.len() implies after.draft.tables.contains_key(
                #[trigger] after.draft.decode[i],
            ) by {
                if i < self.draft.decode.len() {
                    assert(after.draft.decode[i] == self.draft.decode[i]);
                }
            }
        }
    }

    proof fn lemma_run_all(self, ids: Seq<u64>)
        ensures
            self.in_budget() ==> self.run_all(ids).in_budget(),
            self.tables_match() ==> self.run_all(ids).tables_match(),
            self.run_all(ids).kv == self.kv,
            self.run_all(ids).sched.running == self.sched.running,
            self.run_all(ids).sched.waiting == self.sched.waiting,
            self.run_all(ids).sched.preempted == self.sched.preempted,
            self.run_all(ids).sched.config == self.sched.config,
            self.run_all(ids).sched.router == self.sched.router,
            self.run_all(ids).sched.metrics.admitted_requests
                == self.sched.metrics.admitted_requests,
        decreases ids.len(),
    {
        if !(ids.len() == 0 || self.full() || self.tokens()
            >= self.sched.config.max_batch_tokens) {
            self.lemma_run_one(ids[0]);
            self.run_one(ids[0]).lemma_run_all(ids.subrange(1, ids.len() as int));
        }
    }

    proof fn lemma_admit_one(self, preempted: bool)
        requires
            self.queue(preempted).len() > 0,
            self.admissible(self.queue(preempted)[0]),
        ensures
            self.in_budget() ==> self.admit_one(preempted).in_budget(),
            self.tables_match() ==> self.admit_one(preempted).tables_match(),
            self.admit_one(preempted).sched.config == self.sched.config,
            self.admit_one(preempted).sched.router == self.sched.router,
            self.admit_one(preempted).sched.metrics.admitted_requests as int
                == (self.sched.metrics.admitted_requests + 1) as u64,
            self.sched.owns_all(self.kv) ==> self.admit_one(preempted).sched.owns_all(
                self.admit_one(preempted).kv,
            ),
            forall|id: u64|
                self.admit_one(preempted).sched.knows(id) == #[trigger] self.sched.knows(id),
    {
        let queue = self.queue(preempted);
        let request = queue[0];
        let after = self.admit_one(preempted);
        let n = request.prompt_tokens.len() as int;
        self.kv.lemma_fill_shape(n, self.kv.blocks_needed(n));
        if after.draft.prefill.len() > self.draft.prefill.len() {
            assert(after.draft.prefill.drop_last() =~= self.draft.prefill);
        }
        if self.tables_match() {
            assert forall|i: int|
                0 <= i < after.draft.decode.len() implies after.draft.tables.contains_key(
                #[trigger] after.draft.decode[i],
            ) by {
                if i < self.draft.decode.len() {
                    assert(after.draft.decode[i] == self.draft.decode[i]);
                }
            }
            assert forall|id: u64| #[trigger] after.draft.tables.contains_key(
                id,
            ) implies after.kv.tables.contains_key(id) && after.draft.tables[id]
                == after.kv.tables[id].block_ids by {
                if id != request.request_id {
                    assert(self.draft.tables.contains_key(id));
                }
            }
        }
        assert forall|id: u64| after.sched.knows(id) == #[trigger] self.sched.knows(id) by {
            lemma_queued_pop(queue, id);
        }
        if self.sched.owns_all(self.kv) {
            assert forall|id: u64| #[trigger] after.kv.tables.contains_key(
                id,
            ) implies after.sched.running.contains_key(id) || is_queued(
                after.sched.preempted,
                id,
            ) by {
                lemma_queued_pop(queue, id);
                if id != request.request_id {
                    assert(self.kv.tables.contains_key(id));
                }
            }
        }
    }

    proof fn lemma_admit_all(self, preempted: bool)
        ensures
            self.in_budget() ==> self.admit_all(preempted).in_budget(),
            self.tables_match() ==> self.admit_all(preempted).tables_match(),
            self.admit_all(preempted).sched.config == self.sched.config,
            self.admit_all(preempted).sched.router == self.sched.router,
            self.sched.owns_all(self.kv) ==> self.admit_all(preempted).sched.owns_all(
                self.admit_all(preempted).kv,
            ),
            forall|id: u64|
                self.admit_all(preempted).sched.knows(id) == #[trigger] self.sched.knows(id),
        decreases self.queue(preempted).len(),
    {
        if self.queue(preempted).len() > 0 && self.admissible(self.queue(preempted)[0]) {
            self.lemma_admit_one(preempted);
            self.admit_one(preempted).lemma_admit_all(preempted);
            assert forall|id: u64| self.admit_all(preempted).sched.knows(id)
                == #[trigger] self.sched.knows(id) by {
                assert(self.admit_one(preempted).sched.knows(id) == self.sched.knows(id));
            }
        }
    }

    /// Admitting from a queue takes a part from its front and leaves the other queue.
    proof fn lemma_admit_suffix(self, preempted: bool) -> (k: int)
        ensures
            0 <= k <= self.queue(preempted).len(),
            self.admit_all(preempted).queue(preempted) == self.queue(preempted).subrange(
                k,
                self.queue(preempted).len() as int,
            ),
            self.admit_all(preempted).queue(!preempted) == self.queue(!preempted),
        decreases self.queue(preempted).len(),
    {
        let queue = self.queue(preempted);
        if queue.len() > 0 && self.admissible(queue[0]) {
            let k = self.admit_one(preempted).lemma_admit_suffix(preempted);
            assert(queue.subrange(1, queue.len() as int).subrange(k, queue.len() - 1)
                =~= queue.subrange(k + 1, queue.len() as int));
            k + 1
        } else {
            assert(queue.subrange(0, queue.len() as int) =~= queue);
            0
        }
    }

    /// The batch has an entry for a sequence.
    pub open spec fn schedules(self, id: u64) -> bool {
        self.draft.decode.contains(id) || is_queued(self.draft.prefill, id)
    }

    /// Admitting keeps what runs and what is scheduled.
    proof fn lemma_admit_keeps(self, preempted: bool, id: u64)
        ensures
            self.sched.running.contains_key(id) ==> self.admit_all(
                preempted,
            ).sched.running.contains_key(id),
            self.draft.decode.contains(id) ==> self.admit_all(preempted).draft.decode.contains(id),
            self.schedules(id) ==> self.admit_all(preempted).schedules(id),
        decreases self.queue(preempted).len(),
    {
        if self.queue(preempted).len() > 0 && self.admissible(self.queue(preempted)[0]) {
            let next = self.admit_one(preempted);
            let request = self.queue(preempted)[0];
            if self.draft.decode.contains(id) {
                let i = choose|i: int|
                    0 <= i < self.draft.decode.len() && self.draft.decode[i] == id;
                assert(next.draft.decode[i] == id);
            }
            lemma_queued_push(
                self.draft.prefill,
                RequestState {
                    prompt_tokens: request.prompt_tokens.subrange(0, self.first_chunk(request)),
                    ..request
                },
                id,
            );
            next.lemma_admit_keeps(preempted, id);
        }
    }

    /// The first request of a queue joins the batch where it can.
    proof fn lemma_admit_first(self, preempted: bool)
        requires
            self.queue(preempted).len() > 0,
            self.admissible(self.queue(preempted)[0]),
        ensures
            ({
                let id = self.queue(preempted)[0].request_id;
                let after = self.admit_all(preempted);
                after.sched.running.contains_key(id) && after.schedules(id)
            }),
    {
        let request = self.queue(preempted)[0];
        let id = request.request_id;
        let next = self.admit_one(preempted);
        lemma_queued_push(
            self.draft.prefill,
            RequestState {
                prompt_tokens: request.prompt_tokens.subrange(0, self.first_chunk(request)),
                ..request
            },
            id,
        );
        if self.is_cached(request) {
            assert(next.draft.decode.last() == id);
            assert(next.draft.decode[next.draft.decode.len() - 1] == id);
        }
        next.lemma_admit_keeps(preempted, id);
    }

    /// With room for all of them, every listed sequence that can decode does.
    proof fn lemma_run_all_decodes(self, ids: Seq<u64>, id: u64)
        requires
            self.entries() + ids.len() <= self.sched.config.max_batch_size,
            self.sched.config.max_prefill_tokens + self.draft.decode.len() + ids.len()
                <= self.sched.config.max_batch_tokens,
            self.sched.running[id].is_prefilled,
            self.kv.tables.contains_key(id),
        ensures
            ids.contains(id) || self.draft.decode.contains(id) ==> self.run_all(
                ids,
            ).draft.decode.contains(id),
        decreases ids.len(),
    {
        if ids.len() > 0 && (ids.contains(id) || self.draft.decode.contains(id)) {
            self.lemma_run_one(ids[0]);
            let next = self.run_one(ids[0]);
            let rest = ids.subrange(1, ids.len() as int);
            if self.draft.decode.contains(id) {
                let i = choose|i: int|
                    0 <= i < self.draft.decode.len() && self.draft.decode[i] == id;
                assert(next.draft.decode[i] == id);
            } else if ids[0] == id {
                assert(next.draft.decode[self.draft.decode.len() as int] == id);
            } else {
                let i = choose|i: int| 0 <= i < ids.len() && ids[i] == id;
                assert(rest[i - 1] == id);
            }
            next.lemma_run_all_decodes(rest, id);
        }
    }

    /// A chunk is the next part of the prompt of its running sequence.
    pub open spec fn is_next_part(self, chunk: RequestState) -> bool {
        let id = chunk.request_id;
        let seq = self.sched.running[id];
        let from = seq.prompt_tokens_prefilled as int;
        let n = chunk.prompt_tokens.len() as int;
        &&& self.sched.running.contains_key(id)
        &&& n <= usize::MAX
        &&& from + n <= seq.request.prompt_tokens.len()
        &&& chunk.prompt_tokens == seq.request.prompt_tokens.subrange(from, from + n)
    }

    spec fn all_next_parts(self) -> bool {
        forall|i: int|
            0 <= i < self.draft.prefill.len() ==> self.is_next_part(
                #[trigger] self.draft.prefill[i],
            )
    }

    proof fn lemma_run_all_parts(self, ids: Seq<u64>)
        requires
            self.sched.wf(),
            self.all_next_parts(),
            forall|i: int|
                0 <= i < ids.len() ==> self.sched.running.contains_key(#[trigger] ids[i]),
        ensures
            self.run_all(ids).all_next_parts(),
        decreases ids.len(),
    {
        if !(ids.len() == 0 || self.full() || self.tokens()
            >= self.sched.config.max_batch_tokens) {
            let id = ids[0];
            let next = self.run_one(id);
            self.lemma_run_one(id);
            assert(self.sched.running[id].request.request_id == id);
            assert forall|i: int| 0 <= i < next.draft.prefill.len() implies next.is_next_part(
                #[trigger] next.draft.prefill[i],
            ) by {
                if i < self.draft.prefill.len() {
                    assert(next.draft.prefill[i] == self.draft.prefill[i]);
                    assert(self.is_next_part(self.draft.prefill[i]));
                }
            }
            next.lemma_run_all_parts(ids.subrange(1, ids.len() as int));
        }
    }

    /// With chunked prefill no chunk is longer than a chunk may be.
    spec fn small_chunks(self) -> bool {
        self.sched.config.chunk_prefill ==> forall|i: int|
            0 <= i < self.draft.prefill.len() ==> (#[trigger] self.draft.prefill[i]).prompt_tokens.len()
                <= self.sched.config.prefill_chunk_size
    }

    proof fn lemma_run_all_small(self, ids: Seq<u64>)
        requires
            self.small_chunks(),
        ensures
            self.run_all(ids).small_chunks(),
        decreases ids.len(),
    {
        if !(ids.len() == 0 || self.full() || self.tokens()
            >= self.sched.config.max_batch_tokens) {
            let next = self.run_one(ids[0]);
            self.lemma_run_one(ids[0]);
            assert(next.small_chunks()) by {
                assert forall|i: int|
                    0 <= i < next.draft.prefill.len() && self.sched.config.chunk_prefill implies (
                #[trigger] next.draft.prefill[i]).prompt_tokens.len()
                    <= self.sched.config.prefill_chunk_size by {
                    if i < self.draft.prefill.len() {
                        assert(next.draft.prefill[i] == self.draft.prefill[i]);
                    }
                }
            }
            next.lemma_run_all_small(ids.subrange(1, ids.len() as int));
        }
    }

    proof fn lemma_admit_all_small(self, preempted: bool)
        requires
            self.small_chunks(),
        ensures
            self.admit_all(preempted).small_chunks(),
        decreases self.queue(preempted).len(),
    {
        if self.queue(preempted).len() > 0 && self.admissible(self.queue(preempted)[0]) {
            let next = self.admit_one(preempted);
            assert(next.small_chunks()) by {
                assert forall|i: int|
                    0 <= i < next.draft.prefill.len() && self.sched.config.chunk_prefill implies (
                #[trigger] next.draft.prefill[i]).prompt_tokens.len()
                    <= self.sched.config.prefill_chunk_size by {
                    if i < self.draft.prefill.len() {
                        assert(next.draft.prefill[i] == self.draft.prefill[i]);
                    }
                }
            }
            next.lemma_admit_all_small(preempted);
        }
    }

    /// No sequence has two entries, those that have one run, and the tables are those of the
    /// entries, as far as the KV manager has them.
    spec fn entered_once(self) -> bool {
        &&& self.draft.decode.no_duplicates()
        &&& distinct_ids(self.draft.prefill)
        &&& forall|i: int, j: int|
            #![trigger self.draft.decode[i], self.draft.prefill[j]]
            0 <= i < self.draft.decode.len() && 0 <= j < self.draft.prefill.len()
                ==> self.draft.decode[i] != self.draft.prefill[j].request_id
        &&& forall|id: u64| #[trigger]
            self.schedules(id) ==> self.sched.running.contains_key(id)
        &&& forall|id: u64|
            #![trigger self.draft.tables.contains_key(id)]
            self.draft.tables.contains_key(id) == (self.schedules(id)
                && self.kv.tables.contains_key(id))
    }

    /// `next` has an entry for `id` more.
    spec fn enters(self, next: Round, id: u64) -> bool {
        ||| {
            &&& next.draft.decode == self.draft.decode.push(id)
            &&& next.draft.prefill == self.draft.prefill
        }
        ||| {
            &&& next.draft.decode == self.draft.decode
            &&& next.draft.prefill.len() > 0
            &&& next.draft.prefill == self.draft.prefill.push(next.draft.prefill.last())
            &&& next.draft.prefill.last().request_id == id
        }
    }

    /// An entry for a sequence that has none keeps each at one.
    proof fn lemma_enters(self, next: Round, id: u64)
        requires
            self.enters(next, id),
        ensures
            forall|other: u64| #[trigger]
                next.schedules(other) == (self.schedules(other) || other == id),
            self.entered_once() && !self.schedules(id) ==> {
                &&& next.draft.decode.no_duplicates()
                &&& distinct_ids(next.draft.prefill)
                &&& forall|i: int, j: int|
                    #![trigger next.draft.decode[i], next.draft.prefill[j]]
                    0 <= i < next.draft.decode.len() && 0 <= j < next.draft.prefill.len()
                        ==> next.draft.decode[i] != next.draft.prefill[j].request_id
            },
    {
        assert forall|other: u64| #[trigger] next.schedules(other) == (self.schedules(other)
            || other == id) by {
            vstd::seq_lib::lemma_seq_contains_after_push(self.draft.decode, id, other);
            if next.draft.prefill.len() > 0 {
                lemma_queued_push(self.draft.prefill, next.draft.prefill.last(), other);
            }
        }
        if self.entered_once() && !self.schedules(id) {
            assert forall|i: int| 0 <= i < self.draft.decode.len() implies (
            #[trigger] self.draft.decode[i]) != id by {
                assert(self.draft.decode.contains(self.draft.decode[i]));
            }
            assert forall|i: int| 0 <= i < self.draft.prefill.len() implies (
            #[trigger] self.draft.prefill[i]).request_id != id by {}
            assert forall|i: int| 0 <= i < next.draft.prefill.len() implies (
            #[trigger] next.draft.prefill[i]).request_id == (if i < self.draft.prefill.len() {
                self.draft.prefill[i].request_id
            } else {
                id
            }) by {}
            assert forall|i: int| 0 <= i < next.draft.decode.len() implies (
            #[trigger] next.draft.decode[i]) == (if i < self.draft.decode.len() {
                self.draft.decode[i]
            } else {
                id
            }) by {}
        }
    }

    proof fn lemma_run_all_once(self, ids: Seq<u64>)
        requires
            self.sched.wf(),
            self.entered_once(),
            ids.no_duplicates(),
            forall|i: int|
                0 <= i < ids.len() ==> self.sched.running.contains_key(#[trigger] ids[i])
                    && !self.schedules(ids[i]),
        ensures
            self.run_all(ids).entered_once(),
        decreases ids.len(),
    {
        if !(ids.len() == 0 || self.full() || self.tokens()
            >= self.sched.config.max_batch_tokens) {
            let id = ids[0];
            let next = self.run_one(id);
            let rest = ids.subrange(1, ids.len() as int);
            self.lemma_run_one(id);
            assert(self.sched.running[id].request.request_id == id);
            if next.entries() > self.entries() {
                assert(self.enters(next, id));
                self.lemma_enters(next, id);
            } else {
                assert(next.draft == self.draft);
                assert forall|other: u64| #[trigger] next.schedules(other) == self.schedules(
                    other,
                ) by {}
            }
            assert(next.entered_once());
            assert forall|i: int| 0 <= i < rest.len() implies next.sched.running.contains_key(
                #[trigger] rest[i],
            ) && !next.schedules(rest[i]) by {
                assert(rest[i] == ids[i + 1]);
                assert(ids[i + 1] != ids[0]);
            }
            next.lemma_run_all_once(rest);
        }
    }

    proof fn lemma_admit_all_once(self, preempted: bool)
        requires
            self.sched.distinct(),
            self.sched.running.dom().finite(),
            self.all_next_parts(),
            self.entered_once(),
        ensures
            self.admit_all(preempted).entered_once(),
        decreases self.queue(preempted).len(),
    {
        let queue = self.queue(preempted);
        if queue.len() > 0 && self.admissible(queue[0]) {
            let next = self.admit_one(preempted);
            let id = queue[0].request_id;
            let n = queue[0].prompt_tokens.len() as int;
            self.lemma_admit_one_distinct(preempted);
            self.kv.lemma_fill_shape(n, self.kv.blocks_needed(n));
            assert(!self.sched.running.contains_key(id));
            assert(!self.schedules(id));
            assert(self.enters(next, id));
            self.lemma_enters(next, id);
            assert forall|other: u64| #[trigger] next.schedules(
                other,
            ) implies next.sched.running.contains_key(other) by {
                assert(self.schedules(other) || other == id);
            }
            assert forall|other: u64|
                #![trigger next.draft.tables.contains_key(other)]
                next.draft.tables.contains_key(other) == (next.schedules(other)
                    && next.kv.tables.contains_key(other)) by {
                assert(next.schedules(other) == (self.schedules(other) || other == id));
                assert(self.draft.tables.contains_key(other) == (self.schedules(other)
                    && self.kv.tables.contains_key(other)));
            }
            next.lemma_admit_all_once(preempted);
        }
    }

    proof fn lemma_span_total(self, n: int)
        requires
            self.all_next_parts(),
            0 <= n <= self.draft.prefill.len(),
        ensures
            prompt_total(self.draft.prefill.take(n)) == Round::span_total(self.spans().take(n)),
        decreases n,
    {
        if n > 0 {
            self.lemma_span_total(n - 1);
            let chunks = self.draft.prefill.take(n);
            let spans = self.spans().take(n);
            assert(chunks.drop_last() =~= self.draft.prefill.take(n - 1));
            assert(spans.drop_last() =~= self.spans().take(n - 1));
            assert(chunks.last() == self.draft.prefill[n - 1]);
            assert(self.is_next_part(self.draft.prefill[n - 1]));
            assert(spans.last() == self.spans()[n - 1]);
        }
    }

    /// Admitting under identifiers that are used once: none is lost or used twice, and every
    /// chunk stays the next part of its prompt.
    proof fn lemma_admit_one_distinct(self, preempted: bool)
        requires
            self.queue(preempted).len() > 0,
            self.admissible(self.queue(preempted)[0]),
            self.sched.distinct(),
            self.sched.running.dom().finite(),
            self.all_next_parts(),
        ensures
            self.admit_one(preempted).sched.distinct(),
            self.admit_one(preempted).sched.running.dom().finite(),
            self.admit_one(preempted).sched.held() == self.sched.held(),
            self.admit_one(preempted).all_next_parts(),
    {
        let queue = self.queue(preempted);
        let next = self.admit_one(preempted);
        let id = queue[0].request_id;
        let rest = queue.subrange(1, queue.len() as int);
        assert(forall|i: int| 0 <= i < rest.len() ==> #[trigger] rest[i] == queue[i + 1]);
        assert(!self.sched.running.contains_key(id));
        assert(next.sched.running.dom() =~= self.sched.running.dom().insert(id));
        assert forall|i: int| 0 <= i < next.sched.waiting.len() implies
            !next.sched.running.contains_key(
            (#[trigger] next.sched.waiting[i]).request_id,
        ) by {
            if preempted {
                assert(next.sched.waiting[i] == self.sched.waiting[i]);
                assert(self.sched.preempted[0] == queue[0]);
            } else {
                assert(next.sched.waiting[i] == self.sched.waiting[i + 1]);
            }
        }
        assert forall|i: int| 0 <= i < next.sched.preempted.len() implies
            !next.sched.running.contains_key(
            (#[trigger] next.sched.preempted[i]).request_id,
        ) by {
            if preempted {
                assert(next.sched.preempted[i] == self.sched.preempted[i + 1]);
            } else {
                assert(next.sched.preempted[i] == self.sched.preempted[i]);
                assert(self.sched.waiting[0] == queue[0]);
            }
        }
        assert forall|i: int| 0 <= i < next.draft.prefill.len() implies next.is_next_part(
            #[trigger] next.draft.prefill[i],
        ) by {
            if i < self.draft.prefill.len() {
                assert(next.draft.prefill[i] == self.draft.prefill[i]);
                assert(self.is_next_part(self.draft.prefill[i]));
            }
        }
    }

    proof fn lemma_admit_distinct(self, preempted: bool)
        requires
            self.sched.distinct(),
            self.sched.running.dom().finite(),
            self.all_next_parts(),
        ensures
            self.admit_all(preempted).sched.distinct(),
            self.admit_all(preempted).sched.running.dom().finite(),
            self.admit_all(preempted).sched.held() == self.sched.held(),
            self.admit_all(preempted).all_next_parts(),
        decreases self.queue(preempted).len(),
    {
        if self.queue(preempted).len() > 0 && self.admissible(self.queue(preempted)[0]) {
            self.lemma_admit_one_distinct(preempted);
            self.admit_one(preempted).lemma_admit_distinct(preempted);
        }
    }

    /// Admitting adds to the end of the batch, and every request that left the queue is in it.
    proof fn lemma_admit_grows(self, preempted: bool, k: int)
        requires
            0 <= k <= self.queue(preempted).len(),
            self.admit_all(preempted).queue(preempted) == self.queue(preempted).subrange(
                k,
                self.queue(preempted).len() as int,
            ),
        ensures
            self.draft.prefill.is_prefix_of(self.admit_all(preempted).draft.prefill),
            self.draft.decode.is_prefix_of(self.admit_all(preempted).draft.decode),
            forall|i: int|
                0 <= i < k ==> self.admit_all(preempted).schedules(
                    (#[trigger] self.queue(preempted)[i]).request_id,
                ),
        decreases self.queue(preempted).len(),
    {
        let queue = self.queue(preempted);
        if queue.len() > 0 && self.admissible(queue[0]) {
            let next = self.admit_one(preempted);
            let rest = next.queue(preempted);
            let left = next.lemma_admit_suffix(preempted);
            assert(self.admit_all(preempted).queue(preempted).len() == queue.len() - k);
            assert(left == k - 1);
            next.lemma_admit_grows(preempted, k - 1);
            self.lemma_admit_first(preempted);
            assert forall|i: int| 0 <= i < k implies self.admit_all(preempted).schedules(
                (#[trigger] queue[i]).request_id,
            ) by {
                if i > 0 {
                    assert(rest[i - 1] == queue[i]);
                }
            }
        } else {
            assert(self.admit_all(preempted).queue(preempted).len() == queue.len() - k);
        }
    }

    /// Where blocks hold tokens and the tensor pool has every block, requests can be
    /// admitted from a queue.
    proof fn lemma_admit_fits(self, preempted: bool)
        requires
            self.kv.wf(),
            self.kv.can_allocate(),
            forall|i: int|
                0 <= i < self.queue(preempted).len() ==> (#[trigger] self.queue(
                    preempted,
                )[i]).prompt_tokens.len() <= usize::MAX,
        ensures
            self.admit_fits(preempted),
            self.admit_all(preempted).kv.wf(),
            self.admit_all(preempted).kv.can_allocate(),
        decreases self.queue(preempted).len(),
    {
        let queue = self.queue(preempted);
        if queue.len() > 0 {
            let id = queue[0].request_id;
            let n = queue[0].prompt_tokens.len() as int;
            self.kv.lemma_fill_shape(n, self.kv.blocks_needed(n));
            self.kv.lemma_blocks_needed(n);
            if self.admissible(queue[0]) {
                if !self.kv.tables.contains_key(id) {
                    self.kv.lemma_allocate_wf(id, n);
                }
                let next = self.admit_one(preempted);
                assert forall|i: int| 0 <= i < next.queue(preempted).len() implies (
                #[trigger] next.queue(preempted)[i]).prompt_tokens.len() <= usize::MAX by {
                    assert(next.queue(preempted)[i] == queue[i + 1]);
                }
                next.lemma_admit_fits(preempted);
            }
        }
    }

    proof fn lemma_admit_books(self, preempted: bool)
        requires
            self.kv.wf(),
            self.kv.counts_exact(),
            self.admit_fits(preempted),
            forall|i: int|
                0 <= i < self.queue(preempted).len() ==> (#[trigger] self.queue(
                    preempted,
                )[i]).prompt_tokens.len() <= usize::MAX,
        ensures
            self.admit_all(preempted).kv.wf(),
            self.admit_all(preempted).kv.counts_exact(),
        decreases self.queue(preempted).len(),
    {
        let queue = self.queue(preempted);
        if queue.len() > 0 && self.admissible(queue[0]) {
            let id = queue[0].request_id;
            let n = queue[0].prompt_tokens.len() as int;
            self.kv.lemma_fill_shape(n, self.kv.blocks_needed(n));
            if !self.kv.tables.contains_key(id) {
                self.kv.lemma_allocate_wf(id, n);
                self.kv.law_allocate_counts(id, n);
            }
            let next = self.admit_one(preempted);
            assert forall|i: int| 0 <= i < next.queue(preempted).len() implies (
            #[trigger] next.queue(preempted)[i]).prompt_tokens.len() <= usize::MAX by {
                assert(next.queue(preempted)[i] == queue[i + 1]);
            }
            next.lemma_admit_books(preempted);
        }
    }
}

impl SchedulerState {
    /// The parts of a round under and without memory pressure.
    proof fn lemma_round_start(self, kv: KvState)
        ensures
            ({
                let next = SchedulerState { step_id: (self.step_id + 1) as u64, ..self };
                let start = Round::start(next, kv);
                &&& start.in_budget()
                &&& start.tables_match()
                &&& start.preempt().in_budget()
                &&& start.preempt().tables_match()
            }),
    {
        let next = SchedulerState { step_id: (self.step_id + 1) as u64, ..self };
        let start = Round::start(next, kv);
        assert(prompt_total(start.draft.prefill) == 0);
    }

    /// A batch keeps to its limits: at most so many entries, at most so many prompt tokens,
    /// and tokens beyond the limit only by the one chunk or step that crosses it. With chunked
    /// prefill no chunk is longer than a chunk may be.
    pub proof fn law_batch_within_limits(self, kv: KvState)
        ensures
            self.round(kv).entries() <= self.config.max_batch_size,
            prompt_total(self.round(kv).draft.prefill) <= self.config.max_prefill_tokens,
            self.round(kv).tokens() == prompt_total(self.round(kv).draft.prefill) + self.round(
                kv,
            ).draft.decode.len(),
            self.round(kv).tokens() <= self.config.max_batch_tokens + if self.config.prefill_chunk_size
                > 1 {
                self.config.prefill_chunk_size as int
            } else {
                1
            },
            self.config.chunk_prefill ==> forall|i: int|
                0 <= i < self.round(kv).draft.prefill.len() ==> (#[trigger] self.round(
                    kv,
                ).draft.prefill[i]).prompt_tokens.len() <= self.config.prefill_chunk_size,
    {
        let next = SchedulerState { step_id: (self.step_id + 1) as u64, ..self };
        let start = Round::start(next, kv);
        self.lemma_round_start(kv);
        if self.under_pressure(kv) {
            let r = start.preempt();
            r.lemma_run_all(in_order(r.sched.running.dom()));
            r.lemma_run_all_small(in_order(r.sched.running.dom()));
        } else {
            let r = start.run_all(in_order(self.running.dom()));
            start.lemma_run_all(in_order(self.running.dom()));
            r.lemma_admit_all(true);
            r.admit_all(true).lemma_admit_all(false);
            start.lemma_run_all_small(in_order(self.running.dom()));
            r.lemma_admit_all_small(true);
            r.admit_all(true).lemma_admit_all_small(false);
        }
        assert(self.round(kv).small_chunks());
    }

    /// The block tables of a batch are those of the KV manager, and every decode step has
    /// one.
    pub proof fn law_batch_tables(self, kv: KvState, id: u64, i: int)
        ensures
            self.round(kv).draft.tables.contains_key(id) ==> self.round(
                kv,
            ).kv.tables.contains_key(id) && self.round(kv).draft.tables[id] == self.round(
                kv,
            ).kv.tables[id].block_ids,
            0 <= i < self.round(kv).draft.decode.len() ==> self.round(
                kv,
            ).draft.tables.contains_key(self.round(kv).draft.decode[i]),
    {
        let next = SchedulerState { step_id: (self.step_id + 1) as u64, ..self };
        let start = Round::start(next, kv);
        self.lemma_round_start(kv);
        if self.under_pressure(kv) {
            let r = start.preempt();
            r.lemma_run_all(in_order(r.sched.running.dom()));
        } else {
            let r = start.run_all(in_order(self.running.dom()));
            start.lemma_run_all(in_order(self.running.dom()));
            r.lemma_admit_all(true);
            r.admit_all(true).lemma_admit_all(false);
        }
        assert(self.round(kv).tables_match());
    }

    /// Building a batch loses no request and invents none.
    pub proof fn law_batch_loses_none(self, kv: KvState, id: u64)
        requires
            self.wf(),
        ensures
            self.round(kv).sched.knows(id) == self.knows(id),
    {
        let next = SchedulerState { step_id: (self.step_id + 1) as u64, ..self };
        let start = Round::start(next, kv);
        if self.under_pressure(kv) {
            let r = start.preempt();
            let v = victim(self.running);
            lemma_victim_exists(self.running);
            assert(self.running.contains_key(v));
            r.lemma_run_all(in_order(r.sched.running.dom()));
            lemma_queued_push(self.preempted, self.running[v].request, id);
        } else {
            let r = start.run_all(in_order(self.running.dom()));
            start.lemma_run_all(in_order(self.running.dom()));
            r.lemma_admit_all(true);
            r.admit_all(true).lemma_admit_all(false);
            assert(r.admit_all(true).sched.knows(id) == r.sched.knows(id));
            assert(r.admit_all(true).admit_all(false).sched.knows(id) == r.admit_all(
                true,
            ).sched.knows(id));
        }
    }

    /// The round keeps every request under one identifier, and every chunk is the next part
    /// of its prompt.
    proof fn lemma_round_distinct(self, kv: KvState)
        requires
            self.wf(),
            self.distinct(),
        ensures
            self.round(kv).sched.distinct(),
            self.round(kv).sched.held() == self.held(),
            self.round(kv).all_next_parts(),
            self.round(kv).entered_once(),
    {
        let next = SchedulerState { step_id: (self.step_id + 1) as u64, ..self };
        let start = Round::start(next, kv);
        if self.under_pressure(kv) {
            let r = start.preempt();
            let v = victim(self.running);
            lemma_victim_exists(self.running);
            assert(self.running.contains_key(v));
            assert(r.sched.running.dom() =~= self.running.dom().remove(v));
            let ids = in_order(r.sched.running.dom());
            lemma_ordered(r.sched.running.dom());
            assert forall|i: int| 0 <= i < ids.len() implies r.sched.running.contains_key(
                #[trigger] ids[i],
            ) by {
                assert(ids.to_set().contains(ids[i]));
            }
            r.lemma_run_all(ids);
            r.lemma_run_all_parts(ids);
            r.lemma_run_all_once(ids);
            assert forall|i: int, j: int|
                #![trigger r.sched.preempted[i], r.sched.preempted[j]]
                0 <= i < j < r.sched.preempted.len() implies r.sched.preempted[i].request_id
                != r.sched.preempted[j].request_id by {
                assert(r.sched.preempted[i] == self.preempted[i]);
            }
            assert(r.sched.distinct());
        } else {
            let ids = in_order(self.running.dom());
            lemma_ordered(self.running.dom());
            assert forall|i: int| 0 <= i < ids.len() implies start.sched.running.contains_key(
                #[trigger] ids[i],
            ) by {
                assert(ids.to_set().contains(ids[i]));
            }
            start.lemma_run_all(ids);
            start.lemma_run_all_parts(ids);
            start.lemma_run_all_once(ids);
            let r = start.run_all(ids);
            assert(r.sched.distinct());
            r.lemma_admit_distinct(true);
            r.lemma_admit_all_once(true);
            r.admit_all(true).lemma_admit_distinct(false);
            r.admit_all(true).lemma_admit_all_once(false);
        }
    }

    /// Building a batch neither loses nor doubles a request: as many wait, run or are
    /// preempted as before, still under distinct identifiers.
    pub proof fn law_batch_keeps_count(self, kv: KvState)
        requires
            self.wf(),
            self.distinct(),
        ensures
            self.round(kv).sched.waiting.len() + self.round(kv).sched.preempted.len()
                + self.round(kv).sched.running.dom().len() == self.waiting.len()
                + self.preempted.len() + self.running.dom().len(),
            self.round(kv).sched.distinct(),
    {
        self.lemma_round_distinct(kv);
    }

    /// No request has two entries in a batch, every entry is that of a running sequence, and
    /// the batch has the tables that the KV manager keeps for its entries, and no other.
    pub proof fn law_batch_enters_once(self, kv: KvState)
        requires
            self.wf(),
            self.distinct(),
        ensures
            self.round(kv).draft.decode.no_duplicates(),
            distinct_ids(self.round(kv).draft.prefill),
            forall|i: int, j: int|
                #![trigger self.round(kv).draft.decode[i], self.round(kv).draft.prefill[j]]
                0 <= i < self.round(kv).draft.decode.len() && 0 <= j < self.round(
                    kv,
                ).draft.prefill.len() ==> self.round(kv).draft.decode[i] != self.round(
                    kv,
                ).draft.prefill[j].request_id,
            forall|id: u64| #[trigger]
                self.round(kv).schedules(id) ==> self.round(kv).sched.running.contains_key(id),
            forall|id: u64|
                #![trigger self.round(kv).draft.tables.contains_key(id)]
                self.round(kv).draft.tables.contains_key(id) == (self.round(kv).schedules(id)
                    && self.round(kv).kv.tables.contains_key(id)),
    {
        self.lemma_round_distinct(kv);
    }

    /// Every prefill span of a plan lies within its prompt, starts where the prefilled part
    /// ends, and stands for the tokens that are there, also for a request that was preempted
    /// and is admitted again.
    pub proof fn law_spans_lie_in_prompts(self, kv: KvState)
        requires
            self.wf(),
            self.distinct(),
        ensures
            self.round(kv).spans().len() == self.round(kv).draft.prefill.len(),
            forall|i: int|
                0 <= i < self.round(kv).spans().len() ==> self.round(kv).in_prompt(
                    #[trigger] self.round(kv).spans()[i],
                ),
            forall|i: int|
                0 <= i < self.round(kv).draft.prefill.len() ==> self.round(kv).is_next_part(
                    #[trigger] self.round(kv).draft.prefill[i],
                ),
    {
        let r = self.round(kv);
        self.lemma_round_distinct(kv);
        assert forall|i: int| 0 <= i < r.spans().len() implies r.in_prompt(
            #[trigger] r.spans()[i],
        ) by {
            assert(r.is_next_part(r.draft.prefill[i]));
        }
    }

    /// The total of a plan is that of its spans and one for each decode step, and it has a
    /// step for each.
    pub proof fn law_plan_adds_up(self, kv: KvState)
        requires
            self.wf(),
            self.distinct(),
        ensures
            self.round(kv).planned_tokens() == Round::span_total(self.round(kv).spans())
                + self.round(kv).items().len(),
            self.round(kv).spans().len() + self.round(kv).items().len() == self.round(
                kv,
            ).entries(),
    {
        let r = self.round(kv);
        self.lemma_round_distinct(kv);
        r.lemma_span_total(r.draft.prefill.len() as int);
        assert(r.draft.prefill.take(r.draft.prefill.len() as int) =~= r.draft.prefill);
        assert(r.spans().take(r.spans().len() as int) =~= r.spans());
    }

    /// Requests are admitted in the order in which they were queued: what is left of each
    /// queue is its end. Under memory pressure nothing leaves a queue, and the victim joins
    /// the end of the preempted ones.
    pub proof fn law_queues_keep_order(self, kv: KvState) -> (r: (int, int))
        ensures
            0 <= r.0 <= self.waiting.len(),
            0 <= r.1 <= self.preempted.len(),
            self.round(kv).sched.waiting == self.waiting.subrange(
                r.0,
                self.waiting.len() as int,
            ),
            self.under_pressure(kv) ==> r.0 == 0 && r.1 == 0 && self.round(kv).sched.preempted
                == self.preempted.push(self.running[victim(self.running)].request),
            !self.under_pressure(kv) ==> self.round(kv).sched.preempted
                == self.preempted.subrange(r.1, self.preempted.len() as int),
    {
        let next = SchedulerState { step_id: (self.step_id + 1) as u64, ..self };
        let start = Round::start(next, kv);
        if self.under_pressure(kv) {
            let r = start.preempt();
            r.lemma_run_all(in_order(r.sched.running.dom()));
            assert(self.waiting.subrange(0, self.waiting.len() as int) =~= self.waiting);
            (0, 0)
        } else {
            let r = start.run_all(in_order(self.running.dom()));
            start.lemma_run_all(in_order(self.running.dom()));
            let b = r.lemma_admit_suffix(true);
            let a = r.admit_all(true).lemma_admit_suffix(false);
            (a, b)
        }
    }

    /// Requests that were preempted come before those that wait: the batch first lists what
    /// ran, then what came from the preempted queue, then what came from the waiting queue,
    /// and every request that left a queue is in it.
    pub proof fn law_preempted_come_first(self, kv: KvState) -> (r: (int, int))
        requires
            !self.under_pressure(kv),
        ensures
            0 <= r.0 <= self.waiting.len(),
            0 <= r.1 <= self.preempted.len(),
            self.after_preempted(kv).sched.waiting == self.waiting,
            self.after_preempted(kv).sched.preempted == self.round(kv).sched.preempted,
            self.round(kv).sched.preempted == self.preempted.subrange(
                r.1,
                self.preempted.len() as int,
            ),
            self.round(kv).sched.waiting == self.waiting.subrange(
                r.0,
                self.waiting.len() as int,
            ),
            self.after_running(kv).draft.prefill.is_prefix_of(
                self.after_preempted(kv).draft.prefill,
            ),
            self.after_running(kv).draft.decode.is_prefix_of(
                self.after_preempted(kv).draft.decode,
            ),
            self.after_preempted(kv).draft.prefill.is_prefix_of(self.round(kv).draft.prefill),
            self.after_preempted(kv).draft.decode.is_prefix_of(self.round(kv).draft.decode),
            forall|i: int|
                0 <= i < r.1 ==> self.after_preempted(kv).schedules(
                    (#[trigger] self.preempted[i]).request_id,
                ),
            forall|i: int|
                0 <= i < r.0 ==> self.round(kv).schedules((#[trigger] self.waiting[i]).request_id),
    {
        let next = SchedulerState { step_id: (self.step_id + 1) as u64, ..self };
        Round::start(next, kv).lemma_run_all(in_order(self.running.dom()));
        let r = self.after_running(kv);
        let b = r.lemma_admit_suffix(true);
        r.lemma_admit_grows(true, b);
        let a = r.admit_all(true).lemma_admit_suffix(false);
        r.admit_all(true).lemma_admit_grows(false, a);
        assert forall|i: int| 0 <= i < b implies self.after_preempted(kv).schedules(
            (#[trigger] self.preempted[i]).request_id,
        ) by {
            assert(r.queue(true)[i] == self.preempted[i]);
        }
        assert forall|i: int| 0 <= i < a implies self.round(kv).schedules(
            (#[trigger] self.waiting[i]).request_id,
        ) by {
            assert(r.admit_all(true).queue(false)[i] == self.waiting[i]);
        }
        (a, b)
    }

    /// Decoding goes on: where the batch has room for all that run, every running sequence
    /// whose prompt is prefilled and that has blocks gets a step.
    pub proof fn law_decoding_goes_on(self, kv: KvState, id: u64)
        requires
            self.wf(),
            !self.under_pressure(kv),
            self.running.dom().len() <= self.config.max_batch_size,
            self.config.max_prefill_tokens + self.running.dom().len()
                <= self.config.max_batch_tokens,
            self.running.contains_key(id),
            self.running[id].is_prefilled,
            kv.tables.contains_key(id),
        ensures
            self.round(kv).draft.decode.contains(id),
            self.round(kv).batch() is Some,
    {
        let next = SchedulerState { step_id: (self.step_id + 1) as u64, ..self };
        let start = Round::start(next, kv);
        let ids = in_order(self.running.dom());
        lemma_ordered(self.running.dom());
        assert(ids.to_set().contains(id));
        ids.unique_seq_to_set();
        start.lemma_run_all_decodes(ids, id);
        let r = self.after_running(kv);
        r.lemma_admit_keeps(true, id);
        r.admit_all(true).lemma_admit_keeps(false, id);
    }

    /// Preempted requests come first: the one that was preempted first joins the batch where
    /// it can, whatever waits. Where none is preempted, so does the request that waits
    /// longest.
    pub proof fn law_first_in_queue_is_admitted(self, kv: KvState)
        requires
            !self.under_pressure(kv),
        ensures
            self.preempted.len() > 0 && self.after_running(kv).admissible(self.preempted[0]) ==> {
                &&& self.round(kv).sched.running.contains_key(self.preempted[0].request_id)
                &&& self.round(kv).schedules(self.preempted[0].request_id)
                &&& self.round(kv).batch() is Some
            },
            self.preempted.len() == 0 && self.waiting.len() > 0 && self.after_running(
                kv,
            ).admissible(self.waiting[0]) ==> {
                &&& self.round(kv).sched.running.contains_key(self.waiting[0].request_id)
                &&& self.round(kv).schedules(self.waiting[0].request_id)
                &&& self.round(kv).batch() is Some
            },
    {
        let next = SchedulerState { step_id: (self.step_id + 1) as u64, ..self };
        Round::start(next, kv).lemma_run_all(in_order(self.running.dom()));
        let r = self.after_running(kv);
        if self.preempted.len() > 0 && r.admissible(self.preempted[0]) {
            r.lemma_admit_first(true);
            r.admit_all(true).lemma_admit_keeps(false, self.preempted[0].request_id);
        }
        if self.preempted.len() == 0 && self.waiting.len() > 0 && r.admissible(self.waiting[0]) {
            r.lemma_admit_first(false);
        }
    }

    /// Under memory pressure one sequence of the lowest priority gives way, goes to the end
    /// of the preempted ones, and no request is admitted.
    pub proof fn law_pressure_preempts_one(self, kv: KvState)
        requires
            self.wf(),
            self.under_pressure(kv),
        ensures
            is_victim(self.running, victim(self.running)),
            self.round(kv).sched.running == self.running.remove(victim(self.running)),
            self.round(kv).sched.waiting == self.waiting,
            self.round(kv).sched.preempted == self.preempted.push(
                self.running[victim(self.running)].request,
            ),
            self.round(kv).kv == kv.free_sequence(victim(self.running)),
            self.round(kv).sched.metrics.admitted_requests == self.metrics.admitted_requests,
    {
        let next = SchedulerState { step_id: (self.step_id + 1) as u64, ..self };
        let r = Round::start(next, kv).preempt();
        lemma_victim_exists(self.running);
        r.lemma_run_all(in_order(r.sched.running.dom()));
    }

    /// Building a batch keeps the books in order.
    pub proof fn law_batch_keeps_accounts(self, kv: KvState)
        requires
            self.wf(),
            self.accounts(kv),
            self.admission_fits(kv),
            forall|i: int|
                0 <= i < self.waiting.len() ==> (#[trigger] self.waiting[i]).prompt_tokens.len()
                    <= usize::MAX,
            forall|i: int|
                0 <= i < self.preempted.len() ==> (
                #[trigger] self.preempted[i]).prompt_tokens.len() <= usize::MAX,
        ensures
            self.round(kv).sched.accounts(self.round(kv).kv),
    {
        let next = SchedulerState { step_id: (self.step_id + 1) as u64, ..self };
        let start = Round::start(next, kv);
        if self.under_pressure(kv) {
            let v = victim(self.running);
            lemma_victim_exists(self.running);
            let r = start.preempt();
            r.lemma_run_all(in_order(r.sched.running.dom()));
            kv.lemma_free_sequence_wf(v);
            kv.law_free_counts(v);
            assert forall|id: u64| #[trigger] r.kv.tables.contains_key(
                id,
            ) implies r.sched.running.contains_key(id) || is_queued(r.sched.preempted, id) by {
                assert(kv.tables.contains_key(id));
                lemma_queued_push(self.preempted, self.running[v].request, id);
            }
        } else {
            let r = start.run_all(in_order(self.running.dom()));
            start.lemma_run_all(in_order(self.running.dom()));
            r.lemma_admit_all(true);
            r.admit_all(true).lemma_admit_all(false);
            self.lemma_admissions(kv);
            r.lemma_admit_books(true);
            let k = r.lemma_admit_suffix(true);
            r.admit_all(true).lemma_admit_books(false);
        }
    }

    /// The admissions of a round take blocks that can be given out.
    pub proof fn lemma_admissions(self, kv: KvState)
        requires
            kv.wf(),
            !self.under_pressure(kv),
            self.admission_fits(kv),
            forall|i: int|
                0 <= i < self.waiting.len() ==> (#[trigger] self.waiting[i]).prompt_tokens.len()
                    <= usize::MAX,
            forall|i: int|
                0 <= i < self.preempted.len() ==> (
                #[trigger] self.preempted[i]).prompt_tokens.len() <= usize::MAX,
        ensures
            self.after_running(kv).admit_fits(true),
            self.after_preempted(kv).admit_fits(false),
    {
        let next = SchedulerState { step_id: (self.step_id + 1) as u64, ..self };
        Round::start(next, kv).lemma_run_all(in_order(self.running.dom()));
        let r = self.after_running(kv);
        let k = r.lemma_admit_suffix(true);
        if self.has_queued() && kv.can_allocate() {
            r.lemma_admit_fits(true);
            self.after_preempted(kv).lemma_admit_fits(false);
        }
    }

    /// With the books in order and nothing left to do, every block is free.
    pub proof fn law_idle_means_all_free(self, kv: KvState)
        requires
            self.wf(),
            self.accounts(kv),
            self.idle(),
        ensures
            kv.free.len() == kv.total_blocks,
    {
        assert forall|id: u64| !kv.tables.dom().contains(id) by {
            if kv.tables.contains_key(id) {
                assert(self.running.dom().contains(id));
            }
        }
        assert(kv.tables.dom() =~= Set::<u64>::empty());
        kv.law_no_leak();
    }

    /// A branch under a new name keeps the books in order.
    pub proof fn law_fork_keeps_accounts(
        self,
        kv: KvState,
        parent: u64,
        child: u64,
        sink_id: Option<CompletionSinkId>,
    )
        requires
            self.accounts(kv),
            self.running.contains_key(parent),
            kv.tables.contains_key(parent),
            kv.fork_fits(parent),
            !kv.tables.contains_key(child),
        ensures
            self.fork(parent, child, sink_id).accounts(kv.fork(parent, child)),
    {
        kv.lemma_fork_wf(parent, child);
        kv.law_fork_counts(parent, child);
        let after = self.fork(parent, child, sink_id);
        assert forall|id: u64| #[trigger] kv.fork(parent, child).tables.contains_key(
            id,
        ) implies after.running.contains_key(id) || is_queued(after.preempted, id) by {
            if id != child {
                assert(kv.tables.contains_key(id));
            }
        }
    }

    /// The books of a new scheduler and a new manager are in order.
    pub proof fn law_new_accounts(
        config: SchedulerConfig,
        total_blocks: usize,
        block_size: usize,
    )
        ensures
            SchedulerState::initial(config).accounts(KvState::fresh(total_blocks, block_size)),
    {
        KvState::lemma_fresh_wf(total_blocks, block_size);
    }

    /// Noting prefilled chunks changes no queue and no set of running sequences.
    proof fn lemma_note_prefills(self, chunks: Seq<RequestState>)
        ensures
            self.note_prefills(chunks).waiting == self.waiting,
            self.note_prefills(chunks).preempted == self.preempted,
            self.note_prefills(chunks).running.dom() == self.running.dom(),
            self.note_prefills(chunks).router == self.router,
            self.wf() ==> self.note_prefills(chunks).wf(),
        decreases chunks.len(),
    {
        if chunks.len() > 0 {
            let next = self.note_prefill(chunks[0]);
            assert(next.running.dom() =~= self.running.dom());
            next.lemma_note_prefills(chunks.subrange(1, chunks.len() as int));
        }
    }
}

impl Settling {
    /// One output: a sequence that is no longer known was reported, and the books stay in
    /// order.
    proof fn lemma_settle(self, output: DecodeOutput, backend_appends: bool, n: int)
        requires
            self.sched.wf(),
            self.kv.wf(),
            self.room(n),
            self.store_fits(output, backend_appends),
            n >= 1,
        ensures
            self.settle(output, backend_appends).sched.wf(),
            self.settle(output, backend_appends).kv.wf(),
            self.settle(output, backend_appends).room(n - 1),
            self.sched.accounts(self.kv) ==> self.settle(output, backend_appends).sched.accounts(
                self.settle(output, backend_appends).kv,
            ),
            forall|id: u64| #[trigger]
                self.sched.knows(id) || is_reported(self.outputs, id) ==> self.settle(
                    output,
                    backend_appends,
                ).sched.knows(id) || is_reported(
                    self.settle(output, backend_appends).outputs,
                    id,
                ),
            self.settle(output, backend_appends).sched.waiting == self.sched.waiting,
    {
        let after = self.settle(output, backend_appends);
        let about = match output {
            DecodeOutput::Token { request_id, .. } => request_id,
            DecodeOutput::Finished { request_id, .. } => request_id,
        };
        let stored = match output {
            DecodeOutput::Token { request_id, token_id, .. } => self.counts(request_id)
                && self.appends(request_id, token_id, backend_appends),
            DecodeOutput::Finished { .. } => false,
        };
        if stored && self.kv.append_possible(about) {
            self.kv.lemma_append_wf(about);
            if self.kv.counts_exact() {
                self.kv.law_append_counts(about);
            }
        }
        self.kv.lemma_free_sequence_wf(about);
        if self.kv.counts_exact() {
            self.kv.law_free_counts(about);
        }
        assert forall|id: u64| #[trigger] self.sched.knows(id) || is_reported(
            self.outputs,
            id,
        ) implies after.sched.knows(id) || is_reported(after.outputs, id) by {
            if after.outputs.len() > self.outputs.len() {
                let last = after.outputs.last();
                assert(after.outputs =~= self.outputs.push(last));
                lemma_reported_push(self.outputs, last, id);
            }
            if after.sched.preempted.len() > self.sched.preempted.len() {
                lemma_queued_push(self.sched.preempted, self.sched.running[about].request, id);
            }
        }
        if self.sched.accounts(self.kv) {
            assert forall|id: u64| #[trigger] after.kv.tables.contains_key(
                id,
            ) implies after.sched.running.contains_key(id) || is_queued(
                after.sched.preempted,
                id,
            ) by {
                assert(self.kv.tables.contains_key(id));
                if after.sched.preempted.len() > self.sched.preempted.len() {
                    lemma_queued_push(self.sched.preempted, self.sched.running[about].request, id);
                }
            }
        }
    }

    proof fn lemma_settle_all(self, outputs: Seq<DecodeOutput>, backend_appends: bool)
        requires
            self.sched.wf(),
            self.kv.wf(),
            self.room(outputs.len() as int),
            self.stores_fit(outputs, backend_appends),
        ensures
            self.sched.accounts(self.kv) ==> self.settle_all(
                outputs,
                backend_appends,
            ).sched.accounts(self.settle_all(outputs, backend_appends).kv),
            forall|id: u64| #[trigger]
                self.sched.knows(id) || is_reported(self.outputs, id) ==> self.settle_all(
                    outputs,
                    backend_appends,
                ).sched.knows(id) || is_reported(
                    self.settle_all(outputs, backend_appends).outputs,
                    id,
                ),
            self.settle_all(outputs, backend_appends).sched.waiting == self.sched.waiting,
        decreases outputs.len(),
    {
        if outputs.len() > 0 {
            let next = self.settle(outputs[0], backend_appends);
            self.lemma_settle(outputs[0], backend_appends, outputs.len() as int);
            next.lemma_settle_all(outputs.subrange(1, outputs.len() as int), backend_appends);
            assert forall|id: u64| #[trigger] self.sched.knows(id) || is_reported(
                self.outputs,
                id,
            ) implies self.settle_all(outputs, backend_appends).sched.knows(id) || is_reported(
                self.settle_all(outputs, backend_appends).outputs,
                id,
            ) by {
                assert(next.sched.knows(id) || is_reported(next.outputs, id));
            }
        }
    }
}

impl Settling {
    /// Where tables and counters have room for all tokens, and the tensor pool has every
    /// block, the outputs can be stored.
    pub proof fn law_stores_fit(self, outputs: Seq<DecodeOutput>, backend_appends: bool)
        requires
            self.kv.wf(),
            backend_appends || self.kv.append_room(outputs.len() as int),
        ensures
            self.stores_fit(outputs, backend_appends),
        decreases outputs.len(),
    {
        if outputs.len() > 0 {
            let n = outputs.len() as int;
            let next = self.settle(outputs[0], backend_appends);
            let about = match outputs[0] {
                DecodeOutput::Token { request_id, .. } => request_id,
                DecodeOutput::Finished { request_id, .. } => request_id,
            };
            self.kv.lemma_free_sequence_wf(about);
            if !backend_appends {
                self.kv.lemma_append_room(about, n);
                if self.kv.append_possible(about) {
                    self.kv.lemma_append_wf(about);
                }
                self.kv.append_or_keep(about).lemma_free_sequence_wf(about);
                self.kv.append_or_keep(about).lemma_free_room(about, n - 1);
                self.kv.lemma_free_room(about, n);
                self.kv.lemma_free_room(about, n - 1);
            }
            next.law_stores_fit(outputs.subrange(1, n), backend_appends);
        }
    }

    proof fn lemma_settle_all_targets(self, outputs: Seq<DecodeOutput>, backend_appends: bool)
        ensures
            self.settle_all(outputs, backend_appends).sched.router.targets
                == self.sched.router.targets,
            self.settle_all(outputs, backend_appends).sched.router.received.dom()
                == self.sched.router.received.dom(),
        decreases outputs.len(),
    {
        if outputs.len() > 0 {
            let next = self.settle(outputs[0], backend_appends);
            assert(next.sched.router.received.dom() =~= self.sched.router.received.dom());
            next.lemma_settle_all_targets(
                outputs.subrange(1, outputs.len() as int),
                backend_appends,
            );
        }
    }

    proof fn lemma_settle_all_distinct(self, outputs: Seq<DecodeOutput>, backend_appends: bool)
        requires
            self.sched.wf(),
            self.sched.distinct(),
        ensures
            self.settle_all(outputs, backend_appends).sched.distinct(),
        decreases outputs.len(),
    {
        if outputs.len() > 0 {
            let next = self.settle(outputs[0], backend_appends);
            let about = match outputs[0] {
                DecodeOutput::Token { request_id, .. } => request_id,
                DecodeOutput::Finished { request_id, .. } => request_id,
            };
            if next.sched.preempted.len() > self.sched.preempted.len() {
                let more = next.sched.preempted;
                assert forall|i: int| 0 <= i < more.len() implies #[trigger] more[i] == if i
                    < self.sched.preempted.len() {
                    self.sched.preempted[i]
                } else {
                    self.sched.running[about].request
                } by {}
            }
            assert(next.sched.waiting == self.sched.waiting);
            assert forall|id: u64| #[trigger] next.sched.running.contains_key(
                id,
            ) implies self.sched.running.contains_key(id) by {}
            next.lemma_settle_all_distinct(
                outputs.subrange(1, outputs.len() as int),
                backend_appends,
            );
        }
    }
}

impl SchedulerState {
    /// Completing a step loses no sequence: one that is no longer waiting, running or
    /// preempted was reported as finished. The waiting queue is not touched.
    pub proof fn law_complete_loses_none(
        self,
        kv: KvState,
        batch: BatchState,
        outputs: Seq<DecodeOutput>,
        metrics: StepMetrics,
        backend_appends: bool,
        id: u64,
    )
        requires
            self.wf(),
            kv.wf(),
            self.complete_fits(kv, batch, outputs, metrics, backend_appends),
            self.knows(id),
        ensures
            ({
                let done = self.complete(kv, batch, outputs, metrics, backend_appends);
                &&& done.sched.knows(id) || is_reported(done.outputs, id)
                &&& done.sched.waiting == self.waiting
            }),
    {
        let noted = Settling::of(self.note_prefills(batch.prefill_requests), kv, Seq::empty());
        self.lemma_note_prefills(batch.prefill_requests);
        self.lemma_noted_room(kv, batch.prefill_requests, outputs.len() as int);
        if backend_appends || kv.append_room(outputs.len() as int) {
            noted.law_stores_fit(outputs, backend_appends);
        }
        noted.lemma_settle_all(outputs, backend_appends);
        assert(noted.sched.knows(id) || is_reported(noted.outputs, id));
    }

    /// Completing a step keeps the books in order.
    pub proof fn law_complete_keeps_accounts(
        self,
        kv: KvState,
        batch: BatchState,
        outputs: Seq<DecodeOutput>,
        metrics: StepMetrics,
        backend_appends: bool,
    )
        requires
            self.wf(),
            self.accounts(kv),
            self.complete_fits(kv, batch, outputs, metrics, backend_appends),
        ensures
            ({
                let done = self.complete(kv, batch, outputs, metrics, backend_appends);
                done.sched.accounts(done.kv)
            }),
    {
        let noted = Settling::of(self.note_prefills(batch.prefill_requests), kv, Seq::empty());
        self.lemma_note_prefills(batch.prefill_requests);
        self.lemma_noted_room(kv, batch.prefill_requests, outputs.len() as int);
        assert forall|id: u64| #[trigger] kv.tables.contains_key(
            id,
        ) implies noted.sched.running.contains_key(id) || is_queued(noted.sched.preempted, id) by {
            assert(noted.sched.running.dom().contains(id) == self.running.dom().contains(id));
        }
        if backend_appends || kv.append_room(outputs.len() as int) {
            noted.law_stores_fit(outputs, backend_appends);
        }
        noted.lemma_settle_all(outputs, backend_appends);
    }

    /// A step registers no sink and takes none away, and each keeps the channel that its events
    /// go to. Building the batch hands out no event.
    pub proof fn law_step_keeps_targets(
        self,
        kv: KvState,
        batch: BatchState,
        outputs: Seq<DecodeOutput>,
        metrics: StepMetrics,
        backend_appends: bool,
    )
        ensures
            self.round(kv).sched.router == self.router,
            self.complete(kv, batch, outputs, metrics, backend_appends).sched.router.targets
                == self.router.targets,
            self.complete(kv, batch, outputs, metrics, backend_appends).sched.router.received.dom()
                == self.router.received.dom(),
    {
        let next = SchedulerState { step_id: (self.step_id + 1) as u64, ..self };
        let start = Round::start(next, kv);
        if self.under_pressure(kv) {
            let r = start.preempt();
            r.lemma_run_all(in_order(r.sched.running.dom()));
        } else {
            let r = start.run_all(in_order(self.running.dom()));
            start.lemma_run_all(in_order(self.running.dom()));
            r.lemma_admit_all(true);
            r.admit_all(true).lemma_admit_all(false);
        }
        self.lemma_note_prefills(batch.prefill_requests);
        Settling::of(
            self.note_prefills(batch.prefill_requests),
            kv,
            Seq::empty(),
        ).lemma_settle_all_targets(outputs, backend_appends);
    }

    /// Completing a step keeps identifiers distinct.
    pub proof fn law_complete_keeps_distinct(
        self,
        kv: KvState,
        batch: BatchState,
        outputs: Seq<DecodeOutput>,
        metrics: StepMetrics,
        backend_appends: bool,
    )
        requires
            self.wf(),
            self.distinct(),
        ensures
            self.complete(kv, batch, outputs, metrics, backend_appends).sched.distinct(),
    {
        let noted = Settling::of(self.note_prefills(batch.prefill_requests), kv, Seq::empty());
        self.lemma_note_prefills(batch.prefill_requests);
        assert forall|id: u64| #[trigger] noted.sched.running.contains_key(
            id,
        ) implies self.running.contains_key(id) by {
            assert(noted.sched.running.dom().contains(id));
        }
        noted.lemma_settle_all_distinct(outputs, backend_appends);
    }

    /// Queueing a request or other work, or branching off a sequence, under an identifier that
    /// is not in use keeps identifiers distinct. A new scheduler has none.
    pub proof fn law_new_names_keep_distinct(
        self,
        config: SchedulerConfig,
        request: RequestState,
        work: InferenceWork,
        prompt: Seq<u32>,
        sampling: SamplingState,
        parent: u64,
        child: u64,
        sink_id: Option<CompletionSinkId>,
    )
        requires
            self.distinct(),
        ensures
            SchedulerState::initial(config).distinct(),
            !self.knows(request.request_id) ==> self.submit_request(request).distinct(),
            !self.knows(work.sequence) ==> self.submit_work(
                work,
                prompt,
                sampling,
                sink_id,
            ).distinct(),
            !self.knows(child) ==> self.fork(parent, child, sink_id).distinct(),
    {
        assert forall|id: u64, i: int|
            #![trigger self.knows(id), self.waiting[i]]
            0 <= i < self.waiting.len() && !self.knows(id) implies self.waiting[i].request_id
            != id by {}
        assert forall|id: u64, i: int|
            #![trigger self.knows(id), self.preempted[i]]
            0 <= i < self.preempted.len() && !self.knows(id) implies self.preempted[i].request_id
            != id by {}
        let asked = self.submit_request(request).waiting;
        assert forall|i: int| 0 <= i < asked.len() implies #[trigger] asked[i] == if i
            < self.waiting.len() {
            self.waiting[i]
        } else {
            request
        } by {}
        let worked = self.submit_work(work, prompt, sampling, sink_id).waiting;
        assert forall|i: int| 0 <= i < worked.len() implies (#[trigger] worked[i]).request_id
            == if i < self.waiting.len() {
            self.waiting[i].request_id
        } else {
            work.sequence
        } by {}
    }

    /// Noting chunks keeps the room for outputs.
    proof fn lemma_noted_room(
        self,
        kv: KvState,
        chunks: Seq<RequestState>,
        n: int,
    )
        requires
            Settling::of(self, kv, Seq::empty()).room(n),
        ensures
            Settling::of(self.note_prefills(chunks), kv, Seq::empty()).room(n),
        decreases chunks.len(),
    {
        if chunks.len() > 0 {
            self.note_prefill(chunks[0]).lemma_noted_room(
                kv,
                chunks.subrange(1, chunks.len() as int),
                n,
            );
        }
    }

    /// The positions of all sequences are `usize`s.
    spec fn positions_fit(self) -> bool {
        &&& forall|id: u64| #[trigger]
            self.arena.records.contains_key(id) ==> self.arena.records[id].tokens() <= usize::MAX
        &&& forall|id: u64| #[trigger]
            self.running.contains_key(id) ==> self.running[id].request.prompt_tokens.len()
                + self.running[id].tokens_generated <= usize::MAX
        &&& forall|i: int|
            0 <= i < self.waiting.len() ==> (#[trigger] self.waiting[i]).prompt_tokens.len()
                <= usize::MAX
        &&& forall|i: int|
            0 <= i < self.preempted.len() ==> (#[trigger] self.preempted[i]).prompt_tokens.len()
                <= usize::MAX
    }

    /// A plan can be stated in `usize`s where the limits and all sequences can.
    pub proof fn law_plan_fits(self, kv: KvState)
        requires
            self.wf(),
            self.config.max_batch_tokens + self.config.prefill_chunk_size + 1 <= usize::MAX,
            forall|id: u64| #[trigger]
                self.arena.records.contains_key(id) ==> self.arena.records[id].tokens()
                    <= usize::MAX,
            forall|id: u64| #[trigger]
                self.running.contains_key(id) ==> self.running[id].request.prompt_tokens.len()
                    + self.running[id].tokens_generated <= usize::MAX,
            forall|i: int|
                0 <= i < self.waiting.len() ==> (#[trigger] self.waiting[i]).prompt_tokens.len()
                    <= usize::MAX,
            forall|i: int|
                0 <= i < self.preempted.len() ==> (
                #[trigger] self.preempted[i]).prompt_tokens.len() <= usize::MAX,
        ensures
            self.round(kv).plan_fits(),
    {
        self.law_batch_within_limits(kv);
        let next = SchedulerState { step_id: (self.step_id + 1) as u64, ..self };
        let start = Round::start(next, kv);
        if self.under_pressure(kv) {
            let v = victim(self.running);
            lemma_victim_exists(self.running);
            let r = start.preempt();
            assert(self.running.contains_key(v));
            assert(r.sched.positions_fit());
            r.lemma_run_all_fits(in_order(r.sched.running.dom()));
        } else {
            let ids = in_order(self.running.dom());
            start.lemma_run_all_fits(ids);
            start.run_all(ids).lemma_admit_all_fits(true);
            start.run_all(ids).admit_all(true).lemma_admit_all_fits(false);
        }
        assert(self.round(kv).sched.positions_fit());
    }
}

impl Round {
    proof fn lemma_run_all_fits(self, ids: Seq<u64>)
        requires
            self.sched.positions_fit(),
        ensures
            self.run_all(ids).sched.positions_fit(),
        decreases ids.len(),
    {
        if !(ids.len() == 0 || self.full() || self.tokens()
            >= self.sched.config.max_batch_tokens) {
            self.run_one(ids[0]).lemma_run_all_fits(ids.subrange(1, ids.len() as int));
        }
    }

    proof fn lemma_admit_all_fits(self, preempted: bool)
        requires
            self.sched.positions_fit(),
        ensures
            self.admit_all(preempted).sched.positions_fit(),
        decreases self.queue(preempted).len(),
    {
        let queue = self.queue(preempted);
        if queue.len() > 0 && self.admissible(queue[0]) {
            let next = self.admit_one(preempted);
            assert forall|i: int| 0 <= i < next.sched.waiting.len() implies (
            #[trigger] next.sched.waiting[i]).prompt_tokens.len() <= usize::MAX by {
                if preempted {
                    assert(next.sched.waiting[i] == self.sched.waiting[i]);
                } else {
                    assert(next.sched.waiting[i] == self.sched.waiting[i + 1]);
                }
            }
            assert forall|i: int| 0 <= i < next.sched.preempted.len() implies (
            #[trigger] next.sched.preempted[i]).prompt_tokens.len() <= usize::MAX by {
                if preempted {
                    assert(next.sched.preempted[i] == self.sched.preempted[i + 1]);
                } else {
                    assert(next.sched.preempted[i] == self.sched.preempted[i]);
                }
            }
            next.lemma_admit_all_fits(preempted);
        }
    }

    /// Chunks follow on each other: the next chunk of a prompt starts where the prefilled
    /// part ends, and once it is noted the prefilled part ends where it ends. The prompt
    /// counts as prefilled when that is its end.
    pub proof fn law_chunks_follow(self, id: u64)
        requires
            self.sched.wf(),
            self.sched.running.contains_key(id),
            !self.sched.running[id].is_prefilled,
            self.next_chunk(id) > 0,
            self.sched.running[id].request.prompt_tokens.len() <= usize::MAX,
        ensures
            ({
                let seq = self.sched.running[id];
                let before = seq.prompt_tokens_prefilled as int;
                let after = self.run_one(id);
                let chunk = after.draft.prefill.last();
                let noted = after.sched.note_prefill(chunk).running[id];
                &&& seq.request.prompt_tokens.subrange(0, before) + chunk.prompt_tokens
                    == seq.request.prompt_tokens.subrange(0, before + self.next_chunk(id))
                &&& noted.prompt_tokens_prefilled == before + self.next_chunk(id)
                &&& noted.is_prefilled == (noted.prompt_tokens_prefilled
                    >= seq.request.prompt_tokens.len())
            }),
    {
        let seq = self.sched.running[id];
        let before = seq.prompt_tokens_prefilled as int;
        let n = self.next_chunk(id);
        assert(seq.request.prompt_tokens.subrange(0, before)
            + seq.request.prompt_tokens.subrange(before, before + n)
            =~= seq.request.prompt_tokens.subrange(0, before + n));
    }
}

impl Settling {
    /// A token that counts reaches the sink of its sequence, and where the sequence ends
    /// with it for good, so does the end, right behind it.
    pub proof fn law_token_reaches_sink(
        self,
        id: u64,
        token: u32,
        logprob: Option<u32>,
        backend_appends: bool,
        sink: CompletionSinkId,
    )
        requires
            self.counts(id),
            self.sched.sink_of(id) == Some(sink),
            self.sched.router.received.contains_key(sink.0),
        ensures
            ({
                let before = self.sched.router.received[sink.0];
                let after = self.take_token(
                    id,
                    token,
                    logprob,
                    backend_appends,
                ).sched.router.received[sink.0];
                let heard = before.push(EventState::Token { seq_id: id, token });
                match self.ending(id, token, backend_appends) {
                    Some(FinishReason::Preempted) => after == heard,
                    Some(reason) => after == heard.push(
                        EventState::Finished {
                            seq_id: id,
                            finish_reason: reason,
                            total_tokens: (self.sched.running[id].tokens_generated + 1) as usize,
                        },
                    ),
                    None => after == heard,
                }
            }),
    {
    }

    /// A sequence that ended runs no more and holds no block.
    pub proof fn law_finish_frees(self, id: u64, reason: FinishReason, total_tokens: usize)
        requires
            self.kv.wf(),
        ensures
            !self.finish(id, reason, total_tokens).sched.running.contains_key(id),
            !self.finish(id, reason, total_tokens).kv.tables.contains_key(id),
    {
    }

    /// Where the backend stores tokens itself, the scheduler stores none: every sequence that
    /// still has blocks has the table that it had, and no block is taken.
    pub proof fn law_backend_stores_alone(self, outputs: Seq<DecodeOutput>, id: u64)
        ensures
            ({
                let after = self.settle_all(outputs, true).kv;
                &&& after.tables.contains_key(id) ==> self.kv.tables.contains_key(id)
                    && after.tables[id] == self.kv.tables[id]
                &&& after.pool == self.kv.pool
                &&& after.cow_faults == self.kv.cow_faults
                &&& after.free.len() >= self.kv.free.len()
            }),
        decreases outputs.len(),
    {
        if outputs.len() > 0 {
            self.settle(outputs[0], true).law_backend_stores_alone(
                outputs.subrange(1, outputs.len() as int),
                id,
            );
        }
    }

    /// A token of a sequence that does not run, or whose prompt is not prefilled, changes
    /// nothing.
    pub proof fn law_early_token_is_dropped(
        self,
        id: u64,
        token: u32,
        logprob: Option<u32>,
        backend_appends: bool,
    )
        requires
            !self.counts(id),
        ensures
            self.settle(
                (DecodeOutput::Token { request_id: id, token_id: token, logprob }),
                backend_appends,
            ) == self,
    {
    }
}

} // verus!
