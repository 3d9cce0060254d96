//! Records of the sequences in flight, and the arena that holds them.

use crate::abi::{RequestState, SamplingParams, SamplingState, SequenceRequest};
use crate::completion::CompletionSinkId;
use crate::layout::low_u32;
use crate::maps::{in_order, sorted_keys, value_mut, view_values};
use crate::platform::{InferenceWork, KvHandle, ModelHandle, Priority, SequenceId, Ticks};
use crate::text::{decimal, numbered};
use std::collections::HashMap;
use std::sync::Arc;
use vstd::prelude::*;

verus! {

broadcast use {vstd::std_specs::hash::group_hash_axioms, crate::maps::group_view_values};

/// Prompt tokens, shared by a sequence and its branches.
pub type PromptHandle = Arc<[u32]>;

/// `Arc::clone` gives a further handle to the same tokens.
#[verifier::external_body]
fn share_prompt(prompt: &PromptHandle) -> (r: PromptHandle)
    ensures
        (*r)@ == (**prompt)@,
{
    Arc::clone(prompt)
}

/// `Arc::<[u32]>::from` moves the tokens of a vector behind a handle.
#[verifier::external_body]
fn prompt_of(tokens: Vec<u32>) -> (r: PromptHandle)
    ensures
        (*r)@ == tokens@,
{
    Arc::from(tokens)
}

/// A stretch of prompt tokens to prefill.
#[derive(Debug, Clone, Copy, PartialEq, Eq)]
pub struct PrefillSpan {
    pub seq_id: SequenceId,
    pub start_pos: usize,
    pub length: usize,
}

/// A decode step of one sequence.
#[derive(Debug, Clone, Copy, PartialEq, Eq)]
pub struct DecodeItem {
    pub seq_id: SequenceId,
    pub token_pos: usize,
}

/// The work of one step, as spans of prompts and single tokens.
#[derive(Debug, PartialEq, Eq)]
pub struct BatchPlan {
    pub step_id: u64,
    pub prefill_spans: Vec<PrefillSpan>,
    pub decode_items: Vec<DecodeItem>,
    pub total_tokens: usize,
}

impl Clone for BatchPlan {
    fn clone(&self) -> (r: Self)
        ensures
            r.step_id == self.step_id,
            r.prefill_spans@ == self.prefill_spans@,
            r.decode_items@ == self.decode_items@,
            r.total_tokens == self.total_tokens,
    {
        let prefill_spans = self.prefill_spans.clone();
        let decode_items = self.decode_items.clone();
        assert(prefill_spans@ =~= self.prefill_spans@);
        assert(decode_items@ =~= self.decode_items@);
        BatchPlan { step_id: self.step_id, prefill_spans, decode_items, total_tokens: self.total_tokens }
    }
}

/// Where a sequence is in its life.
#[derive(Debug, Clone, Copy, PartialEq, Eq, Structural)]
pub enum SequencePhase {
    Waiting,
    Prefill,
    PrefillInFlight,
    Decode,
    DecodeInFlight,
    Preempted,
    Finished,
    Cancelled,
}

/// The runtime state of one sequence.
#[derive(Debug)]
pub struct SequenceRecord {
    pub seq_id: SequenceId,
    pub prompt: PromptHandle,
    pub model: ModelHandle,
    pub kv: KvHandle,
    pub priority: Priority,
    pub deadline: Option<Ticks>,
    pub branch_parent: Option<SequenceId>,
    pub next_token_budget: u32,
    pub phase: SequencePhase,
    pub tokens_generated: usize,
    pub prompt_tokens_prefilled: usize,
    pub is_prefilled: bool,
    pub sink_id: Option<CompletionSinkId>,
    pub sampling_params: SamplingParams,
    pub arrival_time_ns: u64,
    pub generated_tokens: Vec<u32>,
}

/// What a [`SequenceRecord`] says.
#[verifier::ext_equal]
pub struct RecordState {
    pub seq_id: SequenceId,
    pub prompt: Seq<u32>,
    pub model: ModelHandle,
    pub kv: KvHandle,
    pub priority: Priority,
    pub deadline: Option<Ticks>,
    pub branch_parent: Option<SequenceId>,
    pub next_token_budget: u32,
    pub phase: SequencePhase,
    pub tokens_generated: usize,
    pub prompt_tokens_prefilled: usize,
    pub is_prefilled: bool,
    pub sink_id: Option<CompletionSinkId>,
    pub sampling_params: SamplingState,
    pub arrival_time_ns: u64,
    pub generated_tokens: Seq<u32>,
}

impl View for SequenceRecord {
    type V = RecordState;

    open spec fn view(&self) -> RecordState {
        RecordState {
            seq_id: self.seq_id,
            prompt: (*self.prompt)@,
            model: self.model,
            kv: self.kv,
            priority: self.priority,
            deadline: self.deadline,
            branch_parent: self.branch_parent,
            next_token_budget: self.next_token_budget,
            phase: self.phase,
            tokens_generated: self.tokens_generated,
            prompt_tokens_prefilled: self.prompt_tokens_prefilled,
            is_prefilled: self.is_prefilled,
            sink_id: self.sink_id,
            sampling_params: self.sampling_params@,
            arrival_time_ns: self.arrival_time_ns,
            generated_tokens: self.generated_tokens@,
        }
    }
}

impl RecordState {
    /// A record before anything was done for it.
    pub open spec fn of_work(
        work: InferenceWork,
        prompt: Seq<u32>,
        sampling_params: SamplingState,
        sink_id: Option<CompletionSinkId>,
    ) -> RecordState {
        RecordState {
            seq_id: work.sequence,
            prompt,
            model: work.model,
            kv: work.kv,
            priority: work.priority,
            deadline: work.deadline,
            branch_parent: work.branch_parent,
            next_token_budget: work.next_token_budget,
            phase: SequencePhase::Waiting,
            tokens_generated: 0,
            prompt_tokens_prefilled: 0,
            is_prefilled: false,
            sink_id,
            sampling_params,
            arrival_time_ns: 0,
            generated_tokens: Seq::empty(),
        }
    }

    /// The record of a request: its own KV storage, and as budget the low 32 bits of its
    /// token limit.
    pub open spec fn of_request(request: RequestState, sink_id: Option<CompletionSinkId>) -> RecordState {
        RecordState {
            arrival_time_ns: request.arrival_time_ns,
            ..RecordState::of_work(
                InferenceWork {
                    sequence: request.request_id,
                    model: ModelHandle(0),
                    kv: KvHandle(request.request_id),
                    priority: Priority::of_rank(request.priority),
                    deadline: None,
                    branch_parent: None,
                    next_token_budget: (request.sampling_params.max_tokens as int
                        % 0x1_0000_0000) as u32,
                },
                request.prompt_tokens,
                request.sampling_params,
                sink_id,
            )
        }
    }

    /// The request that a record stands for.
    pub open spec fn request(self) -> RequestState {
        RequestState {
            request_id: self.seq_id,
            prompt_tokens: self.prompt,
            sampling_params: self.sampling_params,
            arrival_time_ns: self.arrival_time_ns,
            priority: self.priority.rank_of(),
        }
    }

    /// Prompt and generated tokens.
    pub open spec fn tokens(self) -> int {
        self.prompt.len() + self.tokens_generated
    }

    /// The sequence ended, or reached its token limit or its budget; a budget of zero is
    /// no limit.
    pub open spec fn done(self) -> bool {
        ||| self.phase is Finished
        ||| self.tokens_generated >= self.sampling_params.max_tokens
        ||| self.next_token_budget > 0 && self.tokens_generated >= self.next_token_budget
    }

    pub open spec fn in_phase(self, phase: SequencePhase) -> RecordState {
        RecordState { phase, ..self }
    }

    /// The record after a token was generated.
    pub open spec fn with_token(self, token: u32) -> RecordState {
        RecordState {
            tokens_generated: (self.tokens_generated + 1) as usize,
            generated_tokens: self.generated_tokens.push(token),
            ..self
        }
    }

    /// The record after prompt tokens were prefilled; it decodes once all were.
    pub open spec fn with_prefilled(self, count: usize) -> RecordState {
        let n = self.prompt_tokens_prefilled + count;
        RecordState {
            prompt_tokens_prefilled: n as usize,
            is_prefilled: self.is_prefilled || n >= self.prompt.len(),
            phase: if n >= self.prompt.len() {
                SequencePhase::Decode
            } else {
                SequencePhase::Prefill
            },
            ..self
        }
    }

    /// A branch of this record: the same prompt and progress, storage of its own.
    pub open spec fn branch(self, child: SequenceId, sink_id: Option<CompletionSinkId>) -> RecordState {
        RecordState {
            seq_id: child,
            kv: KvHandle(child),
            branch_parent: Some(self.seq_id),
            phase: SequencePhase::Decode,
            sink_id,
            ..self
        }
    }

    /// A record made from a request stands for that request, up to the rank of its
    /// priority, which is at most the highest.
    pub proof fn law_request_round_trip(request: RequestState, sink_id: Option<CompletionSinkId>)
        ensures
            RecordState::of_request(request, sink_id).request() == (RequestState {
                priority: if request.priority <= 3 {
                    request.priority
                } else {
                    3
                },
                ..request
            }),
    {
    }
}

impl SequenceRecord {
    pub fn new(
        seq_id: SequenceId,
        prompt: PromptHandle,
        model: ModelHandle,
        kv: KvHandle,
        priority: Priority,
        deadline: Option<Ticks>,
        branch_parent: Option<SequenceId>,
        next_token_budget: u32,
        sampling_params: SamplingParams,
        sink_id: Option<CompletionSinkId>,
    ) -> (r: Self)
        ensures
            r@ == RecordState::of_work(
                InferenceWork {
                    sequence: seq_id,
                    model,
                    kv,
                    priority,
                    deadline,
                    branch_parent,
                    next_token_budget,
                },
                (*prompt)@,
                sampling_params@,
                sink_id,
            ),
    {
        SequenceRecord {
            seq_id,
            prompt,
            model,
            kv,
            priority,
            deadline,
            branch_parent,
            next_token_budget,
            phase: SequencePhase::Waiting,
            tokens_generated: 0,
            prompt_tokens_prefilled: 0,
            is_prefilled: false,
            sink_id,
            sampling_params,
            arrival_time_ns: 0,
            generated_tokens: Vec::new(),
        }
    }

    pub fn from_work(
        work: InferenceWork,
        prompt: PromptHandle,
        sampling_params: SamplingParams,
        sink_id: Option<CompletionSinkId>,
    ) -> (r: Self)
        ensures
            r@ == RecordState::of_work(work, (*prompt)@, sampling_params@, sink_id),
    {
        SequenceRecord::new(
            work.sequence,
            prompt,
            work.model,
            work.kv,
            work.priority,
            work.deadline,
            work.branch_parent,
            work.next_token_budget,
            sampling_params,
            sink_id,
        )
    }

    pub fn from_request(request: SequenceRequest, sink_id: Option<CompletionSinkId>) -> (r: Self)
        ensures
            r@ == RecordState::of_request(request@, sink_id),
    {
        let budget: u32 = low_u32(request.sampling_params.max_tokens);
        let mut r = SequenceRecord::new(
            request.request_id,
            prompt_of(request.prompt_tokens),
            ModelHandle(0),
            KvHandle(request.request_id),
            Priority::from_rank(request.priority),
            None,
            None,
            budget,
            request.sampling_params,
            sink_id,
        );
        r.arrival_time_ns = request.arrival_time_ns;
        r
    }

    pub fn remaining_prefill_tokens(&self) -> (r: usize)
        ensures
            r == if self@.prompt_tokens_prefilled >= self@.prompt.len() {
                0
            } else {
                self@.prompt.len() - self@.prompt_tokens_prefilled
            },
    {
        let n: usize = self.prompt.len();
        if self.prompt_tokens_prefilled >= n {
            0
        } else {
            n - self.prompt_tokens_prefilled
        }
    }

    pub fn total_tokens(&self) -> (r: usize)
        requires
            self@.tokens() <= usize::MAX,
        ensures
            r == self@.tokens(),
    {
        self.prompt.len() + self.tokens_generated
    }

    pub fn is_finished(&self) -> (r: bool)
        ensures
            r == self@.done(),
    {
        self.phase == SequencePhase::Finished || self.tokens_generated
            >= self.sampling_params.max_tokens || (self.next_token_budget > 0
            && self.tokens_generated as u64 >= self.next_token_budget as u64)
    }

    pub fn to_request(&self) -> (r: SequenceRequest)
        ensures
            r@ == self@.request(),
    {
        SequenceRequest {
            request_id: self.seq_id,
            prompt_tokens: vstd::slice::slice_to_vec(&*self.prompt),
            sampling_params: self.sampling_params.clone(),
            arrival_time_ns: self.arrival_time_ns,
            priority: self.priority.rank(),
        }
    }

    /// A branch of this sequence, over the same prompt tokens.
    fn branch(&self, child_id: SequenceId, sink_id: Option<CompletionSinkId>) -> (r: Self)
        ensures
            r@ == self@.branch(child_id, sink_id),
    {
        let generated_tokens = self.generated_tokens.clone();
        assert(generated_tokens@ =~= self.generated_tokens@);
        SequenceRecord {
            seq_id: child_id,
            prompt: share_prompt(&self.prompt),
            model: self.model,
            kv: KvHandle(child_id),
            priority: self.priority,
            deadline: self.deadline,
            branch_parent: Some(self.seq_id),
            next_token_budget: self.next_token_budget,
            phase: SequencePhase::Decode,
            tokens_generated: self.tokens_generated,
            prompt_tokens_prefilled: self.prompt_tokens_prefilled,
            is_prefilled: self.is_prefilled,
            sink_id,
            sampling_params: self.sampling_params.clone(),
            arrival_time_ns: self.arrival_time_ns,
            generated_tokens,
        }
    }
}

impl Clone for SequenceRecord {
    fn clone(&self) -> (r: Self)
        ensures
            r@ == self@,
    {
        let mut r = self.branch(self.seq_id, self.sink_id);
        r.kv = self.kv;
        r.branch_parent = self.branch_parent;
        r.phase = self.phase;
        r
    }
}

/// All records and the totals over them.
#[verifier::ext_equal]
pub struct ArenaState {
    pub records: Map<u64, RecordState>,
    pub total_tokens_generated: usize,
    pub total_prefilled_tokens: usize,
}

impl ArenaState {
    pub open spec fn initial() -> ArenaState {
        ArenaState {
            records: Map::empty(),
            total_tokens_generated: 0,
            total_prefilled_tokens: 0,
        }
    }

    /// Records are held under their own identifier.
    pub open spec fn wf(self) -> bool {
        &&& self.records.dom().finite()
        &&& forall|s: u64| #[trigger] self.records.contains_key(s) ==> self.records[s].seq_id == s
    }

    pub open spec fn insert(self, record: RecordState) -> ArenaState {
        ArenaState { records: self.records.insert(record.seq_id, record), ..self }
    }

    /// The arena after a request to insert: a record that is there stays.
    pub open spec fn insert_or_keep(self, record: RecordState) -> ArenaState {
        if self.records.contains_key(record.seq_id) {
            self
        } else {
            self.insert(record)
        }
    }

    pub open spec fn fork_possible(self, parent: u64, child: u64) -> bool {
        self.records.contains_key(parent) && !self.records.contains_key(child)
    }

    pub open spec fn fork(self, parent: u64, child: u64, sink_id: Option<CompletionSinkId>) -> ArenaState {
        ArenaState {
            records: self.records.insert(
                child,
                RecordState { branch_parent: Some(parent), ..self.records[parent].branch(child, sink_id) },
            ),
            ..self
        }
    }

    pub open spec fn fork_or_keep(
        self,
        parent: u64,
        child: u64,
        sink_id: Option<CompletionSinkId>,
    ) -> ArenaState {
        if self.fork_possible(parent, child) {
            self.fork(parent, child, sink_id)
        } else {
            self
        }
    }

    /// The arena with a record moved to a phase, if it is there.
    pub open spec fn in_phase(self, seq: u64, phase: SequencePhase) -> ArenaState {
        if self.records.contains_key(seq) {
            ArenaState {
                records: self.records.insert(seq, self.records[seq].in_phase(phase)),
                ..self
            }
        } else {
            self
        }
    }

    pub open spec fn with_token(self, seq: u64, token: u32) -> ArenaState {
        if self.records.contains_key(seq) {
            ArenaState {
                records: self.records.insert(seq, self.records[seq].with_token(token)),
                total_tokens_generated: (self.total_tokens_generated + 1) as usize,
                ..self
            }
        } else {
            self
        }
    }

    pub open spec fn with_prefilled(self, seq: u64, count: usize) -> ArenaState {
        if self.records.contains_key(seq) {
            ArenaState {
                records: self.records.insert(seq, self.records[seq].with_prefilled(count)),
                total_prefilled_tokens: (self.total_prefilled_tokens + count) as usize,
                ..self
            }
        } else {
            self
        }
    }

    /// The token counts of a record, and the total, have room for `n` more.
    pub open spec fn token_room(self, n: int) -> bool {
        &&& self.total_tokens_generated + n <= usize::MAX
        &&& forall|s: u64| #[trigger]
            self.records.contains_key(s) ==> self.records[s].tokens_generated + n <= usize::MAX
    }

    /// The prefill counts of a record, and the total, have room for `n` more.
    pub open spec fn prefill_room(self, n: int) -> bool {
        &&& self.total_prefilled_tokens + n <= usize::MAX
        &&& forall|s: u64| #[trigger]
            self.records.contains_key(s) ==> self.records[s].prompt_tokens_prefilled + n
                <= usize::MAX
    }

    /// A branch has its parent's prompt and progress, and every other record stays.
    pub proof fn law_fork_shares_prompt(
        self,
        parent: u64,
        child: u64,
        sink_id: Option<CompletionSinkId>,
        other: u64,
    )
        requires
            self.wf(),
            self.fork_possible(parent, child),
            other != child,
        ensures
            self.fork(parent, child, sink_id).wf(),
            self.fork(parent, child, sink_id).records[child].prompt == self.records[parent].prompt,
            self.fork(parent, child, sink_id).records[child].generated_tokens
                == self.records[parent].generated_tokens,
            self.fork(parent, child, sink_id).records[child].branch_parent == Some(parent),
            self.fork(parent, child, sink_id).records.contains_key(other)
                == self.records.contains_key(other),
            self.records.contains_key(other) ==> self.fork(
                parent,
                child,
                sink_id,
            ).records[other] == self.records[other],
            self.fork(parent, child, sink_id).records.dom().len() == self.records.dom().len() + 1,
    {
    }

    /// Prefilling a prompt in two parts is prefilling it at once.
    pub proof fn law_prefill_in_parts(self, seq: u64, a: usize, b: usize)
        requires
            self.records.contains_key(seq),
            self.records[seq].prompt_tokens_prefilled + a + b <= usize::MAX,
            self.total_prefilled_tokens + a + b <= usize::MAX,
        ensures
            self.with_prefilled(seq, a).with_prefilled(seq, b) == self.with_prefilled(
                seq,
                (a + b) as usize,
            ),
    {
        assert(self.with_prefilled(seq, a).with_prefilled(seq, b).records
            =~= self.with_prefilled(seq, (a + b) as usize).records);
    }
}

/// Holds the records of all sequences.
pub struct SequenceArena {
    records: HashMap<u64, SequenceRecord>,
    total_tokens_generated: usize,
    total_prefilled_tokens: usize,
}

impl View for SequenceArena {
    type V = ArenaState;

    closed spec fn view(&self) -> ArenaState {
        ArenaState {
            records: view_values(self.records@),
            total_tokens_generated: self.total_tokens_generated,
            total_prefilled_tokens: self.total_prefilled_tokens,
        }
    }
}

impl Default for SequenceArena {
    fn default() -> (r: Self)
        ensures
            r@ == ArenaState::initial(),
            r@.wf(),
    {
        SequenceArena::new()
    }
}

impl SequenceArena {
    pub fn new() -> (r: Self)
        ensures
            r@ == ArenaState::initial(),
            r@.wf(),
    {
        SequenceArena {
            records: HashMap::new(),
            total_tokens_generated: 0,
            total_prefilled_tokens: 0,
        }
    }

    pub fn insert(&mut self, record: SequenceRecord) -> (r: Result<(), String>)
        ensures
            final(self)@ == old(self)@.insert_or_keep(record@),
            match r {
                Ok(_) => !old(self)@.records.contains_key(record@.seq_id),
                Err(e) => {
                    &&& old(self)@.records.contains_key(record@.seq_id)
                    &&& e@ == "Sequence "@ + decimal(record@.seq_id as nat)
                        + " already exists in arena"@
                },
            },
            old(self)@.wf() ==> final(self)@.wf(),
    {
        let seq_id: u64 = record.seq_id;
        if self.records.contains_key(&seq_id) {
            return Err(numbered("Sequence ", seq_id, " already exists in arena"));
        }
        self.records.insert(seq_id, record);
        Ok(())
    }

    pub fn get(&self, seq_id: &SequenceId) -> (r: Option<&SequenceRecord>)
        ensures
            match r {
                Some(record) => self@.records.contains_key(*seq_id) && record@
                    == self@.records[*seq_id],
                None => !self@.records.contains_key(*seq_id),
            },
    {
        self.records.get(seq_id)
    }

    /// A record to change; what the borrower leaves in it is the record.
    pub fn get_mut(&mut self, seq_id: &SequenceId) -> (r: Option<&mut SequenceRecord>)
        ensures
            match r {
                Some(record) => {
                    &&& old(self)@.records.contains_key(*seq_id)
                    &&& record@ == old(self)@.records[*seq_id]
                    &&& final(self)@ == (ArenaState {
                        records: old(self)@.records.insert(*seq_id, final(record)@),
                        ..old(self)@
                    })
                },
                None => !old(self)@.records.contains_key(*seq_id) && final(self)@ == old(self)@,
            },
    {
        value_mut(&mut self.records, *seq_id)
    }

    pub fn remove(&mut self, seq_id: &SequenceId) -> (r: Option<SequenceRecord>)
        ensures
            final(self)@ == (ArenaState {
                records: old(self)@.records.remove(*seq_id),
                ..old(self)@
            }),
            match r {
                Some(record) => old(self)@.records.contains_key(*seq_id) && record@
                    == old(self)@.records[*seq_id],
                None => !old(self)@.records.contains_key(*seq_id),
            },
            old(self)@.wf() ==> final(self)@.wf(),
    {
        self.records.remove(seq_id)
    }

    pub fn contains(&self, seq_id: SequenceId) -> (r: bool)
        ensures
            r == self@.records.contains_key(seq_id),
    {
        self.records.contains_key(&seq_id)
    }

    pub fn len(&self) -> (r: usize)
        ensures
            r == self@.records.dom().len(),
    {
        self.records.len()
    }

    pub fn is_empty(&self) -> (r: bool)
        ensures
            r == (self@.records.dom().len() == 0),
    {
        self.records.len() == 0
    }

    /// Branches a sequence; the branch shares its parent's prompt tokens.
    pub fn fork(
        &mut self,
        parent_id: SequenceId,
        child_id: SequenceId,
        sink_id: Option<CompletionSinkId>,
    ) -> (r: Result<SequenceRecord, String>)
        ensures
            final(self)@ == old(self)@.fork_or_keep(parent_id, child_id, sink_id),
            match r {
                Ok(child) => {
                    &&& old(self)@.fork_possible(parent_id, child_id)
                    &&& child@ == final(self)@.records[child_id]
                },
                Err(e) => if !old(self)@.records.contains_key(parent_id) {
                    e@ == "Parent sequence "@ + decimal(parent_id as nat) + " not found in arena"@
                } else {
                    &&& old(self)@.records.contains_key(child_id)
                    &&& e@ == "Child sequence "@ + decimal(child_id as nat)
                        + " already exists in arena"@
                },
            },
            old(self)@.wf() ==> final(self)@.wf(),
    {
        let mut child = match self.records.get(&parent_id) {
            Some(parent) => {
                if self.records.contains_key(&child_id) {
                    return Err(numbered("Child sequence ", child_id, " already exists in arena"));
                }
                parent.branch(child_id, sink_id)
            },
            None => {
                return Err(numbered("Parent sequence ", parent_id, " not found in arena"));
            },
        };
        child.branch_parent = Some(parent_id);
        self.records.insert(child_id, child.clone());
        Ok(child)
    }

    pub fn active_ids(&self) -> (r: Vec<SequenceId>)
        ensures
            r@ == in_order(self@.records.dom()),
    {
        sorted_keys(&self.records)
    }

    pub fn record_generated_token(&mut self, seq_id: SequenceId, token: u32)
        requires
            old(self)@.records.contains_key(seq_id) ==> {
                &&& old(self)@.records[seq_id].tokens_generated < usize::MAX
                &&& old(self)@.total_tokens_generated < usize::MAX
            },
        ensures
            final(self)@ == old(self)@.with_token(seq_id, token),
            old(self)@.wf() ==> final(self)@.wf(),
    {
        match value_mut(&mut self.records, seq_id) {
            Some(record) => {
                record.tokens_generated = record.tokens_generated + 1;
                record.generated_tokens.push(token);
                self.total_tokens_generated = self.total_tokens_generated + 1;
            },
            None => {},
        }
    }

    pub fn record_prefilled_tokens(&mut self, seq_id: SequenceId, count: usize)
        requires
            old(self)@.records.contains_key(seq_id) ==> {
                &&& old(self)@.records[seq_id].prompt_tokens_prefilled + count <= usize::MAX
                &&& old(self)@.total_prefilled_tokens + count <= usize::MAX
            },
        ensures
            final(self)@ == old(self)@.with_prefilled(seq_id, count),
            old(self)@.wf() ==> final(self)@.wf(),
    {
        match value_mut(&mut self.records, seq_id) {
            Some(record) => {
                record.prompt_tokens_prefilled = record.prompt_tokens_prefilled + count;
                if record.prompt_tokens_prefilled >= record.prompt.len() {
                    record.is_prefilled = true;
                    record.phase = SequencePhase::Decode;
                } else {
                    record.phase = SequencePhase::Prefill;
                }
                self.total_prefilled_tokens = self.total_prefilled_tokens + count;
            },
            None => {},
        }
    }

    /// Moves a record to a phase, if it is there.
    pub fn set_phase(&mut self, seq_id: SequenceId, phase: SequencePhase)
        ensures
            final(self)@ == old(self)@.in_phase(seq_id, phase),
            old(self)@.wf() ==> final(self)@.wf(),
    {
        match value_mut(&mut self.records, seq_id) {
            Some(record) => {
                record.phase = phase;
            },
            None => {},
        }
    }

    pub fn total_tokens_generated(&self) -> (r: usize)
        ensures
            r == self@.total_tokens_generated,
    {
        self.total_tokens_generated
    }

    pub fn total_prefilled_tokens(&self) -> (r: usize)
        ensures
            r == self@.total_prefilled_tokens,
    {
        self.total_prefilled_tokens
    }
}

} // verus!
