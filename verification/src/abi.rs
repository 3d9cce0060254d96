//! What passes between the scheduler and an execution backend.
//!
//! Floating-point settings are carried as IEEE 754 bit patterns.

use crate::maps::{total_len, view_all, view_values};
use std::collections::HashMap;
use vstd::prelude::*;

verus! {

broadcast use {
    vstd::std_specs::hash::group_hash_axioms,
    crate::maps::group_view_values,
    crate::maps::group_view_all,
};

/// Page accounting of one branch.
#[derive(Debug, Clone, Copy, PartialEq, Eq, Structural)]
pub struct AienUsageReceipt {
    pub prefix_tokens: usize,
    pub private_tokens: usize,
    pub logical_pages: usize,
    pub physical_pages: usize,
    pub shared_pages: usize,
    pub private_pages: usize,
    pub cow_faults: usize,
    pub physical_kv_bytes: usize,
    pub bytes_saved_vs_full_copy: usize,
}

impl Default for AienUsageReceipt {
    fn default() -> (r: Self)
        ensures
            r == (AienUsageReceipt {
                prefix_tokens: 0,
                private_tokens: 0,
                logical_pages: 0,
                physical_pages: 0,
                shared_pages: 0,
                private_pages: 0,
                cow_faults: 0,
                physical_kv_bytes: 0,
                bytes_saved_vs_full_copy: 0,
            }),
    {
        AienUsageReceipt {
            prefix_tokens: 0,
            private_tokens: 0,
            logical_pages: 0,
            physical_pages: 0,
            shared_pages: 0,
            private_pages: 0,
            cow_faults: 0,
            physical_kv_bytes: 0,
            bytes_saved_vs_full_copy: 0,
        }
    }
}

/// KV heads of a configuration that does not name them.
pub fn default_num_kv_heads() -> (r: usize)
    ensures
        r == 8,
{
    8
}

/// Vocabulary of a configuration that does not name it.
pub fn default_vocab_size() -> (r: usize)
    ensures
        r == 151936,
{
    151936
}

/// Bits of the `f32` 1e-6.
pub fn default_rms_norm_eps() -> (r: u32)
    ensures
        r == 0x3586_37BD,
{
    0x3586_37BD
}

/// Bits of the `f32` 10000.
pub fn default_rope_theta() -> (r: u32)
    ensures
        r == 0x461C_4000,
{
    0x461C_4000
}

/// The shape of a model. `rms_norm_eps` and `rope_theta` are bits of an `f32`.
#[derive(Debug)]
pub struct ModelConfig {
    pub model_id: String,
    pub max_sequence_length: usize,
    pub block_size: usize,
    pub num_layers: usize,
    pub num_heads: usize,
    pub head_dim: usize,
    pub num_kv_heads: usize,
    pub hidden_dim: usize,
    pub intermediate_dim: usize,
    pub vocab_size: usize,
    pub rms_norm_eps: u32,
    pub rope_theta: u32,
}

/// What a [`ModelConfig`] says.
#[verifier::ext_equal]
pub struct ModelState {
    pub model_id: Seq<char>,
    pub max_sequence_length: usize,
    pub block_size: usize,
    pub num_layers: usize,
    pub num_heads: usize,
    pub head_dim: usize,
    pub num_kv_heads: usize,
    pub hidden_dim: usize,
    pub intermediate_dim: usize,
    pub vocab_size: usize,
    pub rms_norm_eps: u32,
    pub rope_theta: u32,
}

impl ModelState {
    /// The hidden dimension; that of the heads together, where none is set.
    pub open spec fn hidden(self) -> int {
        if self.hidden_dim > 0 {
            self.hidden_dim as int
        } else {
            self.num_heads * self.head_dim
        }
    }

    /// The dimension between the two projections of a layer; four times the hidden one,
    /// where none is set.
    pub open spec fn intermediate(self) -> int {
        if self.intermediate_dim > 0 {
            self.intermediate_dim as int
        } else {
            self.hidden() * 4
        }
    }

    pub open spec fn vocab(self) -> usize {
        if self.vocab_size > 0 {
            self.vocab_size
        } else {
            151936
        }
    }

    pub open spec fn tinyllama() -> ModelState {
        ModelState {
            model_id: "TinyLlama/TinyLlama-1.1B-Chat-v1.0"@,
            max_sequence_length: 2048,
            block_size: 16,
            num_layers: 22,
            num_heads: 32,
            head_dim: 64,
            num_kv_heads: 4,
            hidden_dim: 2048,
            intermediate_dim: 5632,
            vocab_size: 32000,
            rms_norm_eps: 0x3727_C5AC,
            rope_theta: 0x461C_4000,
        }
    }

    pub open spec fn initial() -> ModelState {
        ModelState {
            model_id: "nvidia/NVIDIA-Nemotron-3.5-Lightning-30B-A3B-BF16"@,
            max_sequence_length: 32768,
            block_size: 16,
            num_layers: 48,
            num_heads: 32,
            head_dim: 128,
            num_kv_heads: 8,
            hidden_dim: 4096,
            intermediate_dim: 14336,
            vocab_size: 151936,
            rms_norm_eps: 0x3586_37BD,
            rope_theta: 0x461C_4000,
        }
    }
}

impl View for ModelConfig {
    type V = ModelState;

    open spec fn view(&self) -> ModelState {
        ModelState {
            model_id: self.model_id@,
            max_sequence_length: self.max_sequence_length,
            block_size: self.block_size,
            num_layers: self.num_layers,
            num_heads: self.num_heads,
            head_dim: self.head_dim,
            num_kv_heads: self.num_kv_heads,
            hidden_dim: self.hidden_dim,
            intermediate_dim: self.intermediate_dim,
            vocab_size: self.vocab_size,
            rms_norm_eps: self.rms_norm_eps,
            rope_theta: self.rope_theta,
        }
    }
}

impl ModelConfig {
    /// TinyLlama 1.1B Chat.
    pub fn tinyllama_1_1b() -> (r: Self)
        ensures
            r@ == ModelState::tinyllama(),
    {
        ModelConfig {
            model_id: "TinyLlama/TinyLlama-1.1B-Chat-v1.0".to_owned(),
            max_sequence_length: 2048,
            block_size: 16,
            num_layers: 22,
            num_heads: 32,
            head_dim: 64,
            num_kv_heads: 4,
            hidden_dim: 2048,
            intermediate_dim: 5632,
            vocab_size: 32000,
            rms_norm_eps: 0x3727_C5AC,
            rope_theta: 0x461C_4000,
        }
    }

    pub fn hidden_dim(&self) -> (r: usize)
        requires
            self@.hidden() <= usize::MAX,
        ensures
            r == self@.hidden(),
    {
        if self.hidden_dim > 0 {
            self.hidden_dim
        } else {
            self.num_heads * self.head_dim
        }
    }

    pub fn intermediate_dim(&self) -> (r: usize)
        requires
            self@.intermediate() <= usize::MAX,
        ensures
            r == self@.intermediate(),
    {
        if self.intermediate_dim > 0 {
            self.intermediate_dim
        } else {
            self.hidden_dim() * 4
        }
    }

    pub fn vocab_size(&self) -> (r: usize)
        ensures
            r == self@.vocab(),
    {
        if self.vocab_size > 0 {
            self.vocab_size
        } else {
            151936
        }
    }
}

impl Clone for ModelConfig {
    fn clone(&self) -> (r: Self)
        ensures
            r@ == self@,
    {
        ModelConfig {
            model_id: self.model_id.clone(),
            max_sequence_length: self.max_sequence_length,
            block_size: self.block_size,
            num_layers: self.num_layers,
            num_heads: self.num_heads,
            head_dim: self.head_dim,
            num_kv_heads: self.num_kv_heads,
            hidden_dim: self.hidden_dim,
            intermediate_dim: self.intermediate_dim,
            vocab_size: self.vocab_size,
            rms_norm_eps: self.rms_norm_eps,
            rope_theta: self.rope_theta,
        }
    }
}

impl Default for ModelConfig {
    fn default() -> (r: Self)
        ensures
            r@ == ModelState::initial(),
    {
        ModelConfig {
            model_id: "nvidia/NVIDIA-Nemotron-3.5-Lightning-30B-A3B-BF16".to_owned(),
            max_sequence_length: 32768,
            block_size: 16,
            num_layers: 48,
            num_heads: 32,
            head_dim: 128,
            num_kv_heads: 8,
            hidden_dim: 4096,
            intermediate_dim: 14336,
            vocab_size: 151936,
            rms_norm_eps: 0x3586_37BD,
            rope_theta: 0x461C_4000,
        }
    }
}

/// How tokens are chosen and when to stop. `temperature` and `top_p` are bits of an `f32`.
#[derive(Debug)]
pub struct SamplingParams {
    pub temperature: u32,
    pub top_p: u32,
    pub max_tokens: usize,
    pub stop_token_ids: Vec<u32>,
}

/// What [`SamplingParams`] say.
#[verifier::ext_equal]
pub struct SamplingState {
    pub temperature: u32,
    pub top_p: u32,
    pub max_tokens: usize,
    pub stop_token_ids: Seq<u32>,
}

impl SamplingState {
    /// Temperature 0.7, top-p 0.95, at most 512 tokens, stopping at tokens 0, 1 and 2.
    pub open spec fn initial() -> SamplingState {
        SamplingState {
            temperature: 0x3F33_3333,
            top_p: 0x3F73_3333,
            max_tokens: 512,
            stop_token_ids: seq![0u32, 1u32, 2u32],
        }
    }
}

impl View for SamplingParams {
    type V = SamplingState;

    open spec fn view(&self) -> SamplingState {
        SamplingState {
            temperature: self.temperature,
            top_p: self.top_p,
            max_tokens: self.max_tokens,
            stop_token_ids: self.stop_token_ids@,
        }
    }
}

impl Clone for SamplingParams {
    fn clone(&self) -> (r: Self)
        ensures
            r@ == self@,
    {
        let stop_token_ids = self.stop_token_ids.clone();
        assert(stop_token_ids@ =~= self.stop_token_ids@);
        SamplingParams {
            temperature: self.temperature,
            top_p: self.top_p,
            max_tokens: self.max_tokens,
            stop_token_ids,
        }
    }
}

impl Default for SamplingParams {
    fn default() -> (r: Self)
        ensures
            r@ == SamplingState::initial(),
    {
        let r = SamplingParams {
            temperature: 0x3F33_3333,
            top_p: 0x3F73_3333,
            max_tokens: 512,
            stop_token_ids: vec![0u32, 1u32, 2u32],
        };
        assert(r.stop_token_ids@ =~= seq![0u32, 1u32, 2u32]);
        r
    }
}

/// A prompt to continue.
#[derive(Debug)]
pub struct SequenceRequest {
    pub request_id: u64,
    pub prompt_tokens: Vec<u32>,
    pub sampling_params: SamplingParams,
    pub arrival_time_ns: u64,
    pub priority: u8,
}

/// What a [`SequenceRequest`] says.
#[verifier::ext_equal]
pub struct RequestState {
    pub request_id: u64,
    pub prompt_tokens: Seq<u32>,
    pub sampling_params: SamplingState,
    pub arrival_time_ns: u64,
    pub priority: u8,
}

impl View for SequenceRequest {
    type V = RequestState;

    open spec fn view(&self) -> RequestState {
        RequestState {
            request_id: self.request_id,
            prompt_tokens: self.prompt_tokens@,
            sampling_params: self.sampling_params@,
            arrival_time_ns: self.arrival_time_ns,
            priority: self.priority,
        }
    }
}

impl Clone for SequenceRequest {
    fn clone(&self) -> (r: Self)
        ensures
            r@ == self@,
    {
        let prompt_tokens = self.prompt_tokens.clone();
        assert(prompt_tokens@ =~= self.prompt_tokens@);
        SequenceRequest {
            request_id: self.request_id,
            prompt_tokens,
            sampling_params: self.sampling_params.clone(),
            arrival_time_ns: self.arrival_time_ns,
            priority: self.priority,
        }
    }
}

impl SequenceRequest {
    /// This request for the prompt tokens `start..end` alone.
    pub fn chunk(&self, start: usize, end: usize) -> (r: Self)
        requires
            start <= end <= self@.prompt_tokens.len(),
        ensures
            r@ == (RequestState {
                prompt_tokens: self@.prompt_tokens.subrange(start as int, end as int),
                ..self@
            }),
    {
        let part = vstd::slice::slice_subrange(self.prompt_tokens.as_slice(), start, end);
        SequenceRequest {
            request_id: self.request_id,
            prompt_tokens: vstd::slice::slice_to_vec(part),
            sampling_params: self.sampling_params.clone(),
            arrival_time_ns: self.arrival_time_ns,
            priority: self.priority,
        }
    }
}

/// The work of one step.
#[derive(Debug)]
pub struct ScheduledBatch {
    pub prefill_requests: Vec<SequenceRequest>,
    pub decode_requests: Vec<u64>,
    pub block_tables: HashMap<u64, Vec<usize>>,
    pub step_id: u64,
}

/// What a [`ScheduledBatch`] says.
#[verifier::ext_equal]
pub struct BatchState {
    pub prefill_requests: Seq<RequestState>,
    pub decode_requests: Seq<u64>,
    pub block_tables: Map<u64, Seq<usize>>,
    pub step_id: u64,
}

/// The prompt tokens of all requests together.
pub open spec fn prompt_total(requests: Seq<RequestState>) -> nat
    decreases requests.len(),
{
    if requests.len() == 0 {
        0
    } else {
        prompt_total(requests.drop_last()) + requests.last().prompt_tokens.len()
    }
}

impl BatchState {
    pub open spec fn prefill_tokens(self) -> nat {
        prompt_total(self.prefill_requests)
    }

    pub open spec fn entries(self) -> nat {
        self.decode_requests.len() + self.prefill_requests.len()
    }

    pub open spec fn active_blocks(self) -> nat {
        total_len(self.block_tables)
    }

    /// The token, entry and block counts are `usize`s.
    pub open spec fn counts_fit(self) -> bool {
        &&& self.prefill_tokens() <= usize::MAX
        &&& self.entries() <= usize::MAX
        &&& self.active_blocks() <= usize::MAX
    }

    /// The metrics of a step that took `latency_us`.
    pub open spec fn metrics(self, latency_us: u64) -> StepMetrics {
        StepMetrics {
            prefill_tokens_processed: self.prefill_tokens() as usize,
            decode_tokens_emitted: self.entries() as usize,
            step_latency_us: latency_us,
            active_kv_blocks: self.active_blocks() as usize,
        }
    }
}

impl View for ScheduledBatch {
    type V = BatchState;

    open spec fn view(&self) -> BatchState {
        BatchState {
            prefill_requests: view_all(self.prefill_requests@),
            decode_requests: self.decode_requests@,
            block_tables: view_values(self.block_tables@),
            step_id: self.step_id,
        }
    }
}

/// Dropping requests from the end drops prompt tokens.
pub proof fn lemma_prompt_total_take(requests: Seq<RequestState>, n: int)
    requires
        0 <= n < requests.len(),
    ensures
        prompt_total(requests.take(n + 1)) == prompt_total(requests.take(n))
            + requests[n].prompt_tokens.len(),
        prompt_total(requests.take(n + 1)) <= prompt_total(requests),
    decreases requests.len() - n,
{
    assert(requests.take(n + 1).drop_last() =~= requests.take(n));
    if n + 1 < requests.len() {
        lemma_prompt_total_take(requests, n + 1);
    } else {
        assert(requests.take(n + 1) =~= requests);
    }
}

impl ScheduledBatch {
    /// The prompt tokens of all prefill requests together.
    pub fn prefill_token_count(&self) -> (r: usize)
        requires
            self@.prefill_tokens() <= usize::MAX,
        ensures
            r == self@.prefill_tokens(),
    {
        let ghost all = self@.prefill_requests;
        let mut n: usize = 0;
        let mut i: usize = 0;
        assert(all.take(0) =~= Seq::<RequestState>::empty());
        while i < self.prefill_requests.len()
            invariant
                i <= self.prefill_requests@.len(),
                all == view_all(self.prefill_requests@),
                n == prompt_total(all.take(i as int)),
                prompt_total(all) <= usize::MAX,
            decreases self.prefill_requests@.len() - i,
        {
            proof {
                lemma_prompt_total_take(all, i as int);
            }
            n = n + self.prefill_requests[i].prompt_tokens.len();
            i = i + 1;
        }
        assert(all.take(all.len() as int) =~= all);
        n
    }

    /// The metrics of a step that took `latency_us`.
    pub fn step_metrics(&self, latency_us: u64) -> (r: StepMetrics)
        requires
            self@.counts_fit(),
        ensures
            r == self@.metrics(latency_us),
    {
        StepMetrics {
            prefill_tokens_processed: self.prefill_token_count(),
            decode_tokens_emitted: self.decode_requests.len() + self.prefill_requests.len(),
            step_latency_us: latency_us,
            active_kv_blocks: crate::maps::count_all(&self.block_tables),
        }
    }
}

/// Why a sequence ended.
#[derive(Debug, Clone, Copy, PartialEq, Eq, Structural)]
pub enum FinishReason {
    StopToken,
    LengthLimit,
    Aborted,
    Preempted,
}

/// What a step gives for one sequence. `logprob` is bits of an `f32`.
#[derive(Debug, Clone, Copy, PartialEq, Eq)]
pub enum DecodeOutput {
    Token { request_id: u64, token_id: u32, logprob: Option<u32> },
    Finished { request_id: u64, reason: FinishReason, total_tokens: usize },
}

/// Counts and latency of one step.
#[derive(Debug, Clone, Copy, PartialEq, Eq, Structural)]
pub struct StepMetrics {
    pub prefill_tokens_processed: usize,
    pub decode_tokens_emitted: usize,
    pub step_latency_us: u64,
    pub active_kv_blocks: usize,
}

impl Default for StepMetrics {
    fn default() -> (r: Self)
        ensures
            r == (StepMetrics {
                prefill_tokens_processed: 0,
                decode_tokens_emitted: 0,
                step_latency_us: 0,
                active_kv_blocks: 0,
            }),
    {
        StepMetrics {
            prefill_tokens_processed: 0,
            decode_tokens_emitted: 0,
            step_latency_us: 0,
            active_kv_blocks: 0,
        }
    }
}

} // verus!
