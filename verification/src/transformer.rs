//! The native transformer backend: contexts, branches, generation and whole steps.
//!
//! The KV manager is handed in where the backend works with one. Identifiers of contexts
//! and branches are chosen by the caller.

use crate::abi::{
    AienUsageReceipt, BatchState, DecodeOutput, ModelState, RequestState, ScheduledBatch,
    StepMetrics,
};
use crate::agreement::{keeps_sizes, reads_counted_rows, row_by_row};
use crate::buffer::{HeapUnifiedBuffer, UnifiedBuffer};
use crate::decode::{decode_fits, decode_pass, forward_decode_batch};
use crate::forward::{
    compute_logits_impl, forward_token_impl, forward_token_impl_paged, held, hidden_of, logits_of,
    pass_fits, token_pass,
};
use crate::kv_laws::lemma_id_filter_take;
use crate::kv_manager::{heap_pool_attached, AienKvManager};
use crate::kv_state::KvState;
use crate::layout::{KvDType, KvPoolConfig};
use crate::maps::{lists, value_mut, view_all, view_values};
use crate::model::{holds_text, law_pass_reads_text, law_prefill_reads_text, logits_after};
use crate::platform::{BranchHandle, ContextHandle};
use crate::prefill::{prefill_fits, prefill_pass, prefill_prompt_layer_by_layer_paged};
use crate::tensor::{sample, sampled, TensorBackend};
use crate::text::{decimal, numbered, prefixed};
use crate::weights::{SequenceState, TokensState, TransformerWeights, WeightsState};
use crate::writing::{at_end_of, lemma_one_token_more};
use std::collections::HashMap;
use vstd::prelude::*;
use vstd::slice::slice_to_vec;

verus! {

broadcast use {
    vstd::std_specs::hash::group_hash_axioms,
    crate::maps::group_view_values,
    crate::maps::group_view_all,
};

// ---- Prefill ----
/// A sequence's state; that of an empty one where there is none.
pub open spec fn state_of(seqs: Map<u64, TokensState>, id: u64, num_layers: int) -> TokensState {
    if seqs.contains_key(id) {
        seqs[id]
    } else {
        TokensState::empty(num_layers)
    }
}

/// The KV cache after blocks were asked for.
pub open spec fn allocated(kv: Option<KvState>, id: u64, tokens: int) -> Option<KvState> {
    match kv {
        Some(s) => Some(s.allocate_or_keep(id, tokens)),
        None => None,
    }
}

/// The KV cache has no blocks for a new sequence.
pub open spec fn lacks_blocks(kv: Option<KvState>, id: u64, tokens: int) -> bool {
    kv is Some && !kv->0.tables.contains_key(id) && kv->0.free.len() < kv->0.blocks_needed(tokens)
}

/// Why blocks could not be had.
pub open spec fn lacking(kv: KvState, tokens: int) -> Seq<char> {
    "Insufficient blocks: need "@ + decimal(kv.blocks_needed(tokens) as nat) + ", have "@ + decimal(
        kv.free.len(),
    ) + ""@
}

/// Blocks for a prompt can be asked for, and then its pass finds what it needs.
pub open spec fn prompt_fits(
    w: WeightsState,
    prompt: Seq<u32>,
    id: u64,
    kv: Option<KvState>,
    seqs: Map<u64, TokensState>,
) -> bool {
    prompt.len() > 0 ==> {
        &&& kv is Some ==> kv->0.wf()
        &&& kv is Some ==> kv->0.tables.contains_key(id) || kv->0.allocate_fits(
            prompt.len() as int,
        )
        &&& !lacks_blocks(kv, id, prompt.len() as int) ==> prefill_fits(
            w,
            prompt,
            allocated(kv, id, prompt.len() as int),
            state_of(seqs, id, w.config.num_layers as int).layers.len() as int,
            id,
        )
        &&& w.config.hidden() <= usize::MAX
    }
}

/// The result of a prefill: its error, if it has one.
pub open spec fn prefill_error(
    prompt: Seq<u32>,
    id: u64,
    kv: Option<KvState>,
    when_empty: Seq<char>,
) -> Option<Seq<char>> {
    if prompt.len() == 0 {
        Some(when_empty)
    } else if lacks_blocks(kv, id, prompt.len() as int) {
        Some(lacking(kv->0, prompt.len() as int))
    } else {
        None
    }
}

// ---- Generation ----
/// What generated tokens are handed to. Its answer says whether it wants more.
///
/// The default of `heard` stands for no log in particular: an implementation that is to be
/// proved against the clauses gives its own.
pub trait TokenConsumer {
    /// The tokens that it was handed and its answers, oldest first.
    open spec fn heard(&self) -> Seq<(u32, bool)> {
        arbitrary()
    }

    fn on_token(&mut self, token: u32) -> (r: bool)
        ensures
            final(self).heard() == old(self).heard().push((token, r)),
    ;
}

/// A list takes every token and always wants more.
impl TokenConsumer for Vec<u32> {
    open spec fn heard(&self) -> Seq<(u32, bool)> {
        self@.map_values(|t: u32| (t, true))
    }

    fn on_token(&mut self, token: u32) -> (r: bool)
        ensures
            r,
            final(self)@ == old(self)@.push(token),
    {
        self.push(token);
        assert(self.heard() =~= old(self).heard().push((token, true)));
        true
    }
}

/// What generation works on.
#[verifier::ext_equal]
pub struct Generating {
    pub kv: Option<KvState>,
    pub seqs: Map<u64, TokensState>,
    /// The tokens handed over so far, with the answers.
    pub heard: Seq<(u32, bool)>,
}

/// How tokens are generated.
pub struct Sampling {
    pub id: u64,
    pub max_tokens: int,
    pub temperature: u32,
    pub stop: Seq<u32>,
}

/// The answers among what was heard.
pub open spec fn answers_of(heard: Seq<(u32, bool)>) -> Seq<bool> {
    heard.map_values(|h: (u32, bool)| h.1)
}

/// The token that follows in step `step`, and the states after its pass.
pub open spec fn next_token<T: TensorBackend>(
    b: T,
    w: WeightsState,
    how: Sampling,
    step: int,
    s: Generating,
) -> (u32, Generating) {
    let seq = s.seqs[how.id];
    let pass = token_pass(
        b,
        w,
        seq.last_token(),
        seq.position() as usize,
        how.id,
        s.kv,
        seq.layers,
    );
    let logits = logits_of(b, w, hidden_of(b, w, pass.x));
    (
        sampled(
            b,
            logits,
            how.temperature,
            ((how.id + step) % 0x1_0000_0000_0000_0000) as u64,
        ).0,
        Generating {
            kv: pass.kv,
            seqs: s.seqs.insert(how.id, TokensState { layers: pass.layers, ..seq }),
            ..s
        },
    )
}

/// The sequences with a token added to one of them, if it is there.
pub open spec fn with_token(seqs: Map<u64, TokensState>, id: u64, token: u32) -> Map<
    u64,
    TokensState,
> {
    if seqs.contains_key(id) {
        seqs.insert(id, seqs[id].with_token(token))
    } else {
        seqs
    }
}

/// The state after a token: it is dropped where it stops generation, else handed over, and
/// kept where the answer to it is to go on. The flag says whether generation goes on.
pub open spec fn take_token(how: Sampling, answers: Seq<bool>, token: u32, s: Generating) -> (
    Generating,
    bool,
) {
    if how.stop.contains(token) {
        (s, false)
    } else {
        let more = answers[s.heard.len() as int];
        (
            Generating {
                seqs: if more {
                    with_token(s.seqs, how.id, token)
                } else {
                    s.seqs
                },
                heard: s.heard.push((token, more)),
                ..s
            },
            more,
        )
    }
}

/// Generation from step `step` on, for the given answers.
pub open spec fn generate_from<T: TensorBackend>(
    b: T,
    w: WeightsState,
    how: Sampling,
    answers: Seq<bool>,
    step: int,
    s: Generating,
) -> Generating
    decreases how.max_tokens - step,
{
    if step >= how.max_tokens || !s.seqs.contains_key(how.id) {
        s
    } else {
        let (token, passed) = next_token(b, w, how, step, s);
        let (taken, more) = take_token(how, answers, token, passed);
        if more {
            generate_from(b, w, how, answers, step + 1, taken)
        } else {
            taken
        }
    }
}

/// Every pass of a generation finds what it needs, as far as it can go.
pub open spec fn generation_fits<T: TensorBackend>(
    b: T,
    w: WeightsState,
    how: Sampling,
    step: int,
    kv: Option<KvState>,
    seqs: Map<u64, TokensState>,
) -> bool
    decreases how.max_tokens - step,
{
    step >= how.max_tokens || !seqs.contains_key(how.id) || {
        &&& pass_fits(
            w,
            seqs[how.id].last_token(),
            kv,
            seqs[how.id].layers.len() as int,
            how.id,
        )
        &&& {
            let (token, passed) = next_token(
                b,
                w,
                how,
                step,
                Generating { kv, seqs, heard: Seq::empty() },
            );
            how.stop.contains(token) || generation_fits(
                b,
                w,
                how,
                step + 1,
                passed.kv,
                with_token(passed.seqs, how.id, token),
            )
        }
    }
}

/// The state after a sequence was let go of.
pub open spec fn let_go(id: u64, s: Generating) -> Generating {
    Generating {
        kv: match s.kv {
            Some(state) => Some(state.free_sequence(id)),
            None => None,
        },
        seqs: s.seqs.remove(id),
        ..s
    }
}

/// The state after the prompt was prefilled, and the first token.
pub open spec fn first_token<T: TensorBackend>(
    b: T,
    w: WeightsState,
    how: Sampling,
    prompt: Seq<u32>,
    s: Generating,
) -> (u32, Generating) {
    let done = prefill_pass(
        b,
        w,
        prompt,
        how.id,
        allocated(s.kv, how.id, prompt.len() as int),
        state_of(s.seqs, how.id, w.config.num_layers as int),
    );
    (
        sampled(b, logits_of(b, w, done.hidden), how.temperature, how.id).0,
        Generating { kv: done.kv, seqs: s.seqs.insert(how.id, done.seq), ..s },
    )
}

/// Generation from a prompt, for the given answers: the first token comes from the prefill,
/// the others from a pass each, and at the end the sequence is let go of.
pub open spec fn generate<T: TensorBackend>(
    b: T,
    w: WeightsState,
    how: Sampling,
    answers: Seq<bool>,
    prompt: Seq<u32>,
    s: Generating,
) -> Generating {
    let (token, passed) = first_token(b, w, how, prompt, s);
    let (taken, more) = take_token(how, answers, token, passed);
    let_go(
        how.id,
        if more {
            generate_from(b, w, how, answers, 1, taken)
        } else {
            taken
        },
    )
}

/// A generation finds what it needs from its prompt on.
pub open spec fn generate_fits<T: TensorBackend>(
    b: T,
    w: WeightsState,
    how: Sampling,
    prompt: Seq<u32>,
    kv: Option<KvState>,
    seqs: Map<u64, TokensState>,
) -> bool {
    &&& prompt_fits(w, prompt, how.id, kv, seqs)
    &&& prompt.len() > 0 && !lacks_blocks(kv, how.id, prompt.len() as int) ==> {
        let (token, passed) = first_token(
            b,
            w,
            how,
            prompt,
            Generating { kv, seqs, heard: Seq::empty() },
        );
        how.stop.contains(token) || generation_fits(
            b,
            w,
            how,
            1,
            passed.kv,
            with_token(passed.seqs, how.id, token),
        )
    }
}

// ---- Receipts ----
/// The page accounting of a sequence.
pub open spec fn receipt_of(kv: KvState, seq: u64) -> AienUsageReceipt {
    let t = kv.tables[seq];
    let shared = t.block_ids.filter(|b: usize| kv.blocks[b as int].is_shared).len();
    let private = (t.block_ids.len() - shared) as nat;
    let prefix = shared * kv.block_size;
    AienUsageReceipt {
        prefix_tokens: prefix as usize,
        private_tokens: if prefix >= t.total_tokens {
            0
        } else {
            (t.total_tokens - prefix) as usize
        },
        logical_pages: t.block_ids.len() as usize,
        physical_pages: kv.physical_pages() as usize,
        shared_pages: shared as usize,
        private_pages: private as usize,
        cow_faults: kv.cow_faults,
        physical_kv_bytes: (t.block_ids.len() * kv.block_bytes()) as usize,
        bytes_saved_vs_full_copy: (shared * kv.block_bytes()) as usize,
    }
}

/// The sizes in a receipt are `usize`s.
pub open spec fn receipt_fits(kv: KvState, seq: u64) -> bool {
    &&& kv.wf()
    &&& kv.logical_pages() <= usize::MAX
    &&& kv.bytes_saved() <= usize::MAX
    &&& kv.tables.contains_key(seq) ==> {
        &&& kv.tables[seq].block_ids.len() * kv.block_size <= usize::MAX
        &&& kv.tables[seq].block_ids.len() * kv.block_bytes() <= usize::MAX
    }
}

// ---- Steps ----
/// What a step's prefill works on.
#[verifier::ext_equal]
pub struct StepState {
    pub kv: Option<KvState>,
    pub seqs: Map<u64, TokensState>,
    pub outputs: Seq<DecodeOutput>,
}

/// The step after a prefill request: blocks are asked for unless it has some, and its first
/// token is sampled.
pub open spec fn step_prefill<T: TensorBackend>(
    b: T,
    w: WeightsState,
    request: RequestState,
    s: StepState,
) -> StepState {
    let id = request.request_id;
    let done = prefill_pass(
        b,
        w,
        request.prompt_tokens,
        id,
        allocated(s.kv, id, request.prompt_tokens.len() as int),
        state_of(s.seqs, id, w.config.num_layers as int),
    );
    let token = sampled(
        b,
        logits_of(b, w, done.hidden),
        request.sampling_params.temperature,
        id,
    );
    StepState {
        kv: done.kv,
        seqs: s.seqs.insert(id, done.seq.with_token(token.0)),
        outputs: s.outputs.push(
            DecodeOutput::Token { request_id: id, token_id: token.0, logprob: Some(token.1) },
        ),
    }
}

/// The step after all prefill requests, in order.
pub open spec fn step_prefills<T: TensorBackend>(
    b: T,
    w: WeightsState,
    requests: Seq<RequestState>,
    s: StepState,
) -> StepState
    decreases requests.len(),
{
    if requests.len() == 0 {
        s
    } else {
        step_prefills(
            b,
            w,
            requests.subrange(1, requests.len() as int),
            step_prefill(b, w, requests[0], s),
        )
    }
}

/// A whole step: the prefill requests one by one, then the decode requests together.
pub open spec fn whole_step<T: TensorBackend>(
    b: T,
    w: WeightsState,
    batch: BatchState,
    kv: Option<KvState>,
    seqs: Map<u64, TokensState>,
) -> StepState {
    let s = step_prefills(
        b,
        w,
        batch.prefill_requests,
        StepState { kv, seqs, outputs: Seq::empty() },
    );
    let done = decode_pass(b, w, batch.decode_requests, s.kv, s.seqs);
    StepState { kv: done.kv, seqs: done.seqs, outputs: s.outputs + done.outputs }
}

/// A prefill request of a step finds what it needs, also where it gets no blocks.
pub open spec fn request_fits(w: WeightsState, request: RequestState, s: StepState) -> bool {
    let id = request.request_id;
    let n = request.prompt_tokens.len() as int;
    &&& s.kv is Some ==> s.kv->0.wf()
    &&& s.kv is Some ==> s.kv->0.tables.contains_key(id) || s.kv->0.allocate_fits(n)
    &&& prefill_fits(
        w,
        request.prompt_tokens,
        allocated(s.kv, id, n),
        state_of(s.seqs, id, w.config.num_layers as int).layers.len() as int,
        id,
    )
}

/// All prefill requests of a step find what they need.
pub open spec fn requests_fit<T: TensorBackend>(
    b: T,
    w: WeightsState,
    requests: Seq<RequestState>,
    s: StepState,
) -> bool
    decreases requests.len(),
{
    requests.len() == 0 || {
        &&& request_fits(w, requests[0], s)
        &&& requests_fit(
            b,
            w,
            requests.subrange(1, requests.len() as int),
            step_prefill(b, w, requests[0], s),
        )
    }
}

/// A whole step finds what it needs.
pub open spec fn step_fits<T: TensorBackend>(
    b: T,
    w: WeightsState,
    batch: BatchState,
    kv: Option<KvState>,
    seqs: Map<u64, TokensState>,
) -> bool {
    let start = StepState { kv, seqs, outputs: Seq::empty() };
    let s = step_prefills(b, w, batch.prefill_requests, start);
    &&& w.config.hidden() <= usize::MAX
    &&& batch.counts_fit()
    &&& requests_fit(b, w, batch.prefill_requests, start)
    &&& decode_fits(w, batch.decode_requests, s.kv, s.seqs)
}

// ---- The backend ----
/// The shape of a KV pool for a model.
pub open spec fn pages_for(
    config: ModelState,
    total_blocks: usize,
    block_size: usize,
) -> KvPoolConfig {
    KvPoolConfig {
        num_blocks: total_blocks,
        block_size,
        num_layers: config.num_layers,
        num_kv_heads: config.num_kv_heads,
        head_dim: config.head_dim,
        dtype: KvDType::Fp32,
    }
}

/// Runs a transformer in process on the tensor operations of a backend.
pub struct NativeTransformerBackend<T: TensorBackend> {
    pub weights: TransformerWeights,
    pub sequences: HashMap<u64, SequenceState>,
    pub tensor_backend: T,
}

impl<T: TensorBackend> NativeTransformerBackend<T> {
    pub open spec fn seqs(self) -> Map<u64, TokensState> {
        view_values(self.sequences@)
    }

    pub fn with_backend(weights: TransformerWeights, tensor_backend: T) -> (r: Self)
        ensures
            r.weights == weights,
            r.tensor_backend == tensor_backend,
            r.seqs() == Map::<u64, TokensState>::empty(),
    {
        NativeTransformerBackend { weights, sequences: HashMap::new(), tensor_backend }
    }

    /// A backend, and a KV manager whose blocks and rows have the size that the model needs.
    pub fn with_paged_kv_backend(
        weights: TransformerWeights,
        tensor_backend: T,
        total_blocks: usize,
        block_size: usize,
    ) -> (r: Result<(Self, AienKvManager<HeapUnifiedBuffer>), String>)
        requires
            pages_for(weights@.config, total_blocks, block_size).strides_fit(),
        ensures
            ({
                let config = pages_for(weights@.config, total_blocks, block_size);
                let fresh = KvState::fresh(total_blocks, block_size);
                match r {
                    Ok((backend, mgr)) => {
                        &&& backend.weights == weights
                        &&& backend.tensor_backend == tensor_backend
                        &&& backend.seqs() == Map::<u64, TokensState>::empty()
                        &&& mgr@.wf()
                        &&& mgr@.counts_exact()
                        &&& heap_pool_attached(fresh, config, mgr@, Ok(()))
                        &&& mgr@.pool_covers_blocks()
                        &&& block_size > 0 ==> mgr@.takes_rows(
                            weights@.config.num_layers as int,
                            weights@.config.kv_dim(),
                        )
                    },
                    Err(e) => heap_pool_attached(fresh, config, fresh, Err(e)),
                }
            }),
    {
        let config = KvPoolConfig::for_model(
            total_blocks,
            block_size,
            weights.config.num_layers,
            weights.config.num_kv_heads,
            weights.config.head_dim,
            KvDType::Fp32,
        );
        match AienKvManager::new_with_pool(total_blocks, block_size, config) {
            Ok(mgr) => Ok((Self::with_backend(weights, tensor_backend), mgr)),
            Err(e) => Err(e),
        }
    }

    /// A TinyLlama backend from the weights that a checkpoint gave, with a KV manager of
    /// blocks of 16 tokens where blocks are asked for.
    pub fn load_tinyllama_safetensors(
        read: Result<TransformerWeights, String>,
        tensor_backend: T,
        total_blocks: Option<usize>,
    ) -> (r: Result<(Self, Option<AienKvManager<HeapUnifiedBuffer>>), String>)
        requires
            read is Ok && total_blocks is Some ==> pages_for(
                read->Ok_0@.config,
                total_blocks->0,
                16,
            ).strides_fit(),
        ensures
            match r {
                Ok((backend, mgr)) => {
                    &&& read == Ok::<TransformerWeights, String>(backend.weights)
                    &&& backend.tensor_backend == tensor_backend
                    &&& backend.seqs() == Map::<u64, TokensState>::empty()
                    &&& mgr is Some == total_blocks is Some
                    &&& mgr is Some ==> {
                        &&& (mgr->0)@.wf()
                        &&& (mgr->0)@.counts_exact()
                        &&& heap_pool_attached(
                            KvState::fresh(total_blocks->0, 16),
                            pages_for(backend.weights@.config, total_blocks->0, 16),
                            (mgr->0)@,
                            Ok(()),
                        )
                        &&& (mgr->0)@.pool_covers_blocks()
                        &&& (mgr->0)@.takes_rows(
                            backend.weights@.config.num_layers as int,
                            backend.weights@.config.kv_dim(),
                        )
                    }
                },
                Err(e) => match read {
                    Err(cause) => e@ == "Failed to load safetensors: "@ + cause@,
                    Ok(weights) => {
                        &&& total_blocks is Some
                        &&& heap_pool_attached(
                            KvState::fresh(total_blocks->0, 16),
                            pages_for(weights@.config, total_blocks->0, 16),
                            KvState::fresh(total_blocks->0, 16),
                            Err(e),
                        )
                    },
                },
            },
    {
        let weights = match read {
            Ok(weights) => weights,
            Err(cause) => {
                return Err(prefixed("Failed to load safetensors: ", cause.as_str()));
            },
        };
        match total_blocks {
            Some(blocks) => match Self::with_paged_kv_backend(weights, tensor_backend, blocks, 16) {
                Ok((backend, mgr)) => Ok((backend, Some(mgr))),
                Err(e) => Err(e),
            },
            None => Ok((Self::with_backend(weights, tensor_backend), None)),
        }
    }

    /// Takes other weights and forgets all sequences.
    pub fn load_weights(&mut self, weights: TransformerWeights)
        ensures
            final(self).weights == weights,
            final(self).tensor_backend == old(self).tensor_backend,
            final(self).seqs() == Map::<u64, TokensState>::empty(),
    {
        self.weights = weights;
        self.sequences = HashMap::new();
    }

    /// Prefills a prompt that has its blocks. The hidden state of its last token.
    fn run_prefill<B: UnifiedBuffer>(
        &mut self,
        seq_id: u64,
        prompt_tokens: &[u32],
        kv: Option<&mut AienKvManager<B>>,
    ) -> (r: Vec<u32>)
        requires
            prefill_fits(
                old(self).weights@,
                prompt_tokens@,
                held(kv),
                state_of(
                    old(self).seqs(),
                    seq_id,
                    old(self).weights@.config.num_layers as int,
                ).layers.len() as int,
                seq_id,
            ),
        ensures
            final(self).weights == old(self).weights,
            final(self).tensor_backend == old(self).tensor_backend,
            ({
                let done = prefill_pass(
                    old(self).tensor_backend,
                    old(self).weights@,
                    prompt_tokens@,
                    seq_id,
                    held(kv),
                    state_of(
                        old(self).seqs(),
                        seq_id,
                        old(self).weights@.config.num_layers as int,
                    ),
                );
                &&& r@ == done.hidden
                &&& final(self).seqs() == old(self).seqs().insert(seq_id, done.seq)
                &&& kv is Some ==> done.kv == Some(final(kv->0)@)
                &&& kv is None ==> done.kv is None
                &&& kv is Some && held(kv)->0.wf() ==> final(kv->0)@.wf()
                &&& kv is Some && held(kv)->0.alone(seq_id) ==> final(kv->0)@.extends(
                    held(kv)->0.without(seq_id),
                )
            }),
    {
        if !self.sequences.contains_key(&seq_id) {
            self.sequences.insert(seq_id, SequenceState::empty(self.weights.config.num_layers));
        }
        match value_mut(&mut self.sequences, seq_id) {
            Some(seq) => {
                let hidden = prefill_prompt_layer_by_layer_paged(
                    &self.weights,
                    &self.tensor_backend,
                    prompt_tokens,
                    seq,
                    seq_id,
                    kv,
                );
                assert(self.seqs() =~= old(self).seqs().insert(seq_id, self.seqs()[seq_id]));
                hidden
            },
            None => {
                assert(false);
                Vec::new()
            },
        }
    }

    /// Asks for blocks and prefills a prompt. The hidden state of its last token.
    fn prefill<B: UnifiedBuffer>(
        &mut self,
        seq_id: u64,
        prompt_tokens: &[u32],
        kv: Option<&mut AienKvManager<B>>,
    ) -> (r: Result<Vec<u32>, String>)
        requires
            prompt_tokens@.len() > 0,
            prompt_fits(old(self).weights@, prompt_tokens@, seq_id, held(kv), old(self).seqs()),
        ensures
            final(self).weights == old(self).weights,
            final(self).tensor_backend == old(self).tensor_backend,
            ({
                let n = prompt_tokens@.len() as int;
                let done = prefill_pass(
                    old(self).tensor_backend,
                    old(self).weights@,
                    prompt_tokens@,
                    seq_id,
                    allocated(held(kv), seq_id, n),
                    state_of(
                        old(self).seqs(),
                        seq_id,
                        old(self).weights@.config.num_layers as int,
                    ),
                );
                match r {
                    Ok(hidden) => {
                        &&& !lacks_blocks(held(kv), seq_id, n)
                        &&& hidden@ == done.hidden
                        &&& final(self).seqs() == old(self).seqs().insert(seq_id, done.seq)
                        &&& kv is Some ==> done.kv == Some(final(kv->0)@)
                        &&& kv is None ==> done.kv is None
                        &&& kv is Some && held(kv)->0.wf() ==> final(kv->0)@.wf()
                        &&& kv is Some && !held(kv)->0.tables.contains_key(seq_id)
                            ==> final(kv->0)@.extends(held(kv)->0)
                    },
                    Err(e) => {
                        &&& lacks_blocks(held(kv), seq_id, n)
                        &&& e@ == lacking(held(kv)->0, n)
                        &&& final(self).seqs() == old(self).seqs()
                        &&& kv is Some ==> final(kv->0)@ == held(kv)->0
                    },
                }
            }),
    {
        match kv {
            Some(m) => match m.allocate_sequence(seq_id, prompt_tokens) {
                Ok(_) => {
                    let ghost opened = m@;
                    let hidden = self.run_prefill(seq_id, prompt_tokens, Some(m));
                    proof {
                        let first = held(kv)->0;
                        if !first.tables.contains_key(seq_id) {
                            first.law_allocate_extends(seq_id, prompt_tokens@.len() as int);
                            final(kv->0)@.lemma_extends_twice(opened.without(seq_id), first);
                        }
                    }
                    Ok(hidden)
                },
                Err(e) => Err(e),
            },
            None => Ok(self.run_prefill::<B>(seq_id, prompt_tokens, None)),
        }
    }

    /// Prefills a prompt under an identifier. The logits of its last token. A new sequence
    /// leaves the rows of all others in the KV cache as they were.
    pub fn prefill_sequence<B: UnifiedBuffer>(
        &mut self,
        seq_id: u64,
        prompt_tokens: &[u32],
        kv: Option<&mut AienKvManager<B>>,
    ) -> (r: Result<Vec<u32>, String>)
        requires
            prompt_fits(old(self).weights@, prompt_tokens@, seq_id, held(kv), old(self).seqs()),
        ensures
            final(self).weights == old(self).weights,
            final(self).tensor_backend == old(self).tensor_backend,
            ({
                let error = prefill_error(
                    prompt_tokens@,
                    seq_id,
                    held(kv),
                    "Cannot prefill empty prompt"@,
                );
                let done = prefill_pass(
                    old(self).tensor_backend,
                    old(self).weights@,
                    prompt_tokens@,
                    seq_id,
                    allocated(held(kv), seq_id, prompt_tokens@.len() as int),
                    state_of(
                        old(self).seqs(),
                        seq_id,
                        old(self).weights@.config.num_layers as int,
                    ),
                );
                match r {
                    Ok(logits) => {
                        &&& error is None
                        &&& logits@ == logits_of(
                            old(self).tensor_backend,
                            old(self).weights@,
                            done.hidden,
                        )
                        &&& final(self).seqs() == old(self).seqs().insert(seq_id, done.seq)
                        &&& kv is Some ==> done.kv == Some(final(kv->0)@)
                        &&& kv is None ==> done.kv is None
                        &&& kv is Some && held(kv)->0.wf() ==> final(kv->0)@.wf()
                        &&& kv is Some && !held(kv)->0.tables.contains_key(seq_id)
                            ==> final(kv->0)@.extends(held(kv)->0)
                    },
                    Err(e) => {
                        &&& error == Some(e@)
                        &&& final(self).seqs() == old(self).seqs()
                        &&& kv is Some ==> final(kv->0)@ == held(kv)->0
                    },
                }
            }),
            kv is None && prompt_tokens@.len() > 0 && !old(self).seqs().contains_key(seq_id)
                && keeps_sizes(old(self).tensor_backend) && row_by_row(old(self).tensor_backend)
                && reads_counted_rows(old(self).tensor_backend) ==> {
                let b = old(self).tensor_backend;
                let w = old(self).weights@;
                &&& r is Ok
                &&& r->Ok_0@ == logits_after(b, w, prompt_tokens@)
                &&& final(self).seqs()[seq_id].tokens == prompt_tokens@
                &&& holds_text(
                    b,
                    w,
                    prompt_tokens@,
                    prompt_tokens@.len() as int,
                    final(self).seqs()[seq_id].layers,
                )
            },
    {
        if prompt_tokens.len() == 0 {
            return Err("Cannot prefill empty prompt".to_owned());
        }
        proof {
            let b = self.tensor_backend;
            let w = self.weights@;
            if kv is None && !self.seqs().contains_key(seq_id) && keeps_sizes(b) && row_by_row(b)
                && reads_counted_rows(b) {
                let fresh = TokensState::empty(w.config.num_layers as int);
                assert(w.takes_all(prompt_tokens@)) by {
                    if prompt_tokens@.len() == 1 {
                        assert(w.takes(prompt_tokens@[0]));
                    }
                }
                law_prefill_reads_text(b, w, prompt_tokens@, seq_id, fresh);
                assert(fresh.tokens + prompt_tokens@ =~= prompt_tokens@);
            }
        }
        match self.prefill(seq_id, prompt_tokens, kv) {
            Ok(hidden) => Ok(
                compute_logits_impl(&self.weights, &self.tensor_backend, hidden.as_slice()),
            ),
            Err(e) => Err(e),
        }
    }

    /// Makes a root context of a prompt, under the given identifier. A new sequence leaves
    /// the rows of all others in the KV cache as they were.
    pub fn create_context<B: UnifiedBuffer>(
        &mut self,
        prompt_tokens: &[u32],
        id: u64,
        kv: Option<&mut AienKvManager<B>>,
    ) -> (r: Result<ContextHandle, String>)
        requires
            prompt_fits(old(self).weights@, prompt_tokens@, id, held(kv), old(self).seqs()),
        ensures
            final(self).weights == old(self).weights,
            final(self).tensor_backend == old(self).tensor_backend,
            ({
                let error = prefill_error(
                    prompt_tokens@,
                    id,
                    held(kv),
                    "Cannot create context with empty prompt"@,
                );
                let done = prefill_pass(
                    old(self).tensor_backend,
                    old(self).weights@,
                    prompt_tokens@,
                    id,
                    allocated(held(kv), id, prompt_tokens@.len() as int),
                    state_of(
                        old(self).seqs(),
                        id,
                        old(self).weights@.config.num_layers as int,
                    ),
                );
                match r {
                    Ok(handle) => {
                        &&& error is None
                        &&& handle.0 == id
                        &&& final(self).seqs() == old(self).seqs().insert(id, done.seq)
                        &&& kv is Some ==> done.kv == Some(final(kv->0)@)
                        &&& kv is None ==> done.kv is None
                        &&& kv is Some && held(kv)->0.wf() ==> final(kv->0)@.wf()
                        &&& kv is Some && !held(kv)->0.tables.contains_key(id)
                            ==> final(kv->0)@.extends(held(kv)->0)
                    },
                    Err(e) => {
                        &&& error == Some(e@)
                        &&& final(self).seqs() == old(self).seqs()
                        &&& kv is Some ==> final(kv->0)@ == held(kv)->0
                    },
                }
            }),
    {
        if prompt_tokens.len() == 0 {
            return Err("Cannot create context with empty prompt".to_owned());
        }
        match self.prefill(id, prompt_tokens, kv) {
            Ok(_) => Ok(ContextHandle(id)),
            Err(e) => Err(e),
        }
    }

    /// Branches a context, under the given identifier. With a KV manager the branch shares
    /// the blocks of its parent; without one it gets a copy of the rows.
    pub fn fork_context<B: UnifiedBuffer>(
        &mut self,
        parent: ContextHandle,
        child_id: u64,
        kv: Option<&mut AienKvManager<B>>,
    ) -> (r: Result<BranchHandle, String>)
        requires
            kv is Some ==> held(kv)->0.wf() && held(kv)->0.fork_fits(parent.0),
        ensures
            final(self).weights == old(self).weights,
            final(self).tensor_backend == old(self).tensor_backend,
            ({
                let seqs = old(self).seqs();
                match r {
                    Ok(handle) => {
                        &&& seqs.contains_key(parent.0)
                        &&& handle.0 == child_id
                        &&& final(self).seqs() == seqs.insert(
                            child_id,
                            TokensState {
                                tokens: seqs[parent.0].tokens,
                                layers: if kv is Some {
                                    Seq::empty()
                                } else {
                                    seqs[parent.0].layers
                                },
                            },
                        )
                        &&& kv is Some ==> {
                            &&& held(kv)->0.tables.contains_key(parent.0)
                            &&& final(kv->0)@ == held(kv)->0.fork(parent.0, child_id)
                            &&& final(kv->0)@.wf()
                        }
                    },
                    Err(e) => {
                        &&& final(self).seqs() == seqs
                        &&& kv is Some ==> final(kv->0)@ == held(kv)->0
                        &&& if !seqs.contains_key(parent.0) {
                            e@ == "Parent context "@ + decimal(parent.0 as nat) + " not found"@
                        } else {
                            &&& kv is Some
                            &&& !held(kv)->0.tables.contains_key(parent.0)
                            &&& e@ == "Parent sequence "@ + decimal(parent.0 as nat)
                                + " not found"@
                        }
                    },
                }
            }),
            forall|text: Seq<u32>|
                kv is None && old(self).seqs().contains_key(parent.0) && #[trigger] at_end_of(
                    old(self).tensor_backend,
                    old(self).weights@,
                    text,
                    old(self).seqs()[parent.0],
                ) ==> at_end_of(
                    old(self).tensor_backend,
                    old(self).weights@,
                    text,
                    final(self).seqs()[child_id],
                ),
    {
        let ghost before = self.seqs();
        let child = match self.sequences.get(&parent.0) {
            Some(seq) => {
                if kv.is_some() {
                    SequenceState {
                        tokens: slice_to_vec(seq.tokens.as_slice()),
                        layers: Vec::new(),
                    }
                } else {
                    seq.clone()
                }
            },
            None => {
                return Err(numbered("Parent context ", parent.0, " not found"));
            },
        };
        match kv {
            Some(m) => match m.fork_context(parent.0, child_id) {
                Ok(_) => {},
                Err(e) => {
                    return Err(e);
                },
            },
            None => {},
        }
        self.sequences.insert(child_id, child);
        Ok(BranchHandle(child_id))
    }

    /// Lets go of a sequence and of its blocks.
    pub fn release_sequence<B: UnifiedBuffer>(
        &mut self,
        seq_id: u64,
        kv: Option<&mut AienKvManager<B>>,
    )
        requires
            kv is Some ==> held(kv)->0.wf(),
        ensures
            final(self).weights == old(self).weights,
            final(self).tensor_backend == old(self).tensor_backend,
            final(self).seqs() == old(self).seqs().remove(seq_id),
            kv is Some ==> final(kv->0)@ == held(kv)->0.free_sequence(seq_id),
            kv is Some ==> final(kv->0)@.wf(),
    {
        self.sequences.remove(&seq_id);
        match kv {
            Some(m) => {
                m.release_branch(seq_id);
            },
            None => {},
        }
    }

    /// Lets go of a branch.
    pub fn release_branch<B: UnifiedBuffer>(
        &mut self,
        branch: BranchHandle,
        kv: Option<&mut AienKvManager<B>>,
    ) -> (r: Result<(), String>)
        requires
            kv is Some ==> held(kv)->0.wf(),
        ensures
            r is Ok,
            final(self).weights == old(self).weights,
            final(self).tensor_backend == old(self).tensor_backend,
            final(self).seqs() == old(self).seqs().remove(branch.0),
            kv is Some ==> final(kv->0)@ == held(kv)->0.free_sequence(branch.0),
            kv is Some ==> final(kv->0)@.wf(),
    {
        self.release_sequence(branch.0, kv);
        Ok(())
    }

    /// The pass of a sequence's last token. The logits of the next.
    fn pass_last_token<B: UnifiedBuffer>(
        &mut self,
        seq_id: u64,
        kv: Option<&mut AienKvManager<B>>,
    ) -> (r: Vec<u32>)
        requires
            old(self).seqs().contains_key(seq_id),
            pass_fits(
                old(self).weights@,
                old(self).seqs()[seq_id].last_token(),
                held(kv),
                old(self).seqs()[seq_id].layers.len() as int,
                seq_id,
            ),
        ensures
            final(self).weights == old(self).weights,
            final(self).tensor_backend == old(self).tensor_backend,
            ({
                let seq = old(self).seqs()[seq_id];
                let pass = token_pass(
                    old(self).tensor_backend,
                    old(self).weights@,
                    seq.last_token(),
                    seq.position() as usize,
                    seq_id,
                    held(kv),
                    seq.layers,
                );
                &&& r@ == logits_of(
                    old(self).tensor_backend,
                    old(self).weights@,
                    hidden_of(old(self).tensor_backend, old(self).weights@, pass.x),
                )
                &&& final(self).seqs() == old(self).seqs().insert(
                    seq_id,
                    TokensState { layers: pass.layers, ..seq },
                )
                &&& kv is Some ==> pass.kv == Some(final(kv->0)@)
                &&& kv is None ==> pass.kv is None
                &&& kv is Some ==> final(kv->0)@.extends_only(held(kv)->0, seq![seq_id])
                &&& kv is Some && held(kv)->0.wf() ==> final(kv->0)@.wf()
            }),
    {
        let hidden = match value_mut(&mut self.sequences, seq_id) {
            Some(seq) => {
                let pos: usize = seq.position();
                let last: u32 = seq.last_token();
                forward_token_impl_paged(
                    &self.weights,
                    &self.tensor_backend,
                    last,
                    pos,
                    seq,
                    seq_id,
                    kv,
                )
            },
            None => {
                assert(false);
                Vec::new()
            },
        };
        compute_logits_impl(&self.weights, &self.tensor_backend, hidden.as_slice())
    }

    /// One decode step of a branch: its most likely next token, and the logits. The rows
    /// of all tokens before it stay as they were, and other branches get no token.
    pub fn decode_branch_step<B: UnifiedBuffer>(
        &mut self,
        branch: BranchHandle,
        kv: Option<&mut AienKvManager<B>>,
    ) -> (r: Result<(u32, Vec<u32>), String>)
        requires
            old(self).seqs().contains_key(branch.0) ==> pass_fits(
                old(self).weights@,
                old(self).seqs()[branch.0].last_token(),
                held(kv),
                old(self).seqs()[branch.0].layers.len() as int,
                branch.0,
            ),
        ensures
            final(self).weights == old(self).weights,
            final(self).tensor_backend == old(self).tensor_backend,
            ({
                let b = old(self).tensor_backend;
                let w = old(self).weights@;
                let seq = old(self).seqs()[branch.0];
                let pass = token_pass(
                    b,
                    w,
                    seq.last_token(),
                    seq.position() as usize,
                    branch.0,
                    held(kv),
                    seq.layers,
                );
                match r {
                    Ok((token, logits)) => {
                        &&& old(self).seqs().contains_key(branch.0)
                        &&& logits@ == logits_of(b, w, hidden_of(b, w, pass.x))
                        &&& token == b.greedy(logits@).0
                        &&& final(self).seqs() == old(self).seqs().insert(
                            branch.0,
                            TokensState { layers: pass.layers, ..seq }.with_token(token),
                        )
                        &&& kv is Some ==> pass.kv == Some(final(kv->0)@)
                        &&& kv is None ==> pass.kv is None
                        &&& kv is Some ==> final(kv->0)@.extends_only(held(kv)->0, seq![branch.0])
                        &&& kv is Some && held(kv)->0.wf() ==> final(kv->0)@.wf()
                    },
                    Err(e) => {
                        &&& !old(self).seqs().contains_key(branch.0)
                        &&& e@ == "Branch "@ + decimal(branch.0 as nat) + " not found"@
                        &&& final(self).seqs() == old(self).seqs()
                        &&& kv is Some ==> final(kv->0)@ == held(kv)->0
                    },
                }
            }),
            forall|text: Seq<u32>|
                kv is None && old(self).seqs().contains_key(branch.0) && text.len() <= usize::MAX
                    && #[trigger] at_end_of(
                    old(self).tensor_backend,
                    old(self).weights@,
                    text,
                    old(self).seqs()[branch.0],
                ) ==> {
                    let b = old(self).tensor_backend;
                    let w = old(self).weights@;
                    let token = b.greedy(logits_after(b, w, text)).0;
                    &&& r is Ok
                    &&& r->Ok_0.0 == token
                    &&& r->Ok_0.1@ == logits_after(b, w, text)
                    &&& at_end_of(b, w, text.push(token), final(self).seqs()[branch.0])
                },
    {
        if !self.sequences.contains_key(&branch.0) {
            return Err(numbered("Branch ", branch.0, " not found"));
        }
        let logits = self.pass_last_token(branch.0, kv);
        let (token, _) = self.tensor_backend.sample_argmax(logits.as_slice());
        self.push_token(branch.0, token);
        proof {
            let b = old(self).tensor_backend;
            let w = old(self).weights@;
            let seq = old(self).seqs()[branch.0];
            assert forall|text: Seq<u32>|
                kv is None && text.len() <= usize::MAX && #[trigger] at_end_of(
                    b,
                    w,
                    text,
                    seq,
                ) implies {
                &&& logits@ == logits_after(b, w, text)
                &&& at_end_of(b, w, text.push(token), self.seqs()[branch.0])
            } by {
                law_pass_reads_text(b, w, text, text.len() - 1, branch.0, None, seq.layers);
                lemma_one_token_more(b, w, text, token, self.seqs()[branch.0].layers);
            }
        }
        Ok((token, logits))
    }

    /// Adds a token to a sequence, if it is there.
    fn push_token(&mut self, seq_id: u64, token: u32)
        ensures
            final(self).weights == old(self).weights,
            final(self).tensor_backend == old(self).tensor_backend,
            final(self).seqs() == if old(self).seqs().contains_key(seq_id) {
                old(self).seqs().insert(seq_id, old(self).seqs()[seq_id].with_token(token))
            } else {
                old(self).seqs()
            },
    {
        match value_mut(&mut self.sequences, seq_id) {
            Some(seq) => {
                seq.tokens.push(token);
            },
            None => {},
        }
    }

    /// Generates tokens from a prompt and hands each to the consumer, until a stop token,
    /// the limit, or an answer to stop. The sequence is then let go of. A new sequence leaves
    /// the rows of all others in the KV cache as they were.
    pub fn generate_tokens_streaming<C: TokenConsumer, B: UnifiedBuffer>(
        &mut self,
        seq_id: u64,
        prompt_tokens: &[u32],
        max_tokens: usize,
        temperature: u32,
        stop_tokens: &[u32],
        consumer: &mut C,
        kv: Option<&mut AienKvManager<B>>,
    ) -> (r: Result<(), String>)
        requires
            generate_fits(
                old(self).tensor_backend,
                old(self).weights@,
                (Sampling {
                    id: seq_id,
                    max_tokens: max_tokens as int,
                    temperature,
                    stop: stop_tokens@,
                }),
                prompt_tokens@,
                held(kv),
                old(self).seqs(),
            ),
        ensures
            final(self).weights == old(self).weights,
            final(self).tensor_backend == old(self).tensor_backend,
            ({
                let error = prefill_error(
                    prompt_tokens@,
                    seq_id,
                    held(kv),
                    "Cannot generate from empty prompt"@,
                );
                let base = old(consumer).heard();
                let heard = final(consumer).heard().skip(base.len() as int);
                let done = generate(
                    old(self).tensor_backend,
                    old(self).weights@,
                    (Sampling {
                        id: seq_id,
                        max_tokens: max_tokens as int,
                        temperature,
                        stop: stop_tokens@,
                    }),
                    answers_of(heard),
                    prompt_tokens@,
                    (Generating {
                        kv: held(kv),
                        seqs: old(self).seqs(),
                        heard: Seq::empty(),
                    }),
                );
                match r {
                    Ok(_) => {
                        &&& error is None
                        &&& final(consumer).heard() == base + done.heard
                        &&& final(self).seqs() == done.seqs
                        &&& kv is Some ==> done.kv == Some(final(kv->0)@)
                        &&& kv is None ==> done.kv is None
                        &&& kv is Some && held(kv)->0.wf() ==> final(kv->0)@.wf()
                        &&& kv is Some && !held(kv)->0.tables.contains_key(seq_id)
                            ==> final(kv->0)@.extends(held(kv)->0)
                    },
                    Err(e) => {
                        &&& error == Some(e@)
                        &&& final(consumer).heard() == base
                        &&& final(self).seqs() == old(self).seqs()
                        &&& kv is Some ==> final(kv->0)@ == held(kv)->0
                    },
                }
            }),
    {
        if prompt_tokens.len() == 0 {
            return Err("Cannot generate from empty prompt".to_owned());
        }
        let ghost b = self.tensor_backend;
        let ghost w = self.weights@;
        let ghost how = Sampling {
            id: seq_id,
            max_tokens: max_tokens as int,
            temperature,
            stop: stop_tokens@,
        };
        let ghost start = Generating { kv: held(kv), seqs: self.seqs(), heard: Seq::empty() };
        let ghost base = consumer.heard();
        let ghost prompt = prompt_tokens@;
        let mut mgr = kv;
        let lent: Option<&mut AienKvManager<B>> = match &mut mgr {
            Some(m) => Some(&mut **m),
            None => None,
        };
        let logits = match self.prefill_sequence(seq_id, prompt_tokens, lent) {
            Ok(l) => l,
            Err(e) => {
                return Err(e);
            },
        };
        let (token, _) = sample(&self.tensor_backend, logits.as_slice(), temperature, seq_id);
        let ghost mut heard: Seq<(u32, bool)> = Seq::empty();
        let ghost passed = first_token(b, w, how, prompt, start).1;
        assert((Generating { kv: held(mgr), seqs: self.seqs(), heard }) =~= passed);
        let mut going: bool = false;
        if !lists(stop_tokens, token) {
            going = consumer.on_token(token);
            proof {
                heard = heard.push((token, going));
            }
            if going {
                self.push_token(seq_id, token);
            }
            assert(self.seqs() == if going {
                with_token(passed.seqs, seq_id, token)
            } else {
                passed.seqs
            });
        }
        assert forall|a: Seq<bool>| #[trigger] agrees(a, heard) implies generate(
            b,
            w,
            how,
            a,
            prompt,
            start,
        ) == let_go(
            seq_id,
            if going {
                generate_from(
                    b,
                    w,
                    how,
                    a,
                    1,
                    Generating { kv: held(mgr), seqs: self.seqs(), heard },
                )
            } else {
                Generating { kv: held(mgr), seqs: self.seqs(), heard }
            },
        ) by {
            let (taken, more) = take_token(how, a, token, passed);
            if !how.stop.contains(token) {
                assert(a[0] == heard[0].1);
            }
            assert(taken =~= (Generating { kv: held(mgr), seqs: self.seqs(), heard }));
        }
        let mut step: usize = 1;
        while going && step < max_tokens
            invariant
                step >= 1,
                self.tensor_backend == b,
                self.weights@ == w,
                self.weights == old(self).weights,
                how == (Sampling {
                    id: seq_id,
                    max_tokens: max_tokens as int,
                    temperature,
                    stop: stop_tokens@,
                }),
                kv is Some == mgr is Some,
                mgr is Some ==> *final(mgr->0) == *final(kv->0),
                consumer.heard() == base + heard,
                w.config.hidden() <= usize::MAX,
                going ==> generation_fits(b, w, how, step as int, held(mgr), self.seqs()),
                held(mgr) is Some ==> held(mgr)->0.wf(),
                kv is Some && !start.kv->0.tables.contains_key(seq_id) ==> held(mgr)->0.extends(
                    start.kv->0,
                ),
                forall|a: Seq<bool>| #[trigger]
                    agrees(a, heard) ==> generate(b, w, how, a, prompt, start) == let_go(
                        seq_id,
                        if going {
                            generate_from(
                                b,
                                w,
                                how,
                                a,
                                step as int,
                                Generating { kv: held(mgr), seqs: self.seqs(), heard },
                            )
                        } else {
                            Generating { kv: held(mgr), seqs: self.seqs(), heard }
                        },
                    ),
            decreases
                max_tokens - step,
                if going {
                    1int
                } else {
                    0
                },
        {
            let ghost here = Generating { kv: held(mgr), seqs: self.seqs(), heard };
            if !self.sequences.contains_key(&seq_id) {
                going = false;
            } else {
                let ghost (token, passed) = next_token(b, w, how, step as int, here);
                let lent: Option<&mut AienKvManager<B>> = match &mut mgr {
                    Some(m) => Some(&mut **m),
                    None => None,
                };
                let logits = self.pass_last_token(seq_id, lent);
                let seed: u64 = seq_id.wrapping_add(step as u64);
                proof {
                    if kv is Some && !start.kv->0.tables.contains_key(seq_id) {
                        held(mgr)->0.lemma_extends_twice(here.kv->0, start.kv->0);
                    }
                }
                assert(seed == ((how.id + step) % 0x1_0000_0000_0000_0000) as u64);
                let (next, _) = sample(
                    &self.tensor_backend,
                    logits.as_slice(),
                    temperature,
                    seed,
                );
                assert(next == token);
                assert((Generating { kv: held(mgr), seqs: self.seqs(), heard }) =~= passed);
                assert(next_token(
                    b,
                    w,
                    how,
                    step as int,
                    Generating { kv: here.kv, seqs: here.seqs, heard: Seq::empty() },
                ).0 == token);
                if lists(stop_tokens, next) {
                    going = false;
                } else {
                    going = consumer.on_token(next);
                    proof {
                        heard = heard.push((next, going));
                    }
                    if going {
                        self.push_token(seq_id, next);
                    }
                }
                proof {
                    assert forall|a: Seq<bool>| #[trigger] agrees(a, heard) implies generate(
                        b,
                        w,
                        how,
                        a,
                        prompt,
                        start,
                    ) == let_go(
                        seq_id,
                        if going {
                            generate_from(
                                b,
                                w,
                                how,
                                a,
                                step + 1,
                                Generating { kv: held(mgr), seqs: self.seqs(), heard },
                            )
                        } else {
                            Generating { kv: held(mgr), seqs: self.seqs(), heard }
                        },
                    ) by {
                        assert forall|i: int| 0 <= i < here.heard.len() implies a[i] == (
                        #[trigger] here.heard[i]).1 by {
                            assert(heard[i] == here.heard[i]);
                        }
                        assert(agrees(a, here.heard));
                        if !how.stop.contains(token) {
                            assert(a[here.heard.len() as int] == heard.last().1);
                        }
                        let (taken, more) = take_token(how, a, token, passed);
                        assert(taken =~= (Generating {
                            kv: held(mgr),
                            seqs: self.seqs(),
                            heard,
                        }));
                    }
                }
                step = step + 1;
            }
        }
        let ghost done = Generating { kv: held(mgr), seqs: self.seqs(), heard };
        proof {
            assert(consumer.heard().skip(base.len() as int) =~= heard);
            assert(agrees(answers_of(heard), heard));
            if kv is Some && !start.kv->0.tables.contains_key(seq_id) {
                held(mgr)->0.lemma_free_extends(seq_id, start.kv->0);
            }
        }
        self.release_sequence(seq_id, mgr);
        Ok(())
    }

    /// Generates tokens from a prompt.
    pub fn generate_tokens<B: UnifiedBuffer>(
        &mut self,
        seq_id: u64,
        prompt_tokens: &[u32],
        max_tokens: usize,
        temperature: u32,
        stop_tokens: &[u32],
        kv: Option<&mut AienKvManager<B>>,
    ) -> (r: Result<Vec<u32>, String>)
        requires
            generate_fits(
                old(self).tensor_backend,
                old(self).weights@,
                (Sampling {
                    id: seq_id,
                    max_tokens: max_tokens as int,
                    temperature,
                    stop: stop_tokens@,
                }),
                prompt_tokens@,
                held(kv),
                old(self).seqs(),
            ),
        ensures
            final(self).weights == old(self).weights,
            final(self).tensor_backend == old(self).tensor_backend,
            ({
                let error = prefill_error(
                    prompt_tokens@,
                    seq_id,
                    held(kv),
                    "Cannot generate from empty prompt"@,
                );
                match r {
                    Ok(tokens) => {
                        let done = generate(
                            old(self).tensor_backend,
                            old(self).weights@,
                            (Sampling {
                                id: seq_id,
                                max_tokens: max_tokens as int,
                                temperature,
                                stop: stop_tokens@,
                            }),
                            Seq::new(tokens@.len(), |i: int| true),
                            prompt_tokens@,
                            (Generating {
                                kv: held(kv),
                                seqs: old(self).seqs(),
                                heard: Seq::empty(),
                            }),
                        );
                        &&& error is None
                        &&& done.heard == tokens@.map_values(|t: u32| (t, true))
                        &&& final(self).seqs() == done.seqs
                        &&& kv is Some ==> done.kv == Some(final(kv->0)@)
                        &&& kv is None ==> done.kv is None
                        &&& kv is Some && held(kv)->0.wf() ==> final(kv->0)@.wf()
                        &&& kv is Some && !held(kv)->0.tables.contains_key(seq_id)
                            ==> final(kv->0)@.extends(held(kv)->0)
                    },
                    Err(e) => {
                        &&& error == Some(e@)
                        &&& final(self).seqs() == old(self).seqs()
                        &&& kv is Some ==> final(kv->0)@ == held(kv)->0
                    },
                }
            }),
    {
        let mut generated: Vec<u32> = Vec::new();
        let r = self.generate_tokens_streaming(
            seq_id,
            prompt_tokens,
            max_tokens,
            temperature,
            stop_tokens,
            &mut generated,
            kv,
        );
        proof {
            assert(generated.heard().skip(0) =~= generated.heard());
            assert(answers_of(generated.heard()) =~= Seq::new(
                generated@.len(),
                |i: int| true,
            ));
        }
        match r {
            Ok(_) => Ok(generated),
            Err(e) => Err(e),
        }
    }

    /// The page accounting of a branch.
    pub fn get_usage_receipt<B: UnifiedBuffer>(
        &self,
        branch: BranchHandle,
        kv: Option<&AienKvManager<B>>,
    ) -> (r: Result<AienUsageReceipt, String>)
        requires
            kv is Some ==> receipt_fits(kv->0@, branch.0),
        ensures
            match r {
                Ok(receipt) => {
                    &&& kv is Some
                    &&& kv->0@.tables.contains_key(branch.0)
                    &&& receipt == receipt_of(kv->0@, branch.0)
                },
                Err(e) => if kv is None {
                    e@ == "KV manager not initialized on backend"@
                } else {
                    &&& !kv->0@.tables.contains_key(branch.0)
                    &&& e@ == "Branch "@ + decimal(branch.0 as nat) + " not found in KV cache"@
                },
            },
    {
        match kv {
            Some(m) => usage_receipt(m, branch),
            None => Err("KV manager not initialized on backend".to_owned()),
        }
    }

    /// The pass of one token that keeps its rows itself.
    pub fn forward_token(&self, token_id: u32, pos: usize, seq_state: &mut SequenceState) -> (r:
        Vec<u32>)
        requires
            self.weights@.takes(token_id),
            old(seq_state)@.layers.len() >= self.weights@.layers.len(),
        ensures
            ({
                let pass = token_pass(
                    self.tensor_backend,
                    self.weights@,
                    token_id,
                    pos,
                    0,
                    None,
                    old(seq_state)@.layers,
                );
                &&& r@ == hidden_of(self.tensor_backend, self.weights@, pass.x)
                &&& final(seq_state)@ == (TokensState { layers: pass.layers, ..old(seq_state)@ })
                &&& r@.len() == self.weights@.config.hidden()
            }),
    {
        forward_token_impl(&self.weights, &self.tensor_backend, token_id, pos, seq_state)
    }

    /// The logits of a hidden state.
    pub fn compute_logits(&self, hidden_state: &[u32]) -> (r: Vec<u32>)
        requires
            self.weights@.config.hidden() <= usize::MAX,
        ensures
            r@ == logits_of(self.tensor_backend, self.weights@, hidden_state@),
            r@.len() == self.weights@.config.vocab(),
    {
        compute_logits_impl(&self.weights, &self.tensor_backend, hidden_state)
    }

    /// One decode step of the listed sequences, together. The rows of all tokens before it
    /// stay as they were, and sequences that are not listed get no token.
    pub fn forward_decode_batch<B: UnifiedBuffer>(
        &mut self,
        ids: &[u64],
        kv: Option<&mut AienKvManager<B>>,
    ) -> (r: Vec<DecodeOutput>)
        requires
            decode_fits(old(self).weights@, ids@, held(kv), old(self).seqs()),
        ensures
            final(self).weights == old(self).weights,
            final(self).tensor_backend == old(self).tensor_backend,
            ({
                let done = decode_pass(
                    old(self).tensor_backend,
                    old(self).weights@,
                    ids@,
                    held(kv),
                    old(self).seqs(),
                );
                &&& r@ == done.outputs
                &&& final(self).seqs() == done.seqs
                &&& kv is Some ==> done.kv == Some(final(kv->0)@)
                &&& kv is None ==> done.kv is None
                &&& kv is Some ==> final(kv->0)@.extends_only(held(kv)->0, ids@)
                &&& kv is Some && held(kv)->0.wf() ==> final(kv->0)@.wf()
            }),
    {
        forward_decode_batch(&self.weights, &self.tensor_backend, &mut self.sequences, kv, ids)
    }

    /// Executes a batch: the prefill requests one by one, then the decode requests together.
    pub fn execute_step<B: UnifiedBuffer>(
        &mut self,
        batch: &ScheduledBatch,
        elapsed_us: u64,
        kv: Option<&mut AienKvManager<B>>,
    ) -> (r: Result<(Vec<DecodeOutput>, StepMetrics), String>)
        requires
            step_fits(
                old(self).tensor_backend,
                old(self).weights@,
                batch@,
                held(kv),
                old(self).seqs(),
            ),
        ensures
            final(self).weights == old(self).weights,
            final(self).tensor_backend == old(self).tensor_backend,
            r is Ok,
            r->Ok_0.1 == batch@.metrics(elapsed_us),
            ({
                let done = whole_step(
                    old(self).tensor_backend,
                    old(self).weights@,
                    batch@,
                    held(kv),
                    old(self).seqs(),
                );
                &&& r->Ok_0.0@ == done.outputs
                &&& final(self).seqs() == done.seqs
                &&& kv is Some ==> done.kv == Some(final(kv->0)@)
                &&& kv is None ==> done.kv is None
                &&& kv is Some && held(kv)->0.wf() ==> final(kv->0)@.wf()
            }),
    {
        let ghost b = self.tensor_backend;
        let ghost w = self.weights@;
        let ghost requests = batch@.prefill_requests;
        let ghost start = StepState { kv: held(kv), seqs: self.seqs(), outputs: Seq::empty() };
        let ghost sound = kv is Some && held(kv)->0.wf();
        let mut mgr = kv;
        let mut outputs: Vec<DecodeOutput> = Vec::new();
        let mut i: usize = 0;
        assert(requests.subrange(0, requests.len() as int) =~= requests);
        while i < batch.prefill_requests.len()
            invariant
                i <= requests.len(),
                requests == view_all(batch.prefill_requests@),
                self.tensor_backend == b,
                self.weights@ == w,
                self.weights == old(self).weights,
                w.config.hidden() <= usize::MAX,
                kv is Some == mgr is Some,
                mgr is Some ==> *final(mgr->0) == *final(kv->0),
                mgr is Some && sound ==> held(mgr)->0.wf(),
                requests_fit(
                    b,
                    w,
                    requests.subrange(i as int, requests.len() as int),
                    StepState { kv: held(mgr), seqs: self.seqs(), outputs: outputs@ },
                ),
                step_prefills(
                    b,
                    w,
                    requests.subrange(i as int, requests.len() as int),
                    StepState { kv: held(mgr), seqs: self.seqs(), outputs: outputs@ },
                ) == step_prefills(b, w, requests, start),
            decreases requests.len() - i,
        {
            let ghost rest = requests.subrange(i as int, requests.len() as int);
            let ghost here = StepState {
                kv: held(mgr),
                seqs: self.seqs(),
                outputs: outputs@,
            };
            let req = &batch.prefill_requests[i];
            proof {
                assert(rest[0] == req@);
                assert(rest.subrange(1, rest.len() as int) =~= requests.subrange(
                    i + 1,
                    requests.len() as int,
                ));
            }
            match &mut mgr {
                Some(m) => {
                    let _ = m.allocate_sequence(
                        req.request_id,
                        req.prompt_tokens.as_slice(),
                    );
                },
                None => {},
            }
            assert(held(mgr) == allocated(
                here.kv,
                req@.request_id,
                req@.prompt_tokens.len() as int,
            ));
            let lent: Option<&mut AienKvManager<B>> = match &mut mgr {
                Some(m) => Some(&mut **m),
                None => None,
            };
            let hidden = self.run_prefill(req.request_id, req.prompt_tokens.as_slice(), lent);
            let logits = compute_logits_impl(
                &self.weights,
                &self.tensor_backend,
                hidden.as_slice(),
            );
            let (token, logprob) = sample(
                &self.tensor_backend,
                logits.as_slice(),
                req.sampling_params.temperature,
                req.request_id,
            );
            self.push_token(req.request_id, token);
            outputs.push(
                DecodeOutput::Token {
                    request_id: req.request_id,
                    token_id: token,
                    logprob: Some(logprob),
                },
            );
            assert((StepState { kv: held(mgr), seqs: self.seqs(), outputs: outputs@ })
                =~= step_prefill(b, w, req@, here));
            i = i + 1;
        }
        let mut more = self.forward_decode_batch(batch.decode_requests.as_slice(), mgr);
        outputs.append(&mut more);
        Ok((outputs, batch.step_metrics(elapsed_us)))
    }
}

/// Given answers start with those that were heard.
spec fn agrees(answers: Seq<bool>, heard: Seq<(u32, bool)>) -> bool {
    &&& answers.len() >= heard.len()
    &&& forall|i: int| 0 <= i < heard.len() ==> answers[i] == (#[trigger] heard[i]).1
}

/// The page accounting of a branch.
fn usage_receipt<B: UnifiedBuffer>(kv: &AienKvManager<B>, branch: BranchHandle) -> (r: Result<
    AienUsageReceipt,
    String,
>)
    requires
        receipt_fits(kv@, branch.0),
    ensures
        match r {
            Ok(receipt) => kv@.tables.contains_key(branch.0) && receipt == receipt_of(
                kv@,
                branch.0,
            ),
            Err(e) => !kv@.tables.contains_key(branch.0) && e@ == "Branch "@ + decimal(
                branch.0 as nat,
            ) + " not found in KV cache"@,
        },
{
    let table = match kv.get_block_table(branch.0) {
        Some(t) => t,
        None => {
            return Err(numbered("Branch ", branch.0, " not found in KV cache"));
        },
    };
    let ghost ids = table.block_ids@;
    let ghost pred = |b: usize| kv@.blocks[b as int].is_shared;
    let n: usize = table.block_ids.len();
    let mut shared: usize = 0;
    let mut private: usize = 0;
    let mut i: usize = 0;
    proof {
        assert(kv@.table_wf(branch.0, kv@.tables[branch.0]));
        reveal(Seq::filter);
        assert(ids.take(0).filter(pred) =~= Seq::<usize>::empty());
    }
    while i < n
        invariant
            i <= n,
            n == ids.len(),
            ids == table.block_ids@,
            kv@.wf(),
            kv@.table_wf(branch.0, kv@.tables[branch.0]),
            ids == kv@.tables[branch.0].block_ids,
            pred == (|b: usize| kv@.blocks[b as int].is_shared),
            shared == ids.take(i as int).filter(pred).len(),
            shared + private == i,
        decreases n - i,
    {
        proof {
            lemma_id_filter_take(ids, i as int, pred);
            assert(kv@.tables[branch.0].block_ids[i as int] < kv@.total_blocks);
        }
        match kv.get_block(table.block_ids[i]) {
            Some(block) => {
                if block.is_shared {
                    shared = shared + 1;
                } else {
                    private = private + 1;
                }
            },
            None => {
                assert(false);
            },
        }
        i = i + 1;
    }
    assert(ids.take(n as int) =~= ids);
    let metrics = kv.metrics();
    let bytes: usize = match kv.tensor_pool() {
        Some(p) => p.block_bytes(),
        None => 0,
    };
    let block_size: usize = kv.block_size();
    proof {
        assert(0 <= shared * block_size <= n * block_size && 0 <= shared * bytes <= n * bytes)
            by (nonlinear_arith)
            requires
                0 <= shared <= n,
                0 <= block_size,
                0 <= bytes,
        ;
    }
    let prefix: usize = shared * block_size;
    Ok(
        AienUsageReceipt {
            prefix_tokens: prefix,
            private_tokens: if prefix >= table.total_tokens {
                0
            } else {
                table.total_tokens - prefix
            },
            logical_pages: n,
            physical_pages: metrics.physical_pages,
            shared_pages: shared,
            private_pages: private,
            cow_faults: metrics.cow_faults,
            physical_kv_bytes: (shared + private) * bytes,
            bytes_saved_vs_full_copy: shared * bytes,
        },
    )
}

} // verus!
