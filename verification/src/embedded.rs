//! The native backend behind a text interface.
//!
//! Text is encoded and decoded by the caller's tokenizer. What it gave back is handed in.

use crate::abi::{DecodeOutput, ModelConfig, ScheduledBatch, StepMetrics};
use crate::buffer::UnifiedBuffer;
use crate::forward::held;
use crate::kv_manager::AienKvManager;
use crate::tensor::TensorBackend;
use crate::text::prefixed;
use crate::transformer::{
    answers_of, generate, generate_fits, prefill_error, step_fits, whole_step, Generating,
    NativeTransformerBackend, Sampling, TokenConsumer,
};
use crate::weights::{TokensState, TransformerWeights};
use vstd::prelude::*;

verus! {

/// Why there are no prompt tokens, if there are none: no tokenizer, or one that failed.
pub open spec fn encoding_error(encoded: Option<Result<Vec<u32>, String>>) -> Option<Seq<char>> {
    match encoded {
        None => Some("Tokenizer not initialized on EmbeddedInferenceBackend"@),
        Some(Err(e)) => Some("Tokenization failed: "@ + e@),
        Some(Ok(_)) => None,
    }
}

/// The tokens of a prompt.
pub fn prompt_ids(encoded: Option<Result<Vec<u32>, String>>) -> (r: Result<Vec<u32>, String>)
    ensures
        match r {
            Ok(ids) => encoded == Some(Ok::<Vec<u32>, String>(ids)),
            Err(e) => encoding_error(encoded) == Some(e@),
        },
{
    match encoded {
        Some(Ok(ids)) => Ok(ids),
        Some(Err(e)) => Err(prefixed("Tokenization failed: ", e.as_str())),
        None => Err("Tokenizer not initialized on EmbeddedInferenceBackend".to_owned()),
    }
}

/// The text of what was generated.
pub fn generated_text(decoded: Result<String, String>) -> (r: Result<String, String>)
    ensures
        match decoded {
            Ok(text) => r == Ok::<String, String>(text),
            Err(e) => r is Err && r->Err_0@ == "Decoding failed: "@ + e@,
        },
{
    match decoded {
        Ok(text) => Ok(text),
        Err(e) => Err(prefixed("Decoding failed: ", e.as_str())),
    }
}

/// Runs the native backend in process.
pub struct EmbeddedInferenceBackend<T: TensorBackend> {
    pub backend: NativeTransformerBackend<T>,
    pub config: ModelConfig,
}

impl<T: TensorBackend> EmbeddedInferenceBackend<T> {
    pub fn new(backend: NativeTransformerBackend<T>) -> (r: Self)
        ensures
            r.backend == backend,
            r.config@ == backend.weights@.config,
    {
        let config = backend.weights.config.clone();
        EmbeddedInferenceBackend { backend, config }
    }

    /// Takes another model and forgets all sequences.
    pub fn load_model(&mut self, config: &ModelConfig, weights: TransformerWeights)
        ensures
            final(self).config@ == config@,
            final(self).backend.weights == weights,
            final(self).backend.tensor_backend == old(self).backend.tensor_backend,
            final(self).backend.seqs() == Map::<u64, TokensState>::empty(),
    {
        self.config = config.clone();
        self.backend.load_weights(weights);
    }

    /// Generates tokens from an encoded prompt.
    pub fn generate_ids<B: UnifiedBuffer>(
        &mut self,
        seq_id: u64,
        encoded: Option<Result<Vec<u32>, String>>,
        max_tokens: usize,
        temperature: u32,
        stop_tokens: &[u32],
        kv: Option<&mut AienKvManager<B>>,
    ) -> (r: Result<Vec<u32>, String>)
        requires
            encoded matches Some(Ok(prompt)) ==> generate_fits(
                old(self).backend.tensor_backend,
                old(self).backend.weights@,
                (Sampling {
                    id: seq_id,
                    max_tokens: max_tokens as int,
                    temperature,
                    stop: stop_tokens@,
                }),
                prompt@,
                held(kv),
                old(self).backend.seqs(),
            ),
        ensures
            final(self).config == old(self).config,
            final(self).backend.weights == old(self).backend.weights,
            final(self).backend.tensor_backend == old(self).backend.tensor_backend,
            ({
                let prompt = encoded->0->Ok_0@;
                let error = if encoding_error(encoded) is Some {
                    encoding_error(encoded)
                } else {
                    prefill_error(prompt, seq_id, held(kv), "Cannot generate from empty prompt"@)
                };
                match r {
                    Ok(tokens) => {
                        let done = generate(
                            old(self).backend.tensor_backend,
                            old(self).backend.weights@,
                            (Sampling {
                                id: seq_id,
                                max_tokens: max_tokens as int,
                                temperature,
                                stop: stop_tokens@,
                            }),
                            Seq::new(tokens@.len(), |i: int| true),
                            prompt,
                            (Generating {
                                kv: held(kv),
                                seqs: old(self).backend.seqs(),
                                heard: Seq::empty(),
                            }),
                        );
                        &&& error is None
                        &&& done.heard == tokens@.map_values(|t: u32| (t, true))
                        &&& final(self).backend.seqs() == done.seqs
                        &&& kv is Some ==> done.kv == Some(final(kv->0)@)
                        &&& kv is Some && held(kv)->0.wf() ==> final(kv->0)@.wf()
                        &&& kv is Some && !held(kv)->0.tables.contains_key(seq_id)
                            ==> final(kv->0)@.extends(held(kv)->0)
                    },
                    Err(e) => {
                        &&& error == Some(e@)
                        &&& final(self).backend.seqs() == old(self).backend.seqs()
                        &&& kv is Some ==> final(kv->0)@ == held(kv)->0
                    },
                }
            }),
    {
        match prompt_ids(encoded) {
            Ok(ids) => self.backend.generate_tokens(
                seq_id,
                ids.as_slice(),
                max_tokens,
                temperature,
                stop_tokens,
                kv,
            ),
            Err(e) => Err(e),
        }
    }

    /// Generates tokens from an encoded prompt and hands each to the consumer.
    pub fn generate_ids_streaming<C: TokenConsumer, B: UnifiedBuffer>(
        &mut self,
        seq_id: u64,
        encoded: Option<Result<Vec<u32>, String>>,
        max_tokens: usize,
        temperature: u32,
        stop_tokens: &[u32],
        consumer: &mut C,
        kv: Option<&mut AienKvManager<B>>,
    ) -> (r: Result<(), String>)
        requires
            encoded matches Some(Ok(prompt)) ==> generate_fits(
                old(self).backend.tensor_backend,
                old(self).backend.weights@,
                (Sampling {
                    id: seq_id,
                    max_tokens: max_tokens as int,
                    temperature,
                    stop: stop_tokens@,
                }),
                prompt@,
                held(kv),
                old(self).backend.seqs(),
            ),
        ensures
            final(self).config == old(self).config,
            final(self).backend.weights == old(self).backend.weights,
            final(self).backend.tensor_backend == old(self).backend.tensor_backend,
            ({
                let prompt = encoded->0->Ok_0@;
                let error = if encoding_error(encoded) is Some {
                    encoding_error(encoded)
                } else {
                    prefill_error(prompt, seq_id, held(kv), "Cannot generate from empty prompt"@)
                };
                let base = old(consumer).heard();
                let heard = final(consumer).heard().skip(base.len() as int);
                let done = generate(
                    old(self).backend.tensor_backend,
                    old(self).backend.weights@,
                    (Sampling {
                        id: seq_id,
                        max_tokens: max_tokens as int,
                        temperature,
                        stop: stop_tokens@,
                    }),
                    answers_of(heard),
                    prompt,
                    (Generating {
                        kv: held(kv),
                        seqs: old(self).backend.seqs(),
                        heard: Seq::empty(),
                    }),
                );
                match r {
                    Ok(_) => {
                        &&& error is None
                        &&& final(consumer).heard() == base + done.heard
                        &&& final(self).backend.seqs() == done.seqs
                        &&& kv is Some ==> done.kv == Some(final(kv->0)@)
                        &&& kv is Some && held(kv)->0.wf() ==> final(kv->0)@.wf()
                        &&& kv is Some && !held(kv)->0.tables.contains_key(seq_id)
                            ==> final(kv->0)@.extends(held(kv)->0)
                    },
                    Err(e) => {
                        &&& error == Some(e@)
                        &&& final(consumer).heard() == base
                        &&& final(self).backend.seqs() == old(self).backend.seqs()
                        &&& kv is Some ==> final(kv->0)@ == held(kv)->0
                    },
                }
            }),
    {
        match prompt_ids(encoded) {
            Ok(ids) => self.backend.generate_tokens_streaming(
                seq_id,
                ids.as_slice(),
                max_tokens,
                temperature,
                stop_tokens,
                consumer,
                kv,
            ),
            Err(e) => Err(e),
        }
    }

    /// Executes a batch.
    pub fn execute_step<B: UnifiedBuffer>(
        &mut self,
        batch: &ScheduledBatch,
        elapsed_us: u64,
        kv: Option<&mut AienKvManager<B>>,
    ) -> (r: Result<(Vec<DecodeOutput>, StepMetrics), String>)
        requires
            step_fits(
                old(self).backend.tensor_backend,
                old(self).backend.weights@,
                batch@,
                held(kv),
                old(self).backend.seqs(),
            ),
        ensures
            final(self).config == old(self).config,
            final(self).backend.weights == old(self).backend.weights,
            final(self).backend.tensor_backend == old(self).backend.tensor_backend,
            r is Ok,
            r->Ok_0.1 == batch@.metrics(elapsed_us),
            ({
                let done = whole_step(
                    old(self).backend.tensor_backend,
                    old(self).backend.weights@,
                    batch@,
                    held(kv),
                    old(self).backend.seqs(),
                );
                &&& r->Ok_0.0@ == done.outputs
                &&& final(self).backend.seqs() == done.seqs
                &&& kv is Some ==> done.kv == Some(final(kv->0)@)
                &&& kv is Some && held(kv)->0.wf() ==> final(kv->0)@.wf()
            }),
    {
        self.backend.execute_step(batch, elapsed_us, kv)
    }
}

} // verus!
