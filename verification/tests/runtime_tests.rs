use aien::abi::{
    DecodeOutput, FinishReason, ModelConfig, SamplingParams, ScheduledBatch, SequenceRequest,
};
use aien::buffer::{HeapUnifiedBuffer, UnifiedBuffer};
use aien::completion::{ChannelCompletionSink, CompletionEvent};
use aien::embedded::{generated_text, EmbeddedInferenceBackend};
use aien::forward::{forward_token_impl, forward_token_impl_paged};
use aien::kv_manager::AienKvManager;
use aien::layout::{KvDType, KvPoolConfig};
use aien::platform::{
    BranchHandle, ContextHandle, InferenceWork, KvHandle, ModelHandle, Priority,
};
use aien::pool::UnifiedKvTensorPool;
use aien::prefill::{prefill_prompt_layer_by_layer, prefill_prompt_layer_by_layer_paged};
use aien::scheduler_state::SchedulerConfig;
use aien::sequence::PromptHandle;
use aien::spine::{
    AienRuntimeSpine, ArenaAction, ControlAction, ControlCommand, ControlResponse,
};
use aien::tensor::{is_cold_temperature, HeadShape, TensorBackend};
use aien::transformer::{NativeTransformerBackend, TokenConsumer};
use aien::weights::{LayerKvCache, LayerWeights, SequenceState, TransformerWeights};
use std::collections::HashMap;
use std::sync::Arc;

type Manager = AienKvManager<HeapUnifiedBuffer>;

// ---- A plain backend on the CPU ----
struct Cpu;

fn floats(x: &[u32]) -> Vec<f32> {
    x.iter().map(|v| f32::from_bits(*v)).collect()
}

fn bits(x: Vec<f32>) -> Vec<u32> {
    x.iter().map(|v| v.to_bits()).collect()
}

/// `weight` holds one row of `in_dim` elements per output.
fn apply(x: &[f32], weight: &[f32], out_dim: usize, in_dim: usize) -> Vec<f32> {
    (0..out_dim)
        .map(|o| (0..in_dim).map(|i| weight[o * in_dim + i] * x[i]).sum())
        .collect()
}

fn attention(q: &[f32], k: &[f32], v: &[f32], len: usize, heads: HeadShape) -> Vec<f32> {
    let d = heads.head_dim;
    let width = heads.num_kv_heads * d;
    let group = heads.num_heads / heads.num_kv_heads;
    let mut out = vec![0.0; q.len()];
    for h in 0..heads.num_heads {
        let kv = h / group;
        let scores: Vec<f32> = (0..len)
            .map(|t| {
                (0..d)
                    .map(|i| q[h * d + i] * k[t * width + kv * d + i])
                    .sum::<f32>()
                    / (d as f32).sqrt()
            })
            .collect();
        let max = scores.iter().cloned().fold(f32::MIN, f32::max);
        let exps: Vec<f32> = scores.iter().map(|s| (s - max).exp()).collect();
        let total: f32 = exps.iter().sum();
        for t in 0..len {
            for i in 0..d {
                out[h * d + i] += exps[t] / total * v[t * width + kv * d + i];
            }
        }
    }
    out
}

impl TensorBackend for Cpu {
    fn rmsnorm(&self, x: &[u32], weight: &[u32], eps: u32) -> Vec<u32> {
        let x = floats(x);
        let w = floats(weight);
        let mean: f32 = x.iter().map(|v| v * v).sum::<f32>() / x.len() as f32;
        let scale = 1.0 / (mean + f32::from_bits(eps)).sqrt();
        bits(x.iter().zip(w.iter()).map(|(a, b)| a * scale * b).collect())
    }

    fn matmul_vec(&self, x: &[u32], weight: &[u32], out_dim: usize, in_dim: usize) -> Vec<u32> {
        bits(apply(&floats(x), &floats(weight), out_dim, in_dim))
    }

    fn matmul_batch(
        &self,
        x: &[u32],
        weight: &[u32],
        rows: usize,
        in_dim: usize,
        out_dim: usize,
    ) -> Vec<u32> {
        let x = floats(x);
        let w = floats(weight);
        let mut out = Vec::new();
        for r in 0..rows {
            out.extend(apply(&x[r * in_dim..(r + 1) * in_dim], &w, out_dim, in_dim));
        }
        bits(out)
    }

    fn apply_rope(
        &self,
        q: &[u32],
        k: &[u32],
        pos: usize,
        heads: HeadShape,
        theta: u32,
    ) -> (Vec<u32>, Vec<u32>) {
        let turn = |x: Vec<f32>| -> Vec<f32> {
            let d = heads.head_dim;
            let mut out = x.clone();
            for h in 0..x.len() / d {
                for i in 0..d / 2 {
                    let freq = f32::from_bits(theta).powf(-2.0 * i as f32 / d as f32);
                    let (sin, cos) = (pos as f32 * freq).sin_cos();
                    let (a, b) = (x[h * d + 2 * i], x[h * d + 2 * i + 1]);
                    out[h * d + 2 * i] = a * cos - b * sin;
                    out[h * d + 2 * i + 1] = a * sin + b * cos;
                }
            }
            out
        };
        (bits(turn(floats(q))), bits(turn(floats(k))))
    }

    fn gqa_attention(
        &self,
        q: &[u32],
        flat_k: &[u32],
        flat_v: &[u32],
        seq_len: usize,
        heads: HeadShape,
    ) -> Vec<u32> {
        bits(attention(&floats(q), &floats(flat_k), &floats(flat_v), seq_len, heads))
    }

    fn paged_attention<B: UnifiedBuffer>(
        &self,
        q: &[u32],
        pool: &UnifiedKvTensorPool<B>,
        blocks: &[usize],
        total_tokens: usize,
        layer: usize,
        heads: HeadShape,
    ) -> Vec<u32> {
        let (k, v) = pool.gather_layer_kv(blocks, total_tokens, layer);
        bits(attention(&floats(q), &floats(&k), &floats(&v), total_tokens, heads))
    }

    fn paged_attention_batch<B: UnifiedBuffer>(
        &self,
        q: &[u32],
        pool: &UnifiedKvTensorPool<B>,
        tables: &[i32],
        context_lens: &[i32],
        max_blocks: usize,
        layer: usize,
        heads: HeadShape,
    ) -> Vec<u32> {
        let width = heads.num_heads * heads.head_dim;
        let mut out = Vec::new();
        for (r, len) in context_lens.iter().enumerate() {
            let blocks: Vec<usize> = tables[r * max_blocks..(r + 1) * max_blocks]
                .iter()
                .filter(|b| **b >= 0)
                .map(|b| *b as usize)
                .collect();
            let row = &q[r * width..(r + 1) * width];
            out.extend(self.paged_attention(row, pool, &blocks, *len as usize, layer, heads));
        }
        out
    }

    fn swiglu(&self, gate: &[u32], up: &[u32]) -> Vec<u32> {
        let g = floats(gate);
        let u = floats(up);
        bits(g.iter().zip(u.iter()).map(|(a, b)| a / (1.0 + (-a).exp()) * b).collect())
    }

    fn residual(&self, x: &[u32], delta: &[u32]) -> Vec<u32> {
        let a = floats(x);
        let b = floats(delta);
        bits(a.iter().zip(b.iter()).map(|(p, q)| p + q).collect())
    }

    fn compute_logits(
        &self,
        hidden: &[u32],
        lm_head: &[u32],
        vocab: usize,
        hidden_dim: usize,
    ) -> Vec<u32> {
        bits(apply(&floats(hidden), &floats(lm_head), vocab, hidden_dim))
    }

    fn sample_argmax(&self, logits: &[u32]) -> (u32, u32) {
        let l = floats(logits);
        let mut best = 0;
        for i in 1..l.len() {
            if l[i] > l[best] {
                best = i;
            }
        }
        let total: f32 = l.iter().map(|v| (v - l[best]).exp()).sum();
        (best as u32, (-total.ln()).to_bits())
    }

    fn sample_temperature(&self, logits: &[u32], _temperature: u32, seed: u64) -> (u32, u32) {
        ((seed % logits.len() as u64) as u32, 0)
    }
}

// ---- A small model ----
fn config() -> ModelConfig {
    ModelConfig {
        model_id: "aien-micro-v1".to_string(),
        max_sequence_length: 512,
        block_size: 16,
        num_layers: 2,
        num_heads: 4,
        head_dim: 16,
        num_kv_heads: 2,
        hidden_dim: 64,
        intermediate_dim: 128,
        vocab_size: 256,
        rms_norm_eps: 1e-5f32.to_bits(),
        rope_theta: 10000.0f32.to_bits(),
    }
}

fn noise(seed: u64, n: usize, scale: f32) -> Vec<u32> {
    let mut state = seed.wrapping_mul(0x9E37_79B9_7F4A_7C15).wrapping_add(1);
    (0..n)
        .map(|_| {
            state = state.wrapping_mul(6364136223846793005).wrapping_add(1442695040888963407);
            let unit = (state >> 40) as f32 / (1u64 << 24) as f32;
            ((unit - 0.5) * scale).to_bits()
        })
        .collect()
}

fn weights() -> TransformerWeights {
    let ones = |n: usize| vec![1.0f32.to_bits(); n];
    let layers = (0..2)
        .map(|l| {
            let s = 10 * (l as u64 + 1);
            LayerWeights {
                input_layernorm: ones(64),
                q_proj: noise(s + 1, 64 * 64, 0.2),
                k_proj: noise(s + 2, 32 * 64, 0.2),
                v_proj: noise(s + 3, 32 * 64, 0.2),
                o_proj: noise(s + 4, 64 * 64, 0.2),
                post_attention_layernorm: ones(64),
                gate_proj: noise(s + 5, 128 * 64, 0.2),
                up_proj: noise(s + 6, 128 * 64, 0.2),
                down_proj: noise(s + 7, 64 * 128, 0.2),
            }
        })
        .collect();
    TransformerWeights {
        config: config(),
        embed_tokens: noise(1, 256 * 64, 1.0),
        layers,
        final_norm: ones(64),
        lm_head: noise(2, 256 * 64, 1.0),
    }
}

fn native() -> NativeTransformerBackend<Cpu> {
    NativeTransformerBackend::with_backend(weights(), Cpu)
}

fn no_kv() -> Option<&'static mut Manager> {
    None
}

fn batch(id: u64, prompt: Vec<u32>, decode: Vec<u64>) -> ScheduledBatch {
    let mut block_tables = HashMap::new();
    block_tables.insert(id, vec![0]);
    ScheduledBatch {
        prefill_requests: vec![SequenceRequest {
            request_id: id,
            prompt_tokens: prompt,
            sampling_params: SamplingParams {
                temperature: 0.0f32.to_bits(),
                top_p: 1.0f32.to_bits(),
                max_tokens: 4,
                stop_token_ids: vec![0],
            },
            arrival_time_ns: 0,
            priority: 1,
        }],
        decode_requests: decode,
        block_tables,
        step_id: 1,
    }
}

// ---- The native backend ----
#[test]
fn test_forward_token_and_logits_execution() {
    let config = config();
    let backend = native();
    let mut seq_state = SequenceState {
        tokens: vec![1],
        layers: vec![LayerKvCache::default(), LayerKvCache::default()],
    };

    let hidden = backend.forward_token(1, 0, &mut seq_state);
    assert_eq!(hidden.len(), config.hidden_dim());

    let logits = backend.compute_logits(&hidden);
    assert_eq!(logits.len(), config.vocab_size());
}

#[test]
fn test_paged_cow_context_and_branch_fork() {
    let (mut backend, mut kv) =
        NativeTransformerBackend::with_paged_kv_backend(weights(), Cpu, 200, 16).unwrap();

    // 1. Create parent context with 30 prompt tokens (2 blocks)
    let prompt: Vec<u32> = (0..30).collect();
    let parent = backend.create_context(&prompt, 1, Some(&mut kv)).unwrap();

    // 2. Fork 4 branches
    let b1 = backend.fork_context(parent, 2, Some(&mut kv)).unwrap();
    let b2 = backend.fork_context(parent, 3, Some(&mut kv)).unwrap();
    let b3 = backend.fork_context(parent, 4, Some(&mut kv)).unwrap();
    let b4 = backend.fork_context(parent, 5, Some(&mut kv)).unwrap();

    // Initial receipt before decode: 2 shared pages
    let r_init = backend.get_usage_receipt(b1, Some(&kv)).unwrap();
    assert_eq!(r_init.shared_pages, 2);
    assert_eq!(r_init.private_pages, 0);

    // 3. Decode step for each branch -> triggers COW divergence on partial block 1
    let (t1, _) = backend.decode_branch_step(b1, Some(&mut kv)).unwrap();
    let (t2, _) = backend.decode_branch_step(b2, Some(&mut kv)).unwrap();
    let (t3, _) = backend.decode_branch_step(b3, Some(&mut kv)).unwrap();
    let (t4, _) = backend.decode_branch_step(b4, Some(&mut kv)).unwrap();

    // Tokens generated
    assert_eq!(t1, t2); // Same deterministic greedy choice initially
    assert_eq!(t3, t4);

    let r_after = backend.get_usage_receipt(b1, Some(&kv)).unwrap();
    assert_eq!(r_after.cow_faults, 4); // All 4 branches COWed tail page
    assert_eq!(r_after.shared_pages, 1); // Prefix block 0 remains shared
    assert_eq!(r_after.private_pages, 1); // Divergent block 1 is private

    // 4. Release branches
    backend.release_branch(b1, Some(&mut kv)).unwrap();
    backend.release_branch(b2, Some(&mut kv)).unwrap();
    backend.release_branch(b3, Some(&mut kv)).unwrap();
    backend.release_branch(b4, Some(&mut kv)).unwrap();
}

#[test]
fn test_native_transformer_generate_tokens() {
    let mut backend = native();
    let prompt = vec![1, 5, 9];
    let stop_tokens = vec![0];
    let generated = backend
        .generate_tokens(555, &prompt, 4, 0.0f32.to_bits(), &stop_tokens, no_kv())
        .unwrap();
    assert_eq!(generated.len(), 4);
    assert!(!generated.contains(&0));
    assert_eq!(backend.sequences.len(), 0);
}

#[test]
fn test_native_transformer_generate_tokens_streaming() {
    let mut backend = native();
    let prompt = vec![1, 5, 9];
    let stop_tokens = vec![0];
    let mut streamed = Vec::new();
    backend
        .generate_tokens_streaming(
            777,
            &prompt,
            4,
            0.0f32.to_bits(),
            &stop_tokens,
            &mut streamed,
            no_kv(),
        )
        .unwrap();
    assert_eq!(streamed.len(), 4);
    assert!(!streamed.contains(&0));
    assert_eq!(backend.sequences.len(), 0);
}

#[test]
fn test_embedded_inference_backend_execution() {
    let mut backend = EmbeddedInferenceBackend::new(native());
    assert_eq!(backend.config.num_layers, 2);

    let req = batch(101, vec![1, 5, 9], vec![]);
    let (outputs, metrics) = backend.execute_step(&req, 0, no_kv()).unwrap();
    assert_eq!(outputs.len(), 1);
    assert_eq!(metrics.prefill_tokens_processed, 3);
}

/// Takes a limited number of tokens.
struct Limited {
    tokens: Vec<u32>,
    limit: usize,
}

impl TokenConsumer for Limited {
    fn on_token(&mut self, token: u32) -> bool {
        self.tokens.push(token);
        self.tokens.len() < self.limit
    }
}

#[test]
fn generation_stops_when_told() {
    let mut backend = native();
    let all = backend.generate_tokens(9, &[4, 5, 6], 6, 0, &[], no_kv()).unwrap();
    assert_eq!(all.len(), 6);
    let mut some = Limited { tokens: vec![], limit: 2 };
    backend.generate_tokens_streaming(9, &[4, 5, 6], 6, 0, &[], &mut some, no_kv()).unwrap();
    assert_eq!(some.tokens, all[..2]);
    assert!(backend.sequences.is_empty());
    let none = backend.generate_tokens(9, &[4, 5, 6], 6, 0, &[all[0]], no_kv()).unwrap();
    assert!(none.is_empty());
    let first = backend.generate_tokens(9, &[4, 5, 6], 0, 0, &[], no_kv()).unwrap();
    assert_eq!(first, all[..1]);
}

#[test]
fn pages_and_own_rows_generate_the_same() {
    let mut own = native();
    let prompt: Vec<u32> = (10..30).collect();
    let plain = own.generate_tokens(9, &prompt, 8, 0, &[], no_kv()).unwrap();
    let (mut paged, mut kv) =
        NativeTransformerBackend::with_paged_kv_backend(weights(), Cpu, 20, 16).unwrap();
    let other = paged.create_context(&prompt, 3, Some(&mut kv)).unwrap();
    let rows = kv.gather_layer_kv(3, 1).unwrap();
    let again = paged.generate_tokens(9, &prompt, 8, 0, &[], Some(&mut kv)).unwrap();
    assert_eq!(plain, again);
    assert_eq!(paged.sequences.len(), 1);
    assert!(kv.get_block_table(9).is_none());
    assert_eq!(kv.gather_layer_kv(other.0, 1).unwrap(), rows);
}

#[test]
fn drawn_tokens_take_their_seed_from_the_step() {
    let mut backend = native();
    let warm = 0.8f32.to_bits();
    let tokens = backend.generate_tokens(500, &[1, 2], 3, warm, &[], no_kv()).unwrap();
    assert_eq!(tokens, vec![500 % 256, 501 % 256, 502 % 256]);
    assert!(is_cold_temperature(0.001f32.to_bits()));
    assert!(!is_cold_temperature(0.0011f32.to_bits()));
    assert!(is_cold_temperature((-1.0f32).to_bits()));
    assert!(is_cold_temperature(f32::NEG_INFINITY.to_bits()));
    assert!(!is_cold_temperature(f32::NAN.to_bits()));
    assert!(!is_cold_temperature((-f32::NAN).to_bits()));
}

#[test]
fn a_branch_does_not_disturb_another() {
    let (mut backend, mut kv) =
        NativeTransformerBackend::with_paged_kv_backend(weights(), Cpu, 20, 16).unwrap();
    let prompt: Vec<u32> = (0..20).collect();
    let parent = backend.create_context(&prompt, 1, Some(&mut kv)).unwrap();
    let a = backend.fork_context(parent, 2, Some(&mut kv)).unwrap();
    let b = backend.fork_context(parent, 3, Some(&mut kv)).unwrap();
    let before = kv.gather_layer_kv(b.0, 0).unwrap();
    for _ in 0..4 {
        backend.decode_branch_step(a, Some(&mut kv)).unwrap();
    }
    assert_eq!(kv.gather_layer_kv(b.0, 0).unwrap(), before);
    assert_eq!(kv.total_tokens(a.0), Some(24));
    assert_eq!(kv.total_tokens(b.0), Some(20));
    let receipt = backend.get_usage_receipt(a, Some(&kv)).unwrap();
    assert_eq!(receipt.prefix_tokens, 16);
    assert_eq!(receipt.private_tokens, 8);
    assert_eq!(receipt.logical_pages, 2);
    assert_eq!(receipt.physical_pages, 3);
    // Two layers of K and V, 16 tokens, 32 elements of four bytes.
    assert_eq!(receipt.bytes_saved_vs_full_copy, 8192);
    assert_eq!(receipt.physical_kv_bytes, 2 * 8192);
}

#[test]
fn branches_without_pages_copy_their_rows() {
    let mut backend = native();
    let parent = backend.create_context(&[7, 8, 9], 1, no_kv()).unwrap();
    let a = backend.fork_context(parent, 2, no_kv()).unwrap();
    let b = backend.fork_context(parent, 3, no_kv()).unwrap();
    let (ta, _) = backend.decode_branch_step(a, no_kv()).unwrap();
    let (tb, _) = backend.decode_branch_step(b, no_kv()).unwrap();
    assert_eq!(ta, tb);
    assert_eq!(backend.sequences[&2].tokens, vec![7, 8, 9, ta]);
    assert_eq!(backend.sequences[&1].tokens, vec![7, 8, 9]);
}

#[test]
fn native_errors() {
    let mut backend = native();
    assert_eq!(
        backend.prefill_sequence(1, &[], no_kv()).unwrap_err(),
        "Cannot prefill empty prompt"
    );
    assert_eq!(
        backend.create_context(&[], 1, no_kv()).unwrap_err(),
        "Cannot create context with empty prompt"
    );
    assert_eq!(
        backend.generate_tokens(1, &[], 4, 0, &[], no_kv()).unwrap_err(),
        "Cannot generate from empty prompt"
    );
    assert_eq!(
        backend.fork_context(ContextHandle(9), 1, no_kv()).unwrap_err(),
        "Parent context 9 not found"
    );
    assert_eq!(
        backend.decode_branch_step(BranchHandle(9), no_kv()).unwrap_err(),
        "Branch 9 not found"
    );
    let none: Option<&Manager> = None;
    assert_eq!(
        backend.get_usage_receipt(BranchHandle(9), none).unwrap_err(),
        "KV manager not initialized on backend"
    );
    let mut kv = Manager::new(1, 16);
    assert_eq!(
        backend.get_usage_receipt(BranchHandle(9), Some(&kv)).unwrap_err(),
        "Branch 9 not found in KV cache"
    );
    let long: Vec<u32> = (0..40).collect();
    assert_eq!(
        backend.create_context(&long, 1, Some(&mut kv)).unwrap_err(),
        "Insufficient blocks: need 3, have 1"
    );
    assert_eq!(
        backend.generate_tokens(1, &long, 4, 0, &[], Some(&mut kv)).unwrap_err(),
        "Insufficient blocks: need 3, have 1"
    );
    assert!(backend.sequences.is_empty());
    backend.create_context(&[1, 2], 5, no_kv()).unwrap();
    assert_eq!(
        backend.fork_context(ContextHandle(5), 6, Some(&mut kv)).unwrap_err(),
        "Parent sequence 5 not found"
    );
}

#[test]
fn a_step_answers_each_entry() {
    let mut backend = native();
    let (first, _) = backend.execute_step(&batch(1, vec![3, 4], vec![]), 0, no_kv()).unwrap();
    let token = match first[0] {
        DecodeOutput::Token { token_id, .. } => token_id,
        _ => panic!("Expected a token"),
    };
    assert_eq!(backend.sequences[&1].tokens, vec![3, 4, token]);
    let (outputs, metrics) =
        backend.execute_step(&batch(2, vec![5, 6, 7], vec![1]), 9, no_kv()).unwrap();
    assert_eq!(outputs.len(), 2);
    assert_eq!(metrics.decode_tokens_emitted, 2);
    assert_eq!(metrics.step_latency_us, 9);
    match outputs[1] {
        DecodeOutput::Token { request_id, .. } => assert_eq!(request_id, 1),
        DecodeOutput::Finished { request_id, reason, .. } => {
            assert_eq!(request_id, 1);
            assert_eq!(reason, FinishReason::StopToken);
        }
    }
    // The same token as a pass of its own gives.
    let mut single = native();
    single.execute_step(&batch(1, vec![3, 4], vec![]), 0, no_kv()).unwrap();
    let (next, _) = single.decode_branch_step(BranchHandle(1), no_kv()).unwrap();
    assert_eq!(backend.sequences[&1].tokens, vec![3, 4, token, next]);
}

#[test]
fn a_token_pass_adds_one_row_per_layer() {
    let mut seq = SequenceState {
        tokens: vec![],
        layers: vec![LayerKvCache::default(), LayerKvCache::default()],
    };
    let w = weights();
    forward_token_impl(&w, &Cpu, 3, 0, &mut seq);
    forward_token_impl(&w, &Cpu, 4, 1, &mut seq);
    for layer in &seq.layers {
        assert_eq!(layer.cached_k.len(), 2);
        assert_eq!(layer.flat_v.len(), 64);
        assert_eq!(layer.flat_k, layer.cached_k.concat());
    }
}

#[test]
fn text_generation() {
    let mut backend = EmbeddedInferenceBackend::new(native());
    assert_eq!(
        backend.generate_ids(1, None, 4, 0, &[2, 0], no_kv()).unwrap_err(),
        "Tokenizer not initialized on EmbeddedInferenceBackend"
    );
    assert_eq!(
        backend
            .generate_ids(1, Some(Err("bad byte".to_string())), 4, 0, &[2, 0], no_kv())
            .unwrap_err(),
        "Tokenization failed: bad byte"
    );
    let ids = backend.generate_ids(1, Some(Ok(vec![4, 5, 6])), 4, 0, &[2, 0], no_kv()).unwrap();
    assert_eq!(ids, native().generate_tokens(1, &[4, 5, 6], 4, 0, &[2, 0], no_kv()).unwrap());
    let mut streamed = Vec::new();
    backend
        .generate_ids_streaming(
            1,
            Some(Ok(vec![4, 5, 6])),
            4,
            0,
            &[2, 0],
            &mut streamed,
            no_kv(),
        )
        .unwrap();
    assert_eq!(streamed, ids);
    assert_eq!(generated_text(Ok("hello".to_string())).unwrap(), "hello");
    assert_eq!(
        generated_text(Err("gap".to_string())).unwrap_err(),
        "Decoding failed: gap"
    );
}

#[test]
fn checkpoints() {
    let failed: Result<TransformerWeights, String> = Err("no such file".to_string());
    let e = NativeTransformerBackend::load_tinyllama_safetensors(failed, Cpu, Some(4)).err();
    assert_eq!(e.unwrap(), "Failed to load safetensors: no such file");
    let (backend, kv) =
        NativeTransformerBackend::load_tinyllama_safetensors(Ok(weights()), Cpu, Some(4)).unwrap();
    assert!(backend.sequences.is_empty());
    let kv = kv.unwrap();
    assert_eq!((kv.free_block_count(), kv.block_size()), (4, 16));
    assert_eq!(kv.tensor_pool().unwrap().config().num_layers, 2);
    let (_, kv) =
        NativeTransformerBackend::load_tinyllama_safetensors(Ok(weights()), Cpu, None).unwrap();
    assert!(kv.is_none());
}

// ---- The spine ----
struct Runtime {
    spine: AienRuntimeSpine<ChannelCompletionSink>,
    backend: NativeTransformerBackend<Cpu>,
    kv: Manager,
    actions: Vec<ArenaAction>,
}

impl Runtime {
    fn new(total_blocks: usize) -> Self {
        let mut kv = Manager::new(total_blocks, 16);
        kv.attach_tensor_pool(KvPoolConfig {
            num_blocks: total_blocks,
            block_size: 16,
            num_layers: 2,
            num_kv_heads: 2,
            head_dim: 16,
            dtype: KvDType::Bf16,
        })
        .unwrap();
        Runtime {
            spine: AienRuntimeSpine::new(SchedulerConfig {
                max_batch_size: 16,
                max_batch_tokens: 512,
                max_prefill_tokens: 256,
                prefill_chunk_size: 64,
                chunk_prefill: true,
                watermark_blocks: 4,
            }),
            backend: native(),
            kv,
            actions: Vec::new(),
        }
    }

    fn step(&mut self) -> bool {
        let batch = match self.spine.begin_step(&mut self.kv).unwrap() {
            Some(batch) => batch,
            None => return false,
        };
        let (outputs, metrics) =
            self.backend.execute_step(&batch, 1, Some(&mut self.kv)).unwrap();
        let (_, actions) =
            self.spine.finish_step(&mut self.kv, &batch, &outputs, &metrics, true);
        self.actions.extend(actions);
        true
    }

    fn run_until_complete(&mut self, max_steps: usize) -> usize {
        let mut taken = 0;
        let mut executed = 0;
        while self.spine.takes_further_step(taken, max_steps) {
            if self.step() {
                executed += 1;
            }
            taken += 1;
        }
        executed
    }
}

#[test]
fn test_end_to_end_ticket_submission_and_channel_streaming_cpu() {
    let mut runtime = Runtime::new(64);

    // 1. Create in-memory channel sink with zero socket/RPC boundary
    let (sink, mut rx) = ChannelCompletionSink::channel();
    let sink_id = runtime.spine.register_completion_sink(sink);

    // 2. Submit immutable PromptHandle ticket
    let prompt: PromptHandle = Arc::from([1u32, 10, 25, 42].as_slice());
    let sampling = SamplingParams {
        temperature: 0.0f32.to_bits(),
        top_p: 1.0f32.to_bits(),
        max_tokens: 5,
        stop_token_ids: vec![0],
    };

    let seq_id = runtime.spine.submit_work(prompt, sampling, 1, Some(sink_id)).unwrap();

    // 3. Drive execution steps until completion
    let executed = runtime.run_until_complete(20);
    assert!(executed > 0, "Must have executed at least 1 step");

    // 4. Collect streamed events from channel
    let mut received_tokens = Vec::new();
    let mut saw_finished = false;

    while let Ok(event) = rx.try_recv() {
        match event {
            CompletionEvent::Token { seq_id: sid, token } => {
                assert_eq!(sid, seq_id);
                received_tokens.push(token);
            }
            CompletionEvent::Finished { seq_id: sid, total_tokens, finish_reason } => {
                assert_eq!(sid, seq_id);
                saw_finished = true;
                println!(
                    "Finished event: total_tokens={}, received_tokens={}, reason={:?}",
                    total_tokens,
                    received_tokens.len(),
                    finish_reason
                );
            }
            CompletionEvent::Error { seq_id: sid, message } => {
                panic!("Unexpected error for seq_id {}: {}", sid, message);
            }
        }
    }

    assert!(
        saw_finished,
        "Expected CompletionEvent::Finished on channel"
    );
    println!("Received tokens: {:?}", received_tokens);
    assert!(
        received_tokens.len() >= 4,
        "Expected at least 4 generated tokens before stop token, got {}",
        received_tokens.len()
    );
}

#[test]
fn test_end_to_end_subagent_branching_with_independent_sinks() {
    let mut runtime = Runtime::new(128);

    // Parent ticket
    let (sink_parent, mut rx_parent) = ChannelCompletionSink::channel();
    let sink_p_id = runtime.spine.register_completion_sink(sink_parent);

    let prompt: PromptHandle = Arc::from([1u32, 15, 30, 45].as_slice());
    let sampling = SamplingParams {
        temperature: 0.0f32.to_bits(),
        top_p: 1.0f32.to_bits(),
        max_tokens: 6,
        stop_token_ids: vec![0],
    };

    let parent_id = runtime.spine.submit_work(prompt, sampling, 2, Some(sink_p_id)).unwrap();

    // Step twice to prefill and decode initial token
    runtime.step();
    runtime.step();

    // Fork subagent 1 with independent sink
    let (sink_child1, mut rx_child1) = ChannelCompletionSink::channel();
    let sink_c1_id = runtime.spine.register_completion_sink(sink_child1);
    let child1_id = parent_id + 100;
    runtime
        .spine
        .fork_subagent(&mut runtime.kv, parent_id, child1_id, Some(sink_c1_id))
        .unwrap();

    // Fork subagent 2 with independent sink
    let (sink_child2, mut rx_child2) = ChannelCompletionSink::channel();
    let sink_c2_id = runtime.spine.register_completion_sink(sink_child2);
    let child2_id = parent_id + 200;
    runtime
        .spine
        .fork_subagent(&mut runtime.kv, parent_id, child2_id, Some(sink_c2_id))
        .unwrap();

    // Verify prefix sharing in physical KV pool right after fork
    assert!(
        runtime.kv.metrics().shared_pages >= 1,
        "Parent and subagents must share physical prefix blocks without copy"
    );

    // Run until parent and both subagents complete
    runtime.run_until_complete(30);

    // Verify parent received its events
    let mut parent_tokens = Vec::new();
    while let Ok(event) = rx_parent.try_recv() {
        if let CompletionEvent::Token { token, .. } = event {
            parent_tokens.push(token);
        }
    }
    assert!(
        !parent_tokens.is_empty(),
        "Parent must have streamed tokens"
    );

    // Verify child 1 received its events independently
    let mut child1_tokens = Vec::new();
    while let Ok(event) = rx_child1.try_recv() {
        if let CompletionEvent::Token { token, .. } = event {
            child1_tokens.push(token);
        }
    }
    assert!(
        !child1_tokens.is_empty(),
        "Child 1 must have streamed tokens"
    );

    // Verify child 2 received its events independently
    let mut child2_tokens = Vec::new();
    while let Ok(event) = rx_child2.try_recv() {
        if let CompletionEvent::Token { token, .. } = event {
            child2_tokens.push(token);
        }
    }
    assert!(
        !child2_tokens.is_empty(),
        "Child 2 must have streamed tokens"
    );

    println!(
        "Running: {}, Waiting: {}, Preempted: {}, Allocated blocks: {}",
        runtime.spine.scheduler.running_count(),
        runtime.spine.scheduler.waiting_count(),
        runtime.spine.scheduler.preempted_count(),
        runtime.kv.allocated_block_count()
    );
    println!(
        "Active sequences in KV: {}, metrics: {:?}, active blocks: {:?}",
        runtime.kv.active_sequence_count(),
        runtime.kv.metrics(),
        runtime.kv.debug_active_blocks()
    );
    // Verify zero leaked physical pages after all sequences completed
    assert_eq!(
        runtime.kv.allocated_block_count(),
        0,
        "All physical blocks must be reclaimed upon sequence completion"
    );
}

#[test]
fn work_and_steps_share_a_counter() {
    let mut runtime = Runtime::new(16);
    let sampling = SamplingParams::default();
    let prompt: PromptHandle = Arc::from([1u32, 2].as_slice());
    assert_eq!(
        runtime.spine.submit_work(prompt.clone(), sampling.clone(), 9, None).unwrap(),
        1
    );
    runtime.step();
    assert_eq!(runtime.spine.step_counter, 2);
    assert_eq!(runtime.spine.submit_work(prompt.clone(), sampling.clone(), 0, None).unwrap(), 3);
    assert_eq!(runtime.spine.scheduler.arena().get(&1).unwrap().to_request().priority, 3);
    assert_eq!(runtime.spine.scheduler.arena().get(&3).unwrap().to_request().priority, 0);
    runtime.spine.step_counter = 0;
    assert_eq!(
        runtime.spine.submit_work(prompt, sampling, 0, None).unwrap_err(),
        "Sequence 1 already exists in arena"
    );
    assert_eq!(runtime.spine.step_counter, 1);
}

#[test]
fn outputs_tell_what_to_do_to_the_table() {
    let mut runtime = Runtime::new(16);
    let sampling = SamplingParams {
        temperature: 0,
        top_p: 0,
        max_tokens: 2,
        stop_token_ids: vec![],
    };
    runtime.spine.submit_work(Arc::from([9u32, 8].as_slice()), sampling, 0, None).unwrap();
    assert_eq!(runtime.run_until_complete(10), 2);
    assert_eq!(
        runtime.actions,
        vec![ArenaAction::CountToken(1), ArenaAction::Complete(1)]
    );
}

#[test]
fn swarm_branches_wait_in_order() {
    let mut runtime = Runtime::new(16);
    runtime.spine.step_counter = 7;
    runtime.spine.enqueue_branches(&[11, 12], &[4, 5], 33, 2);
    assert_eq!(runtime.spine.scheduler.waiting_count(), 2);
    let batch = runtime.spine.begin_step(&mut runtime.kv).unwrap().unwrap();
    let ids: Vec<u64> = batch.prefill_requests.iter().map(|r| r.request_id).collect();
    assert_eq!(ids, vec![11, 12]);
    let first = &batch.prefill_requests[0];
    assert_eq!(first.prompt_tokens, vec![4, 5]);
    assert_eq!(f32::from_bits(first.sampling_params.temperature), 0.7);
    assert_eq!(f32::from_bits(first.sampling_params.top_p), 0.95);
    assert_eq!(first.sampling_params.max_tokens, 33);
    assert_eq!(first.sampling_params.stop_token_ids, vec![2]);
    assert_eq!(first.arrival_time_ns, 7);
    assert_eq!(first.priority, 2);
}

fn refused(action: ControlAction<u8>) -> Option<String> {
    match action {
        ControlAction::Reply(ControlResponse::Error(e)) => Some(e),
        _ => None,
    }
}

#[test]
fn operations_run_once() {
    let mut runtime = Runtime::new(16);
    let spine = &mut runtime.spine;
    let launch = spine.handle_control_command(5, ControlCommand::LaunchSwarm(1u8));
    assert!(matches!(launch, ControlAction::Launch(1)));
    let failed = spine.settle_launch(5, Err("no room".to_string()));
    assert!(matches!(failed, ControlResponse::Error(e) if e == "no room"));
    let again = spine.handle_control_command(5, ControlCommand::LaunchSwarm(1u8));
    assert!(matches!(again, ControlAction::Launch(1)));
    let accepted = spine.settle_launch(5, Ok(70));
    assert!(matches!(
        accepted,
        ControlResponse::SwarmAccepted { swarm_id: 70, operation_id: 5 }
    ));
    assert_eq!(
        refused(spine.handle_control_command(5, ControlCommand::CancelSwarm(70))).unwrap(),
        "Operation 5 already processed"
    );
    let cancel: ControlAction<u8> =
        spine.handle_control_command(6, ControlCommand::CancelSwarm(70));
    assert!(matches!(cancel, ControlAction::Cancel(70)));
    let cancelled = spine.settle_cancel(6, 70, Ok(()));
    assert!(matches!(cancelled, ControlResponse::SwarmCancelled { swarm_id: 70 }));
    assert!(refused(spine.handle_control_command(6, ControlCommand::GetRuntimeStatus)).is_some());
    let status: ControlAction<u8> =
        spine.handle_control_command(7, ControlCommand::GetRuntimeStatus);
    assert!(matches!(status, ControlAction::Report));
    let inspect: ControlAction<u8> =
        spine.handle_control_command(7, ControlCommand::InspectSwarm(3));
    assert!(matches!(inspect, ControlAction::Inspect(3)));
}

#[test]
fn reports_count_blocks() {
    let mut runtime = Runtime::new(16);
    runtime.kv.allocate_sequence(1, &[0; 20]).unwrap();
    runtime.kv.fork_sequence(1, 2).unwrap();
    let report = runtime.spine.status_report(&runtime.kv, 4, 5, 6);
    assert_eq!(
        (report.active_sequences, report.active_swarms, report.active_worlds),
        (4, 5, 6)
    );
    assert_eq!((report.free_kv_blocks, report.total_kv_blocks), (14, 16));
    assert_eq!((report.shared_kv_pages, report.cow_faults), (2, 0));
    assert_eq!(f32::from_bits(report.gpu_utilization_pct), 0.0);
    let found = runtime.spine.settle_inspection(3, true, report);
    assert!(matches!(found, ControlResponse::Status(r) if r == report));
    let lost = runtime.spine.settle_inspection(3, false, report);
    assert!(matches!(lost, ControlResponse::Error(e) if e == "Swarm 3 not found"));
}

#[test]
fn described_work_is_queued() {
    let mut runtime = Runtime::new(16);
    let work = InferenceWork {
        sequence: 31,
        model: ModelHandle(1),
        kv: KvHandle(31),
        priority: Priority::Interactive,
        deadline: None,
        branch_parent: None,
        next_token_budget: 4,
    };
    let prompt: PromptHandle = Arc::from([3u32, 4].as_slice());
    runtime.spine.submit_inference_work(work, prompt.clone(), None, None).unwrap();
    assert_eq!(runtime.spine.step_counter, 0);
    assert_eq!(runtime.spine.scheduler.arena().get(&31).unwrap().to_request().priority, 2);
    assert_eq!(
        runtime.spine.submit_inference_work(work, prompt, None, None).unwrap_err(),
        "Sequence 31 already exists in arena"
    );
}

#[test]
fn a_prompt_at_once_is_its_tokens_one_by_one() {
    let w = weights();
    let fresh = || SequenceState {
        tokens: vec![],
        layers: vec![LayerKvCache::default(), LayerKvCache::default()],
    };
    let mut whole = fresh();
    let hidden = prefill_prompt_layer_by_layer(&w, &Cpu, &[3, 4, 5], &mut whole);
    let mut single = fresh();
    forward_token_impl(&w, &Cpu, 3, 0, &mut single);
    forward_token_impl(&w, &Cpu, 4, 1, &mut single);
    let last = forward_token_impl(&w, &Cpu, 5, 2, &mut single);
    assert_eq!(hidden, last);
    assert_eq!(whole.tokens, vec![3, 4, 5]);
    for (a, b) in whole.layers.iter().zip(single.layers.iter()) {
        assert_eq!(a.flat_k, b.flat_k);
        assert_eq!(a.flat_v, b.flat_v);
    }
}

#[test]
fn tokens_wrap_at_the_vocabulary() {
    let w = weights();
    let fresh = || SequenceState {
        tokens: vec![],
        layers: vec![LayerKvCache::default(), LayerKvCache::default()],
    };
    let (mut a, mut b) = (fresh(), fresh());
    assert_eq!(
        forward_token_impl(&w, &Cpu, 256 + 7, 0, &mut a),
        forward_token_impl(&w, &Cpu, 7, 0, &mut b)
    );
    assert_eq!(a.layers[1].flat_k, b.layers[1].flat_k);
    assert_ne!(
        forward_token_impl(&w, &Cpu, 8, 0, &mut fresh()),
        forward_token_impl(&w, &Cpu, 7, 0, &mut fresh())
    );
}

#[test]
fn a_paged_pass_takes_one_slot() {
    let (backend, mut kv) =
        NativeTransformerBackend::with_paged_kv_backend(weights(), Cpu, 20, 16).unwrap();
    kv.allocate_sequence(5, &[1, 2]).unwrap();
    kv.allocate_sequence(6, &[1, 2, 3]).unwrap();
    let mut seq = SequenceState {
        tokens: vec![],
        layers: vec![LayerKvCache::default(), LayerKvCache::default()],
    };
    let hidden =
        forward_token_impl_paged(&backend.weights, &Cpu, 9, 2, &mut seq, 5, Some(&mut kv));
    assert_eq!(hidden.len(), 64);
    // One token for both layers, and no row of its own.
    assert_eq!(kv.total_tokens(5), Some(3));
    assert_eq!(kv.total_tokens(6), Some(3));
    assert!(seq.tokens.is_empty());
    assert!(seq.layers.iter().all(|l| l.cached_k.is_empty()));
    // A sequence without blocks keeps the row itself.
    forward_token_impl_paged(&backend.weights, &Cpu, 9, 0, &mut seq, 77, Some(&mut kv));
    assert_eq!(kv.total_tokens(77), None);
    assert!(seq.layers.iter().all(|l| l.cached_k.len() == 1 && l.cached_v.len() == 1));
}

#[test]
fn prefilled_prompts_leave_their_rows_in_one_place() {
    let (backend, mut kv) =
        NativeTransformerBackend::with_paged_kv_backend(weights(), Cpu, 20, 16).unwrap();
    let fresh = || SequenceState {
        tokens: vec![1],
        layers: vec![LayerKvCache::default(), LayerKvCache::default()],
    };
    let w = &backend.weights;
    let mut own = fresh();
    let hidden = prefill_prompt_layer_by_layer(w, &Cpu, &[3, 4, 5], &mut own);
    assert_eq!(hidden.len(), 64);
    assert_eq!(own.tokens, vec![1, 3, 4, 5]);
    assert!(own.layers.iter().all(|l| l.cached_k.len() == 3 && l.cached_v.len() == 3));
    kv.allocate_sequence(8, &[3, 4, 5]).unwrap();
    let mut paged = fresh();
    let same =
        prefill_prompt_layer_by_layer_paged(w, &Cpu, &[3, 4, 5], &mut paged, 8, Some(&mut kv));
    assert_eq!(same, hidden);
    assert_eq!(paged.tokens, vec![1, 3, 4, 5]);
    assert!(paged.layers.is_empty());
    let mut none = fresh();
    assert!(prefill_prompt_layer_by_layer(w, &Cpu, &[], &mut none).is_empty());
    assert_eq!(none.tokens, vec![1]);
}

#[test]
fn a_table_with_the_rows_of_the_prompt_is_enough() {
    let whole = weights();
    let mut part = weights();
    part.embed_tokens.truncate(6 * 64);
    let fresh = || SequenceState {
        tokens: vec![],
        layers: vec![LayerKvCache::default(), LayerKvCache::default()],
    };
    assert_eq!(
        prefill_prompt_layer_by_layer(&part, &Cpu, &[3, 256 + 4, 5], &mut fresh()),
        prefill_prompt_layer_by_layer(&whole, &Cpu, &[3, 4, 5], &mut fresh())
    );
    assert_eq!(
        forward_token_impl(&part, &Cpu, 5, 0, &mut fresh()),
        forward_token_impl(&whole, &Cpu, 5, 0, &mut fresh())
    );
}

#[test]
fn a_pool_with_the_blocks_in_use_is_enough() {
    let run = |pool_blocks: usize| {
        let (mut backend, mut kv) =
            NativeTransformerBackend::with_paged_kv_backend(weights(), Cpu, 20, 16).unwrap();
        let shape = KvPoolConfig { num_blocks: pool_blocks, ..*kv.tensor_pool().unwrap().config() };
        kv.attach_tensor_pool(shape).unwrap();
        let context = backend.create_context(&[3, 4, 5], 1, Some(&mut kv)).unwrap();
        let first = backend.fork_context(context, 2, Some(&mut kv)).unwrap();
        let second = backend.fork_context(context, 3, Some(&mut kv)).unwrap();
        let step = backend.decode_branch_step(first, Some(&mut kv)).unwrap();
        let outputs = backend.forward_decode_batch(&[second.0], Some(&mut kv));
        (step, outputs)
    };
    assert_eq!(run(3), run(20));
}
