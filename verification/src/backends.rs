//! Backends that answer a batch by rule: a simulated one, one in front of a local serving
//! engine, and one for plain CPUs.
//!
//! Time spent is measured by the caller and handed in.

use crate::abi::{
    BatchState, DecodeOutput, ModelConfig, ModelState, ScheduledBatch, StepMetrics,
};
use crate::maps::view_all;
use crate::surface::{ExecutionSurface, SurfaceState};
use vstd::prelude::*;

verus! {

/// How a backend picks the token of a sequence.
pub enum TokenRule {
    /// One token for prefill requests and one for decode requests.
    Fixed { prefill: u32, decode: u32 },
    /// A token mixed from the sequence and the step.
    Mixed { step_id: u64 },
}

/// The token that a sequence and a step are mixed to.
pub open spec fn mixed_token(request_id: u64, step_id: u64) -> u32 {
    ((request_id * 6364136223846793005 + step_id * 1442695040888963407)
        % 0x1_0000_0000_0000_0000 % 151643 + 100) as u32
}

impl TokenRule {
    pub open spec fn prefill_token(self, request_id: u64) -> u32 {
        match self {
            TokenRule::Fixed { prefill, decode } => prefill,
            TokenRule::Mixed { step_id } => mixed_token(request_id, step_id),
        }
    }

    pub open spec fn decode_token(self, request_id: u64) -> u32 {
        match self {
            TokenRule::Fixed { prefill, decode } => decode,
            TokenRule::Mixed { step_id } => mixed_token(request_id, step_id),
        }
    }
}

/// One token per entry of a batch: the prefill requests first, then the decode requests.
pub open spec fn answers(
    batch: BatchState,
    rule: TokenRule,
    prefill_logprob: u32,
    decode_logprob: u32,
) -> Seq<DecodeOutput> {
    Seq::new(
        batch.prefill_requests.len(),
        |i: int|
            DecodeOutput::Token {
                request_id: batch.prefill_requests[i].request_id,
                token_id: rule.prefill_token(batch.prefill_requests[i].request_id),
                logprob: Some(prefill_logprob),
            },
    ) + Seq::new(
        batch.decode_requests.len(),
        |i: int|
            DecodeOutput::Token {
                request_id: batch.decode_requests[i],
                token_id: rule.decode_token(batch.decode_requests[i]),
                logprob: Some(decode_logprob),
            },
    )
}

/// Mixes a sequence and a step to a token.
fn mix(request_id: u64, step_id: u64) -> (r: u32)
    ensures
        r == mixed_token(request_id, step_id),
{
    let a: u64 = request_id.wrapping_mul(6364136223846793005);
    let b: u64 = step_id.wrapping_mul(1442695040888963407);
    let h: u64 = a.wrapping_add(b);
    proof {
        let x = request_id * 6364136223846793005;
        let y = step_id * 1442695040888963407;
        let m: int = 0x1_0000_0000_0000_0000;
        assert(a == x % m);
        assert(b == y % m);
        vstd::arithmetic::div_mod::lemma_add_mod_noop(x, y, m);
        assert(h == (x + y) % m);
    }
    (h % 151643) as u32 + 100
}

fn answer(
    batch: &ScheduledBatch,
    rule: &TokenRule,
    prefill_logprob: u32,
    decode_logprob: u32,
) -> (r: Vec<DecodeOutput>)
    ensures
        r@ == answers(batch@, *rule, prefill_logprob, decode_logprob),
{
    let ghost all = answers(batch@, *rule, prefill_logprob, decode_logprob);
    let ghost p = batch@.prefill_requests.len();
    let mut r: Vec<DecodeOutput> = Vec::new();
    let mut i: usize = 0;
    while i < batch.prefill_requests.len()
        invariant
            i <= batch.prefill_requests@.len(),
            p == batch.prefill_requests@.len(),
            batch@.prefill_requests == view_all(batch.prefill_requests@),
            all == answers(batch@, *rule, prefill_logprob, decode_logprob),
            r@ == all.take(i as int),
        decreases batch.prefill_requests@.len() - i,
    {
        let request_id: u64 = batch.prefill_requests[i].request_id;
        let token_id: u32 = match rule {
            TokenRule::Fixed { prefill, .. } => *prefill,
            TokenRule::Mixed { step_id } => mix(request_id, *step_id),
        };
        r.push(DecodeOutput::Token { request_id, token_id, logprob: Some(prefill_logprob) });
        assert(r@ =~= all.take(i + 1));
        i = i + 1;
    }
    let mut j: usize = 0;
    while j < batch.decode_requests.len()
        invariant
            j <= batch.decode_requests@.len(),
            p == batch@.prefill_requests.len(),
            all == answers(batch@, *rule, prefill_logprob, decode_logprob),
            r@ == all.take(p + j),
        decreases batch.decode_requests@.len() - j,
    {
        let request_id: u64 = batch.decode_requests[j];
        let token_id: u32 = match rule {
            TokenRule::Fixed { decode, .. } => *decode,
            TokenRule::Mixed { step_id } => mix(request_id, *step_id),
        };
        r.push(DecodeOutput::Token { request_id, token_id, logprob: Some(decode_logprob) });
        assert(r@ =~= all.take(p + j + 1));
        j = j + 1;
    }
    assert(r@ =~= all);
    r
}

/// A simulated backend for measuring the scheduler and the KV manager.
pub struct MockInferenceBackend {
    pub config: ModelConfig,
    pub simulated_step_latency_us: u64,
}

impl MockInferenceBackend {
    pub fn new(simulated_step_latency_us: u64) -> (r: Self)
        ensures
            r.config@ == ModelState::initial(),
            r.simulated_step_latency_us == simulated_step_latency_us,
    {
        MockInferenceBackend { config: ModelConfig::default(), simulated_step_latency_us }
    }

    pub fn load_model(&mut self, config: &ModelConfig) -> (r: Result<(), String>)
        ensures
            r is Ok,
            final(self).config@ == config@,
            final(self).simulated_step_latency_us == old(self).simulated_step_latency_us,
    {
        self.config = config.clone();
        Ok(())
    }

    /// Answers a batch with token 100 for each prefill request (log-probability -0.05) and
    /// token 101 for each decode request (-0.02), and adds the simulated latency.
    pub fn execute_step(&self, batch: &ScheduledBatch, elapsed_us: u64) -> (r: Result<
        (Vec<DecodeOutput>, StepMetrics),
        String,
    >)
        requires
            batch@.counts_fit(),
            elapsed_us + self.simulated_step_latency_us <= u64::MAX,
        ensures
            r is Ok,
            r->Ok_0.0@ == answers(
                batch@,
                TokenRule::Fixed { prefill: 100, decode: 101 },
                0xBD4C_CCCD,
                0xBCA3_D70A,
            ),
            r->Ok_0.1 == batch@.metrics((elapsed_us + self.simulated_step_latency_us) as u64),
    {
        let outputs = answer(
            batch,
            &TokenRule::Fixed { prefill: 100, decode: 101 },
            0xBD4C_CCCD,
            0xBCA3_D70A,
        );
        Ok((outputs, batch.step_metrics(elapsed_us + self.simulated_step_latency_us)))
    }
}

/// A backend in front of a local serving engine.
pub struct MaxServingBackend {
    pub endpoint_url: String,
    pub model_name: String,
    pub config: ModelConfig,
}

impl MaxServingBackend {
    pub fn new(endpoint_url: String, model_name: String) -> (r: Self)
        ensures
            r.endpoint_url == endpoint_url,
            r.model_name == model_name,
            r.config@ == ModelState::initial(),
    {
        MaxServingBackend { endpoint_url, model_name, config: ModelConfig::default() }
    }

    pub fn load_model(&mut self, config: &ModelConfig) -> (r: Result<(), String>)
        ensures
            r is Ok,
            final(self).config@ == config@,
            final(self).endpoint_url == old(self).endpoint_url,
            final(self).model_name == old(self).model_name,
    {
        self.config = config.clone();
        Ok(())
    }

    /// Answers every entry with the token of the step, 151643 and up to 99 more, at a
    /// log-probability of -0.03 for prefill and -0.01 for decode requests.
    pub fn execute_step(&self, batch: &ScheduledBatch, elapsed_us: u64) -> (r: Result<
        (Vec<DecodeOutput>, StepMetrics),
        String,
    >)
        requires
            batch@.counts_fit(),
        ensures
            r is Ok,
            r->Ok_0.0@ == answers(
                batch@,
                TokenRule::Fixed {
                    prefill: (151643 + batch@.step_id % 100) as u32,
                    decode: (151643 + batch@.step_id % 100) as u32,
                },
                0xBCF5_C28F,
                0xBC23_D70A,
            ),
            r->Ok_0.1 == batch@.metrics(elapsed_us),
    {
        let token: u32 = 151643 + (batch.step_id % 100) as u32;
        let outputs = answer(
            batch,
            &TokenRule::Fixed { prefill: token, decode: token },
            0xBCF5_C28F,
            0xBC23_D70A,
        );
        Ok((outputs, batch.step_metrics(elapsed_us)))
    }
}

/// An in-process backend for machines without a GPU. `memory_bandwidth_gb_s` is bits of an
/// `f64`.
pub struct NativeCpuInferenceBackend {
    pub config: ModelConfig,
    pub surface: ExecutionSurface,
    pub cpu_cores: usize,
    pub memory_bandwidth_gb_s: u64,
}

/// The cores to count on: those of a CPU surface, else those available, else 8.
pub open spec fn cores_of(surface: SurfaceState, available: Option<usize>) -> usize {
    match surface {
        SurfaceState::GenericLinuxCpu { cpu_cores, .. } => cpu_cores,
        SurfaceState::GenericUnixCpu { cpu_cores, .. } => cpu_cores,
        _ => match available {
            Some(n) => n,
            None => 8,
        },
    }
}

/// The memory bandwidth to count on: 150 GB/s, 500 GB/s, or 60 GB/s.
pub open spec fn bandwidth_of(surface: SurfaceState) -> u64 {
    match surface {
        SurfaceState::AppleSilicon { .. } => 0x4062_C000_0000_0000,
        SurfaceState::NvidiaGraceBlackwell { .. } => 0x407F_4000_0000_0000,
        _ => 0x404E_0000_0000_0000,
    }
}

/// The latency of a step: the time spent, and for prefill and decode work that there is,
/// its estimate and a fixed cost.
pub open spec fn cpu_latency_us(
    batch: BatchState,
    elapsed_us: u64,
    prefill_estimate_us: u64,
    decode_estimate_us: u64,
) -> int {
    elapsed_us + (if batch.prefill_tokens() > 0 {
        prefill_estimate_us + 18000
    } else {
        0
    }) + (if batch.decode_requests.len() > 0 {
        decode_estimate_us + 12000
    } else {
        0
    })
}

impl NativeCpuInferenceBackend {
    /// A backend for the given hardware.
    pub fn new(surface: ExecutionSurface, available: Option<usize>) -> (r: Self)
        ensures
            r.config@ == ModelState::initial(),
            r.surface@ == surface@,
            r.cpu_cores == cores_of(surface@, available),
            r.memory_bandwidth_gb_s == bandwidth_of(surface@),
    {
        let cpu_cores: usize = match &surface {
            ExecutionSurface::GenericLinuxCpu { cpu_cores, .. } => *cpu_cores,
            ExecutionSurface::GenericUnixCpu { cpu_cores, .. } => *cpu_cores,
            _ => match available {
                Some(n) => n,
                None => 8,
            },
        };
        let memory_bandwidth_gb_s: u64 = match &surface {
            ExecutionSurface::AppleSilicon { .. } => 0x4062_C000_0000_0000,
            ExecutionSurface::NvidiaGraceBlackwell { .. } => 0x407F_4000_0000_0000,
            _ => 0x404E_0000_0000_0000,
        };
        NativeCpuInferenceBackend {
            config: ModelConfig::default(),
            surface,
            cpu_cores,
            memory_bandwidth_gb_s,
        }
    }

    pub fn load_model(&mut self, config: &ModelConfig) -> (r: Result<(), String>)
        ensures
            r is Ok,
            final(self).config@ == config@,
            final(self).surface@ == old(self).surface@,
            final(self).cpu_cores == old(self).cpu_cores,
            final(self).memory_bandwidth_gb_s == old(self).memory_bandwidth_gb_s,
    {
        self.config = config.clone();
        Ok(())
    }

    /// Multiplications per prompt token.
    pub fn work_per_token(&self) -> (r: usize)
        requires
            self.config@.head_dim * self.config@.num_heads <= usize::MAX,
            self.config@.head_dim * self.config@.num_heads * self.config@.num_layers <= usize::MAX,
        ensures
            r == self.config@.head_dim * self.config@.num_heads * self.config@.num_layers,
    {
        self.config.head_dim * self.config.num_heads * self.config.num_layers
    }

    /// Bytes that a decode step over this many blocks reads.
    pub fn decode_bytes(&self, active_blocks: usize) -> (r: usize)
        requires
            active_blocks * self.config@.block_size <= usize::MAX,
            active_blocks * self.config@.block_size * self.config@.head_dim <= usize::MAX,
            active_blocks * self.config@.block_size * self.config@.head_dim * 2 <= usize::MAX,
        ensures
            r == active_blocks * self.config@.block_size * self.config@.head_dim * 2,
    {
        active_blocks * self.config.block_size * self.config.head_dim * 2
    }

    /// Answers every entry with a token mixed from its sequence and the step, at a
    /// log-probability of -0.04 for prefill and -0.02 for decode requests.
    pub fn execute_step(
        &self,
        batch: &ScheduledBatch,
        elapsed_us: u64,
        prefill_estimate_us: u64,
        decode_estimate_us: u64,
    ) -> (r: Result<(Vec<DecodeOutput>, StepMetrics), String>)
        requires
            batch@.counts_fit(),
            cpu_latency_us(batch@, elapsed_us, prefill_estimate_us, decode_estimate_us) <= u64::MAX,
        ensures
            r is Ok,
            r->Ok_0.0@ == answers(
                batch@,
                TokenRule::Mixed { step_id: batch@.step_id },
                0xBD23_D70A,
                0xBCA3_D70A,
            ),
            r->Ok_0.1 == batch@.metrics(
                cpu_latency_us(
                    batch@,
                    elapsed_us,
                    prefill_estimate_us,
                    decode_estimate_us,
                ) as u64,
            ),
    {
        let outputs = answer(
            batch,
            &TokenRule::Mixed { step_id: batch.step_id },
            0xBD23_D70A,
            0xBCA3_D70A,
        );
        let prefill_us: u64 = if batch.prefill_token_count() > 0 {
            prefill_estimate_us + 18000
        } else {
            0
        };
        let decode_us: u64 = if batch.decode_requests.len() > 0 {
            decode_estimate_us + 12000
        } else {
            0
        };
        Ok((outputs, batch.step_metrics(elapsed_us + prefill_us + decode_us)))
    }
}

/// Every backend that answers by rule gives each entry of a batch one token, in order.
pub proof fn law_one_answer_per_entry(
    batch: BatchState,
    rule: TokenRule,
    prefill_logprob: u32,
    decode_logprob: u32,
    i: int,
)
    ensures
        answers(batch, rule, prefill_logprob, decode_logprob).len() == batch.entries(),
        0 <= i < batch.prefill_requests.len() ==> answers(
            batch,
            rule,
            prefill_logprob,
            decode_logprob,
        )[i]->Token_request_id == batch.prefill_requests[i].request_id,
        0 <= i < batch.decode_requests.len() ==> answers(
            batch,
            rule,
            prefill_logprob,
            decode_logprob,
        )[batch.prefill_requests.len() + i]->Token_request_id == batch.decode_requests[i],
        0 <= i < batch.entries() ==> answers(
            batch,
            rule,
            prefill_logprob,
            decode_logprob,
        )[i] is Token,
{
}

/// Mixed tokens lie from 100 up to below 151743.
pub proof fn law_mixed_token_range(request_id: u64, step_id: u64)
    ensures
        100 <= mixed_token(request_id, step_id) < 151743,
{
}

} // verus!
