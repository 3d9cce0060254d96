//! That a text is written over the pages of a KV cache as it is written without.

use crate::abi::{DecodeOutput, RequestState};
use crate::agreement::{keeps_sizes, reads_counted_rows, row_by_row};
use crate::generation::lemma_new_blocks_reached;
use crate::kv_state::KvState;
use crate::layout::KvDType;
use crate::paging::{
    law_paged_pass_reads_text, law_paged_prefill_reads_text, law_pages_hold_on, pages_hold,
    pages_ready, reads_pages,
};
use crate::prefill::place_of;
use crate::tensor::TensorBackend;
use crate::transformer::{
    first_token, generate, generate_fits, generate_from, generation_fits, lacks_blocks, next_token,
    request_fits, step_prefill, take_token, with_token, Generating, Sampling, StepState,
};
use crate::weights::{TokensState, WeightsState};
use crate::writing::{choice, first_of, seed_of, tokens_of, written, written_out};
use vstd::prelude::*;

verus! {

/// A sequence stands at the end of a text in the pages of a KV cache: its tokens are those of
/// the text, the pages hold all of them but the last, and it keeps no rows itself.
pub open spec fn at_end_in_pages<T: TensorBackend>(
    b: T,
    w: WeightsState,
    text: Seq<u32>,
    kv: KvState,
    id: u64,
    s: TokensState,
) -> bool {
    &&& text.len() > 0
    &&& s.tokens == text
    &&& s.layers.len() == 0
    &&& pages_hold(b, w, text, text.len() - 1, kv, id)
}

/// The pass of a sequence that stands at the end of a text in pages gives the token that
/// follows the text, and then the pages hold all of it.
pub proof fn law_next_token_follows_pages<T: TensorBackend>(
    b: T,
    w: WeightsState,
    how: Sampling,
    step: int,
    text: Seq<u32>,
    s: Generating,
)
    requires
        keeps_sizes(b),
        reads_pages(b),
        w.config.widths_fit(),
        s.kv is Some,
        s.seqs.contains_key(how.id),
        at_end_in_pages(b, w, text, s.kv->0, how.id, s.seqs[how.id]),
        s.kv->0.append_possible(how.id),
        s.kv->0.append_fits(how.id),
        text.len() <= usize::MAX,
        0 <= step,
    ensures
        ({
            let (token, passed) = next_token(b, w, how, step, s);
            &&& token == choice(b, w, text, how.temperature, seed_of(how.id, step)).0
            &&& passed.kv is Some
            &&& passed.heard == s.heard
            &&& passed.seqs.dom() == s.seqs.dom()
            &&& passed.seqs[how.id].tokens == text
            &&& passed.seqs[how.id].layers.len() == 0
            &&& pages_hold(b, w, text, text.len() as int, passed.kv->0, how.id)
            &&& forall|id: u64| id != how.id ==> #[trigger] passed.seqs[id] == s.seqs[id]
        }),
{
    let seq = s.seqs[how.id];
    law_paged_pass_reads_text(b, w, text, text.len() - 1, how.id, s.kv->0, seq.layers);
    let (token, passed) = next_token(b, w, how, step, s);
    assert(passed.seqs.dom() =~= s.seqs.dom());
}

proof fn lemma_writes_on<T: TensorBackend>(
    b: T,
    w: WeightsState,
    how: Sampling,
    answers: Seq<bool>,
    prompt: Seq<u32>,
    step: int,
    s: Generating,
)
    requires
        keeps_sizes(b),
        reads_pages(b),
        w.layers.len() > 0,
        w.config.widths_fit(),
        1 <= step,
        s.kv is Some,
        s.heard.len() == step,
        s.heard[step - 1].1,
        s.seqs.contains_key(how.id),
        at_end_in_pages(b, w, prompt + tokens_of(s.heard), s.kv->0, how.id, s.seqs[how.id]),
        generation_fits(b, w, how, step, s.kv, s.seqs),
        written(b, w, how, answers, prompt, s.heard),
        prompt.len() + how.max_tokens <= usize::MAX,
        step <= how.max_tokens || step == 1,
        prompt.len() + 1 <= usize::MAX,
    ensures
        ({
            let heard = generate_from(b, w, how, answers, step, s).heard;
            &&& written(b, w, how, answers, prompt, heard)
            &&& written_out(b, w, how, prompt, heard)
        }),
    decreases how.max_tokens - step,
{
    if step < how.max_tokens {
        let text = prompt + tokens_of(s.heard);
        law_next_token_follows_pages(b, w, how, step, text, s);
        let (token, passed) = next_token(b, w, how, step, s);
        let (taken, more) = take_token(how, answers, token, passed);
        if !how.stop.contains(token) {
            let heard = taken.heard;
            assert(heard == s.heard.push((token, more)));
            assert forall|k: int| 0 <= k < heard.len() implies (#[trigger] heard[k]) == (
                choice(
                    b,
                    w,
                    prompt + tokens_of(heard.take(k)),
                    how.temperature,
                    seed_of(how.id, k),
                ).0,
                answers[k],
            ) by {
                if k < step {
                    assert(heard.take(k) =~= s.heard.take(k));
                    assert(heard[k] == s.heard[k]);
                } else {
                    assert(heard.take(k) =~= s.heard);
                }
            }
            if more {
                assert(prompt + tokens_of(heard) =~= text.push(token));
                assert(text.is_prefix_of(text.push(token)));
                law_pages_hold_on(
                    b,
                    w,
                    text,
                    text.push(token),
                    text.len() as int,
                    passed.kv->0,
                    how.id,
                );
                assert(taken.seqs == with_token(passed.seqs, how.id, token));
                lemma_writes_on(b, w, how, answers, prompt, step + 1, taken);
            }
        }
    }
}

/// The blocks of a new sequence are ready for its prompt.
proof fn lemma_pages_for_prompt(w: WeightsState, n: int, kv: KvState, id: u64)
    requires
        kv.wf(),
        0 <= n <= usize::MAX,
        kv.allocate_fits(n),
        !kv.tables.contains_key(id),
        kv.blocks_needed(n) <= kv.free.len(),
        kv.pool is Some,
        kv.pool->0.config.dtype == KvDType::Fp32,
        kv.pool->0.config.block_size == kv.block_size,
        kv.pool->0.kv_dim() == w.config.num_kv_heads * w.config.head_dim,
        w.layers.len() <= kv.pool->0.layout.num_layers,
    ensures
        pages_ready(w, n, kv.allocate(id, n), id),
        kv.allocate(id, n).block_size == kv.block_size,
{
    let opened = kv.allocate(id, n);
    kv.lemma_allocate_wf(id, n);
    kv.lemma_fill_shape(n, kv.blocks_needed(n));
    lemma_new_blocks_reached(kv, id, n);
    let blocks = opened.tables[id].block_ids;
    assert forall|t: int| 0 <= t < opened.tables[id].total_tokens implies
        #[trigger] opened.reaches_token(id, t) by {
        assert(opened.pool_reaches(place_of(blocks, kv.block_size, t).0 as int));
    }
}

/// A text is written token by token over the pages of a KV cache: where there are blocks for
/// the prompt, each token that is handed over is the one that the prompt and all tokens before
/// it give, whatever the answers to them, and the writing ends only for a reason.
pub proof fn law_text_is_written_in_pages<T: TensorBackend>(
    b: T,
    w: WeightsState,
    how: Sampling,
    answers: Seq<bool>,
    prompt: Seq<u32>,
    kv: KvState,
    seqs: Map<u64, TokensState>,
)
    requires
        keeps_sizes(b),
        row_by_row(b),
        reads_counted_rows(b),
        reads_pages(b),
        w.layers.len() > 0,
        2 <= prompt.len(),
        prompt.len() + how.max_tokens <= usize::MAX,
        prompt.len() + 1 <= usize::MAX,
        !seqs.contains_key(how.id),
        !kv.tables.contains_key(how.id),
        !lacks_blocks(Some(kv), how.id, prompt.len() as int),
        generate_fits(b, w, how, prompt, Some(kv), seqs),
        kv.block_size == w.config.block_size,
        kv.pool is Some,
        kv.pool->0.config.dtype == KvDType::Fp32,
        kv.pool->0.config.block_size == kv.block_size,
    ensures
        ({
            let heard = generate(
                b,
                w,
                how,
                answers,
                prompt,
                Generating { kv: Some(kv), seqs, heard: Seq::empty() },
            ).heard;
            &&& written(b, w, how, answers, prompt, heard)
            &&& written_out(b, w, how, prompt, heard)
        }),
{
    let n = prompt.len() as int;
    let s = Generating { kv: Some(kv), seqs, heard: Seq::empty() };
    let fresh = TokensState::empty(w.config.num_layers as int);
    let opened = kv.allocate(how.id, n);
    kv.lemma_fill_shape(n, kv.blocks_needed(n));
    lemma_pages_for_prompt(w, n, kv, how.id);
    law_paged_prefill_reads_text(b, w, prompt, how.id, opened, fresh);
    assert(fresh.tokens + prompt =~= prompt);
    let (token, passed) = first_token(b, w, how, prompt, s);
    assert(prompt + tokens_of(s.heard) =~= prompt);
    assert(token == choice(b, w, prompt, how.temperature, seed_of(how.id, 0)).0);
    let (taken, more) = take_token(how, answers, token, passed);
    if !how.stop.contains(token) {
        let heard = taken.heard;
        assert(heard == s.heard.push((token, more)));
        assert forall|k: int| 0 <= k < heard.len() implies (#[trigger] heard[k]) == (
            choice(
                b,
                w,
                prompt + tokens_of(heard.take(k)),
                how.temperature,
                seed_of(how.id, k),
            ).0,
            answers[k],
        ) by {
            assert(heard.take(k) =~= s.heard);
        }
        if more {
            assert(prompt + tokens_of(heard) =~= prompt.push(token));
            assert(prompt.is_prefix_of(prompt.push(token)));
            law_pages_hold_on(b, w, prompt, prompt.push(token), n, passed.kv->0, how.id);
            assert(taken.seqs == with_token(passed.seqs, how.id, token));
            lemma_writes_on(b, w, how, answers, prompt, 1, taken);
        }
    }
}

/// A new prompt of a step, for which there are blocks, is answered with the token that follows
/// it at its own temperature, and stands in pages at the end of the prompt with that token.
pub proof fn law_paged_prefill_follows_prompt<T: TensorBackend>(
    b: T,
    w: WeightsState,
    request: RequestState,
    s: StepState,
)
    requires
        keeps_sizes(b),
        row_by_row(b),
        reads_counted_rows(b),
        w.layers.len() > 0,
        s.kv is Some,
        !s.seqs.contains_key(request.request_id),
        !s.kv->0.tables.contains_key(request.request_id),
        2 <= request.prompt_tokens.len() < usize::MAX,
        s.kv->0.blocks_needed(request.prompt_tokens.len() as int) <= s.kv->0.free.len(),
        request_fits(w, request, s),
        s.kv->0.block_size == w.config.block_size,
        s.kv->0.pool is Some,
        s.kv->0.pool->0.config.dtype == KvDType::Fp32,
        s.kv->0.pool->0.config.block_size == s.kv->0.block_size,
    ensures
        ({
            let done = step_prefill(b, w, request, s);
            let (token, logprob) = first_of(b, w, request);
            let id = request.request_id;
            &&& done.outputs == s.outputs.push(
                DecodeOutput::Token { request_id: id, token_id: token, logprob: Some(logprob) },
            )
            &&& done.kv is Some
            &&& done.seqs.dom() == s.seqs.dom().insert(id)
            &&& at_end_in_pages(
                b,
                w,
                request.prompt_tokens.push(token),
                done.kv->0,
                id,
                done.seqs[id],
            )
            &&& forall|other: u64| other != id ==> #[trigger] done.seqs[other] == s.seqs[other]
        }),
{
    let prompt = request.prompt_tokens;
    let n = prompt.len() as int;
    let id = request.request_id;
    let kv = s.kv->0;
    let fresh = TokensState::empty(w.config.num_layers as int);
    let opened = kv.allocate(id, n);
    kv.lemma_fill_shape(n, kv.blocks_needed(n));
    lemma_pages_for_prompt(w, n, kv, id);
    law_paged_prefill_reads_text(b, w, prompt, id, opened, fresh);
    assert(fresh.tokens + prompt =~= prompt);
    let done = step_prefill(b, w, request, s);
    let (token, logprob) = first_of(b, w, request);
    assert(prompt.is_prefix_of(prompt.push(token)));
    law_pages_hold_on(b, w, prompt, prompt.push(token), n, done.kv->0, id);
    assert(done.seqs.dom() =~= s.seqs.dom().insert(id));
}

} // verus!
