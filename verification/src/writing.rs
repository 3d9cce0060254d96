//! That a text is written token by token: every token is what the text before it gives.

use crate::abi::{BatchState, DecodeOutput, FinishReason, RequestState};
use crate::agreement::{keeps_sizes, reads_counted_rows, row_by_row};
use crate::batching::{law_decode_is_each_alone, works_row_by_row};
use crate::decode::{decode_fits, decode_pass};
use crate::generation::{handed_over, law_tokens_handed_over};
use crate::model::{
    holds_text, law_caches_hold_on, law_pass_reads_text, law_prefill_reads_text, logits_after,
    meaning,
};
use crate::tensor::TensorBackend;
use crate::transformer::{
    first_token, generate, generate_fits, generate_from, next_token, requests_fit, step_fits,
    step_prefill, step_prefills, take_token, whole_step, Generating, Sampling, StepState,
};
use crate::weights::{CacheState, TokensState, WeightsState};
use vstd::prelude::*;

verus! {

/// The token that follows a text, with its log-probability: at a temperature of at most 0.001,
/// as an `f32` orders it, the most likely one, else one that is drawn at that temperature.
pub open spec fn choice<T: TensorBackend>(
    b: T,
    w: WeightsState,
    text: Seq<u32>,
    temperature: u32,
    seed: u64,
) -> (u32, u32) {
    if temperature <= 0x3A83_126F || 0x8000_0000 <= temperature <= 0xFF80_0000 {
        b.greedy(logits_after(b, w, text))
    } else {
        b.drawn(logits_after(b, w, text), temperature, seed)
    }
}

/// The tokens among what was heard.
pub open spec fn tokens_of(heard: Seq<(u32, bool)>) -> Seq<u32> {
    heard.map_values(|h: (u32, bool)| h.0)
}

/// The seed of token `k`.
pub open spec fn seed_of(id: u64, k: int) -> u64 {
    ((id + k) % 0x1_0000_0000_0000_0000) as u64
}

/// Every token that was handed over is the one that the prompt and the tokens before it give.
pub open spec fn written<T: TensorBackend>(
    b: T,
    w: WeightsState,
    how: Sampling,
    answers: Seq<bool>,
    prompt: Seq<u32>,
    heard: Seq<(u32, bool)>,
) -> bool {
    forall|k: int|
        0 <= k < heard.len() ==> (#[trigger] heard[k]) == (
            choice(
                b,
                w,
                prompt + tokens_of(heard.take(k)),
                how.temperature,
                seed_of(how.id, k),
            ).0,
            answers[k],
        )
}

/// Nothing more is to be handed over: there is a token and no more were asked for, or the last
/// one was answered so, or the one that would follow is a stop token.
pub open spec fn written_out<T: TensorBackend>(
    b: T,
    w: WeightsState,
    how: Sampling,
    prompt: Seq<u32>,
    heard: Seq<(u32, bool)>,
) -> bool {
    let n = heard.len() as int;
    ||| n >= 1 && n >= how.max_tokens
    ||| n >= 1 && !heard[n - 1].1
    ||| how.stop.contains(
        choice(b, w, prompt + tokens_of(heard), how.temperature, seed_of(how.id, n)).0,
    )
}

/// A sequence stands at the end of a text: its tokens are those of the text, and its caches
/// hold all of them but the last, which is passed next.
pub open spec fn at_end_of<T: TensorBackend>(
    b: T,
    w: WeightsState,
    text: Seq<u32>,
    s: TokensState,
) -> bool {
    &&& text.len() > 0
    &&& s.tokens == text
    &&& holds_text(b, w, text, text.len() - 1, s.layers)
}

/// A text that a sequence stands at the end of, and one token more.
pub proof fn lemma_one_token_more<T: TensorBackend>(
    b: T,
    w: WeightsState,
    text: Seq<u32>,
    token: u32,
    layers: Seq<CacheState>,
)
    requires
        holds_text(b, w, text, text.len() as int, layers),
    ensures
        at_end_of(b, w, text.push(token), TokensState { tokens: text.push(token), layers }),
{
    assert(text.is_prefix_of(text.push(token)));
    law_caches_hold_on(b, w, text, text.push(token), text.len() as int, layers);
}

/// The pass of a sequence that stands at the end of a text gives the token that follows the
/// text, and then the caches hold all of it.
pub proof fn law_next_token_follows_text<T: TensorBackend>(
    b: T,
    w: WeightsState,
    how: Sampling,
    step: int,
    text: Seq<u32>,
    s: Generating,
)
    requires
        s.kv is None,
        s.seqs.contains_key(how.id),
        at_end_of(b, w, text, s.seqs[how.id]),
        text.len() <= usize::MAX,
        0 <= step,
    ensures
        ({
            let (token, passed) = next_token(b, w, how, step, s);
            &&& token == choice(b, w, text, how.temperature, seed_of(how.id, step)).0
            &&& passed.kv is None
            &&& passed.heard == s.heard
            &&& passed.seqs.dom() == s.seqs.dom()
            &&& passed.seqs[how.id].tokens == text
            &&& holds_text(b, w, text, text.len() as int, passed.seqs[how.id].layers)
            &&& forall|id: u64| id != how.id ==> #[trigger] passed.seqs[id] == s.seqs[id]
        }),
{
    let seq = s.seqs[how.id];
    law_pass_reads_text(b, w, text, text.len() - 1, how.id, None, seq.layers);
    let (token, passed) = next_token(b, w, how, step, s);
    assert(passed.seqs.dom() =~= s.seqs.dom());
}

proof fn lemma_writes_on<T: TensorBackend>(
    b: T,
    w: WeightsState,
    how: Sampling,
    answers: Seq<bool>,
    prompt: Seq<u32>,
    step: int,
    s: Generating,
)
    requires
        1 <= step,
        s.kv is None,
        s.heard.len() == step,
        s.heard[step - 1].1,
        s.seqs.contains_key(how.id),
        at_end_of(b, w, prompt + tokens_of(s.heard), s.seqs[how.id]),
        written(b, w, how, answers, prompt, s.heard),
        prompt.len() + how.max_tokens <= usize::MAX,
        step <= how.max_tokens || step == 1,
        prompt.len() + 1 <= usize::MAX,
    ensures
        ({
            let heard = generate_from(b, w, how, answers, step, s).heard;
            &&& written(b, w, how, answers, prompt, heard)
            &&& written_out(b, w, how, prompt, heard)
        }),
    decreases how.max_tokens - step,
{
    if step < how.max_tokens {
        let text = prompt + tokens_of(s.heard);
        law_next_token_follows_text(b, w, how, step, text, s);
        let (token, passed) = next_token(b, w, how, step, s);
        let (taken, more) = take_token(how, answers, token, passed);
        if !how.stop.contains(token) {
            let heard = taken.heard;
            assert(heard == s.heard.push((token, more)));
            assert forall|k: int| 0 <= k < heard.len() implies (#[trigger] heard[k]) == (
                choice(
                    b,
                    w,
                    prompt + tokens_of(heard.take(k)),
                    how.temperature,
                    seed_of(how.id, k),
                ).0,
                answers[k],
            ) by {
                if k < step {
                    assert(heard.take(k) =~= s.heard.take(k));
                    assert(heard[k] == s.heard[k]);
                } else {
                    assert(heard.take(k) =~= s.heard);
                }
            }
            if more {
                assert(prompt + tokens_of(heard) =~= text.push(token));
                lemma_one_token_more(b, w, text, token, passed.seqs[how.id].layers);
                lemma_writes_on(b, w, how, answers, prompt, step + 1, taken);
            }
        }
    }
}

/// A text is written token by token: without a KV cache, each token that is handed over is the
/// one that the prompt and all tokens before it give, whatever the answers to them, and the
/// writing ends only for a reason.
pub proof fn law_text_is_written<T: TensorBackend>(
    b: T,
    w: WeightsState,
    how: Sampling,
    answers: Seq<bool>,
    prompt: Seq<u32>,
    seqs: Map<u64, TokensState>,
)
    requires
        keeps_sizes(b),
        row_by_row(b),
        reads_counted_rows(b),
        0 < prompt.len(),
        prompt.len() + how.max_tokens <= usize::MAX,
        prompt.len() + 1 <= usize::MAX,
        !seqs.contains_key(how.id),
        generate_fits(b, w, how, prompt, None, seqs),
    ensures
        ({
            let heard = generate(
                b,
                w,
                how,
                answers,
                prompt,
                Generating { kv: None, seqs, heard: Seq::empty() },
            ).heard;
            &&& written(b, w, how, answers, prompt, heard)
            &&& written_out(b, w, how, prompt, heard)
        }),
{
    let s = Generating { kv: None, seqs, heard: Seq::empty() };
    let fresh = TokensState::empty(w.config.num_layers as int);
    assert(w.takes_all(prompt)) by {
        if prompt.len() == 1 {
            assert(w.takes(prompt[0]));
        }
    }
    law_prefill_reads_text(b, w, prompt, how.id, fresh);
    assert(fresh.tokens + prompt =~= prompt);
    let (token, passed) = first_token(b, w, how, prompt, s);
    assert(prompt + tokens_of(s.heard) =~= prompt);
    assert(token == choice(b, w, prompt, how.temperature, seed_of(how.id, 0)).0);
    let (taken, more) = take_token(how, answers, token, passed);
    if !how.stop.contains(token) {
        let heard = taken.heard;
        assert(heard == s.heard.push((token, more)));
        assert forall|k: int| 0 <= k < heard.len() implies (#[trigger] heard[k]) == (
            choice(
                b,
                w,
                prompt + tokens_of(heard.take(k)),
                how.temperature,
                seed_of(how.id, k),
            ).0,
            answers[k],
        ) by {
            assert(heard.take(k) =~= s.heard);
        }
        if more {
            assert(prompt + tokens_of(heard) =~= prompt.push(token));
            lemma_one_token_more(b, w, prompt, token, passed.seqs[how.id].layers);
            lemma_writes_on(b, w, how, answers, prompt, 1, taken);
        }
    }
}

// ---- Decode steps ----
/// What a decode step answers a sequence whose next token is this one.
pub open spec fn answer(id: u64, tokens: nat, token: u32, logprob: u32) -> DecodeOutput {
    if token == 0 || token == 1 || token == 2 {
        DecodeOutput::Finished {
            request_id: id,
            reason: FinishReason::StopToken,
            total_tokens: (tokens + 1) as usize,
        }
    } else {
        DecodeOutput::Token { request_id: id, token_id: token, logprob: Some(logprob) }
    }
}

/// The most likely token after a text, as a batch scores it.
pub open spec fn likeliest<T: TensorBackend>(b: T, w: WeightsState, text: Seq<u32>) -> (u32, u32) {
    b.greedy(
        b.projected(
            meaning(b, w, text),
            w.lm_head,
            w.config.vocab(),
            w.config.hidden() as usize,
        ),
    )
}

/// A decode step answers each sequence that stands at the end of a text with the most likely
/// token after that text, and leaves it at the end of the text with that token.
pub proof fn law_decode_follows_texts<T: TensorBackend>(
    b: T,
    w: WeightsState,
    ids: Seq<u64>,
    seqs: Map<u64, TokensState>,
    i: int,
    text: Seq<u32>,
)
    requires
        works_row_by_row(b),
        ids.no_duplicates(),
        ids.len() <= usize::MAX,
        decode_fits(w, ids, None, seqs),
        forall|j: int| 0 <= j < ids.len() ==> seqs.contains_key(#[trigger] ids[j]),
        0 <= i < ids.len(),
        at_end_of(b, w, text, seqs[ids[i]]),
        text.len() <= usize::MAX,
    ensures
        ({
            let done = decode_pass(b, w, ids, None, seqs);
            let (token, logprob) = likeliest(b, w, text);
            &&& done.outputs.len() == ids.len()
            &&& done.outputs[i] == answer(ids[i], text.len(), token, logprob)
            &&& done.seqs.contains_key(ids[i])
            &&& at_end_of(b, w, text.push(token), done.seqs[ids[i]])
        }),
{
    law_decode_is_each_alone(b, w, ids, seqs, i);
    law_pass_reads_text(b, w, text, text.len() - 1, ids[i], None, seqs[ids[i]].layers);
    let done = decode_pass(b, w, ids, None, seqs);
    let (token, logprob) = likeliest(b, w, text);
    lemma_one_token_more(b, w, text, token, done.seqs[ids[i]].layers);
}

// ---- Steps ----
/// New sequences under distinct identifiers, each with a prompt.
pub open spec fn are_new(requests: Seq<RequestState>, seqs: Map<u64, TokensState>) -> bool {
    &&& forall|i: int|
        #![trigger requests[i]]
        0 <= i < requests.len() ==> {
            &&& !seqs.contains_key(requests[i].request_id)
            &&& 0 < requests[i].prompt_tokens.len() < usize::MAX
        }
    &&& forall|i: int, j: int|
        #![trigger requests[i], requests[j]]
        0 <= i < j < requests.len() ==> requests[i].request_id != requests[j].request_id
}

/// The token that a request is answered with first.
pub open spec fn first_of<T: TensorBackend>(b: T, w: WeightsState, request: RequestState) -> (
    u32,
    u32,
) {
    choice(
        b,
        w,
        request.prompt_tokens,
        request.sampling_params.temperature,
        request.request_id,
    )
}

proof fn lemma_prefill_answers<T: TensorBackend>(
    b: T,
    w: WeightsState,
    request: RequestState,
    s: StepState,
)
    requires
        keeps_sizes(b),
        row_by_row(b),
        reads_counted_rows(b),
        s.kv is None,
        !s.seqs.contains_key(request.request_id),
        0 < request.prompt_tokens.len() < usize::MAX,
        crate::transformer::request_fits(w, request, s),
    ensures
        ({
            let done = step_prefill(b, w, request, s);
            let (token, logprob) = first_of(b, w, request);
            let id = request.request_id;
            &&& done.kv is None
            &&& done.outputs == s.outputs.push(
                DecodeOutput::Token { request_id: id, token_id: token, logprob: Some(logprob) },
            )
            &&& done.seqs.dom() == s.seqs.dom().insert(id)
            &&& at_end_of(b, w, request.prompt_tokens.push(token), done.seqs[id])
            &&& forall|other: u64| other != id ==> #[trigger] done.seqs[other] == s.seqs[other]
        }),
{
    let prompt = request.prompt_tokens;
    let fresh = TokensState::empty(w.config.num_layers as int);
    assert(w.takes_all(prompt)) by {
        if prompt.len() == 1 {
            assert(w.takes(prompt[0]));
        }
    }
    law_prefill_reads_text(b, w, prompt, request.request_id, fresh);
    assert(fresh.tokens + prompt =~= prompt);
    let done = step_prefill(b, w, request, s);
    let (token, logprob) = first_of(b, w, request);
    lemma_one_token_more(b, w, prompt, token, done.seqs[request.request_id].layers);
    assert(done.seqs.dom() =~= s.seqs.dom().insert(request.request_id));
}

/// The prefill requests of a step are each answered with the token that follows its prompt, at
/// its own temperature, and stand at the end of the prompt with that token.
pub proof fn law_prefills_follow_prompts<T: TensorBackend>(
    b: T,
    w: WeightsState,
    requests: Seq<RequestState>,
    s: StepState,
)
    requires
        keeps_sizes(b),
        row_by_row(b),
        reads_counted_rows(b),
        s.kv is None,
        are_new(requests, s.seqs),
        requests_fit(b, w, requests, s),
    ensures
        ({
            let done = step_prefills(b, w, requests, s);
            &&& done.kv is None
            &&& done.outputs.len() == s.outputs.len() + requests.len()
            &&& forall|i: int|
                0 <= i < s.outputs.len() ==> #[trigger] done.outputs[i] == s.outputs[i]
            &&& forall|i: int|
                #![trigger requests[i]]
                0 <= i < requests.len() ==> {
                    let (token, logprob) = first_of(b, w, requests[i]);
                    let id = requests[i].request_id;
                    &&& done.outputs[s.outputs.len() + i] == (DecodeOutput::Token {
                        request_id: id,
                        token_id: token,
                        logprob: Some(logprob),
                    })
                    &&& done.seqs.contains_key(id)
                    &&& at_end_of(
                        b,
                        w,
                        requests[i].prompt_tokens.push(token),
                        done.seqs[id],
                    )
                }
            &&& forall|id: u64| #[trigger]
                s.seqs.contains_key(id) ==> done.seqs.contains_key(id) && done.seqs[id]
                    == s.seqs[id]
        }),
    decreases requests.len(),
{
    if requests.len() > 0 {
        let head = requests[0];
        let rest = requests.subrange(1, requests.len() as int);
        let next = step_prefill(b, w, head, s);
        lemma_prefill_answers(b, w, head, s);
        assert(are_new(rest, next.seqs)) by {
            assert forall|i: int| #![trigger rest[i]] 0 <= i < rest.len() implies {
                &&& !next.seqs.contains_key(rest[i].request_id)
                &&& 0 < rest[i].prompt_tokens.len() < usize::MAX
            } by {
                assert(rest[i] == requests[i + 1]);
                assert(requests[0].request_id != requests[i + 1].request_id);
                assert(!s.seqs.dom().contains(requests[i + 1].request_id));
            }
            assert forall|i: int, j: int|
                #![trigger rest[i], rest[j]]
                0 <= i < j < rest.len() implies rest[i].request_id != rest[j].request_id by {
                assert(rest[i] == requests[i + 1]);
                assert(rest[j] == requests[j + 1]);
            }
        }
        law_prefills_follow_prompts(b, w, rest, next);
        let done = step_prefills(b, w, requests, s);
        assert(done == step_prefills(b, w, rest, next));
        assert forall|i: int| 0 <= i < s.outputs.len() implies #[trigger] done.outputs[i]
            == s.outputs[i] by {
            assert(next.outputs[i] == s.outputs[i]);
        }
        assert(next.seqs.dom().contains(head.request_id));
        assert(next.seqs.contains_key(head.request_id));
        assert forall|i: int| #![trigger requests[i]] 0 <= i < requests.len() implies {
            let (token, logprob) = first_of(b, w, requests[i]);
            let id = requests[i].request_id;
            &&& done.outputs[s.outputs.len() + i] == (DecodeOutput::Token {
                request_id: id,
                token_id: token,
                logprob: Some(logprob),
            })
            &&& done.seqs.contains_key(id)
            &&& at_end_of(b, w, requests[i].prompt_tokens.push(token), done.seqs[id])
        } by {
            if i > 0 {
                assert(rest[i - 1] == requests[i]);
                assert(next.outputs.len() + (i - 1) == s.outputs.len() + i);
            } else {
                assert(next.outputs[s.outputs.len() as int] == done.outputs[s.outputs.len() as int]);
            }
        }
        assert forall|id: u64| #[trigger] s.seqs.contains_key(id) implies done.seqs.contains_key(id)
            && done.seqs[id] == s.seqs[id] by {
            assert(next.seqs.dom().contains(id));
            assert(next.seqs.contains_key(id));
            assert(id != head.request_id);
        }
    }
}

/// A whole step without a KV cache answers new prompts with the token that follows each at its
/// own temperature, and then each sequence at the end of a text with the most likely token
/// after it; all stand at the end of their texts with those tokens.
pub proof fn law_step_follows_texts<T: TensorBackend>(
    b: T,
    w: WeightsState,
    batch: BatchState,
    seqs: Map<u64, TokensState>,
    texts: Map<u64, Seq<u32>>,
)
    requires
        works_row_by_row(b),
        reads_counted_rows(b),
        step_fits(b, w, batch, None, seqs),
        are_new(batch.prefill_requests, seqs),
        batch.decode_requests.no_duplicates(),
        batch.decode_requests.len() <= usize::MAX,
        forall|j: int|
            #![trigger batch.decode_requests[j]]
            0 <= j < batch.decode_requests.len() ==> {
                let id = batch.decode_requests[j];
                &&& seqs.contains_key(id)
                &&& at_end_of(b, w, texts[id], seqs[id])
                &&& texts[id].len() <= usize::MAX
            },
    ensures
        ({
            let done = whole_step(b, w, batch, None, seqs);
            let n = batch.prefill_requests.len();
            &&& done.outputs.len() == n + batch.decode_requests.len()
            &&& forall|i: int|
                #![trigger batch.prefill_requests[i]]
                0 <= i < n ==> {
                    let (token, logprob) = first_of(b, w, batch.prefill_requests[i]);
                    done.outputs[i] == (DecodeOutput::Token {
                        request_id: batch.prefill_requests[i].request_id,
                        token_id: token,
                        logprob: Some(logprob),
                    })
                }
            &&& forall|j: int|
                #![trigger batch.decode_requests[j]]
                0 <= j < batch.decode_requests.len() ==> {
                    let id = batch.decode_requests[j];
                    let (token, logprob) = likeliest(b, w, texts[id]);
                    &&& done.outputs[n + j] == answer(id, texts[id].len(), token, logprob)
                    &&& at_end_of(b, w, texts[id].push(token), done.seqs[id])
                }
        }),
{
    let start = StepState { kv: None, seqs, outputs: Seq::empty() };
    let ids = batch.decode_requests;
    law_prefills_follow_prompts(b, w, batch.prefill_requests, start);
    let s = step_prefills(b, w, batch.prefill_requests, start);
    assert forall|j: int| 0 <= j < ids.len() implies s.seqs.contains_key(#[trigger] ids[j]) by {
        assert(seqs.contains_key(batch.decode_requests[j]));
    }
    assert forall|j: int| #![trigger batch.decode_requests[j]] 0 <= j < ids.len() implies {
        let id = batch.decode_requests[j];
        let done = whole_step(b, w, batch, None, seqs);
        let (token, logprob) = likeliest(b, w, texts[id]);
        &&& done.outputs[batch.prefill_requests.len() + j] == answer(
            id,
            texts[id].len(),
            token,
            logprob,
        )
        &&& at_end_of(b, w, texts[id].push(token), done.seqs[id])
    } by {
        let id = batch.decode_requests[j];
        assert(seqs.contains_key(id));
        law_decode_follows_texts(b, w, ids, s.seqs, j, texts[id]);
    }
    if ids.len() > 0 {
        let id = batch.decode_requests[0];
        assert(seqs.contains_key(id));
        law_decode_follows_texts(b, w, ids, s.seqs, 0, texts[id]);
    }
}

// ---- Writing on ----
/// Two texts that were written under one prompt agree as far as both go.
proof fn lemma_written_alike<T: TensorBackend>(
    b: T,
    w: WeightsState,
    how: Sampling,
    other: Sampling,
    answers: Seq<bool>,
    prompt: Seq<u32>,
    a: Seq<(u32, bool)>,
    c: Seq<(u32, bool)>,
    n: int,
)
    requires
        how.id == other.id,
        how.temperature == other.temperature,
        written(b, w, how, answers, prompt, a),
        written(b, w, other, answers, prompt, c),
        0 <= n <= a.len(),
        n <= c.len(),
    ensures
        a.take(n) == c.take(n),
    decreases n,
{
    if n > 0 {
        lemma_written_alike(b, w, how, other, answers, prompt, a, c, n - 1);
        assert(a[n - 1] == c[n - 1]);
        assert(a.take(n) =~= a.take(n - 1).push(a[n - 1]));
        assert(c.take(n) =~= c.take(n - 1).push(c[n - 1]));
    }
}

/// There is one way to write a text.
proof fn lemma_written_once<T: TensorBackend>(
    b: T,
    w: WeightsState,
    how: Sampling,
    answers: Seq<bool>,
    prompt: Seq<u32>,
    a: Seq<(u32, bool)>,
    c: Seq<(u32, bool)>,
)
    requires
        written(b, w, how, answers, prompt, a),
        written(b, w, how, answers, prompt, c),
        written_out(b, w, how, prompt, a),
        handed_over(how, answers, c),
        a.len() <= c.len(),
        c.len() <= 1 || c.len() <= how.max_tokens,
    ensures
        a == c,
{
    let n = a.len() as int;
    lemma_written_alike(b, w, how, how, answers, prompt, a, c, n);
    assert(a.take(n) =~= a);
    if a.len() < c.len() {
        assert(c.take(n) == a);
        assert(c[n].0 == choice(b, w, prompt + tokens_of(a), how.temperature, seed_of(how.id, n)).0);
        assert(!how.stop.contains(c[n].0));
        if n >= 1 {
            assert(c.take(n)[n - 1] == c[n - 1]);
            assert(a[n - 1] == c[n - 1]);
            assert(c[n - 1].1);
        }
    }
    assert(c.take(n) =~= c);
}

/// Where nothing is drawn, what is written from a prompt with a text behind it goes behind that
/// text.
proof fn lemma_written_behind<T: TensorBackend>(
    b: T,
    w: WeightsState,
    how: Sampling,
    m: int,
    answers: Seq<bool>,
    prompt: Seq<u32>,
    begun: Seq<(u32, bool)>,
    rest: Seq<(u32, bool)>,
)
    requires
        how.temperature <= 0x3A83_126F || 0x8000_0000 <= how.temperature <= 0xFF80_0000,
        how.max_tokens == begun.len() + m,
        answers.len() >= begun.len() + rest.len(),
        forall|k: int| 0 <= k < answers.len() ==> #[trigger] answers[k],
        written(b, w, how, answers, prompt, begun),
        handed_over(how, answers, begun),
        written(b, w, how, answers, prompt + tokens_of(begun), rest),
        handed_over(how, answers, rest),
        written_out(
            b,
            w,
            Sampling { max_tokens: m, ..how },
            prompt + tokens_of(begun),
            rest,
        ),
    ensures
        written(b, w, how, answers, prompt, begun + rest),
        handed_over(how, answers, begun + rest),
        written_out(b, w, how, prompt, begun + rest),
{
    let n = begun.len() as int;
    let joined = begun + rest;
    let middle = prompt + tokens_of(begun);
    assert forall|k: int| 0 <= k < joined.len() implies (#[trigger] joined[k]) == (
        choice(
            b,
            w,
            prompt + tokens_of(joined.take(k)),
            how.temperature,
            seed_of(how.id, k),
        ).0,
        answers[k],
    ) by {
        if k < n {
            assert(joined.take(k) =~= begun.take(k));
            assert(joined[k] == begun[k]);
        } else {
            assert(joined[k] == rest[k - n]);
            assert(prompt + tokens_of(joined.take(k)) =~= middle + tokens_of(rest.take(k - n)));
            assert(answers[k - n] && answers[k]);
        }
    }
    assert forall|k: int| 0 <= k < joined.len() implies {
        &&& !how.stop.contains((#[trigger] joined[k]).0)
        &&& joined[k].1 == answers[k]
        &&& k < joined.len() - 1 ==> joined[k].1
    } by {
        if k < n {
            assert(joined[k] == begun[k]);
        } else {
            assert(joined[k] == rest[k - n]);
        }
        assert(answers[k]);
    }
    assert(prompt + tokens_of(joined) =~= middle + tokens_of(rest));
    let r = rest.len() as int;
    if r >= 1 {
        assert(rest[r - 1].1 == answers[r - 1]);
        assert(answers[r - 1]);
    }
}

/// Writing on: where nothing is drawn and no answer is to stop, writing `n` tokens and then `m`
/// more from the prompt with those `n` is writing all of them at once.
pub proof fn law_writing_goes_on<T: TensorBackend>(
    b: T,
    w: WeightsState,
    how: Sampling,
    n: int,
    m: int,
    answers: Seq<bool>,
    prompt: Seq<u32>,
    seqs: Map<u64, TokensState>,
)
    requires
        keeps_sizes(b),
        row_by_row(b),
        reads_counted_rows(b),
        0 < prompt.len(),
        n >= 1,
        m >= 1,
        how.max_tokens == n + m,
        prompt.len() + n + m <= usize::MAX,
        how.temperature <= 0x3A83_126F || 0x8000_0000 <= how.temperature <= 0xFF80_0000,
        answers.len() >= n + m,
        forall|k: int| 0 <= k < answers.len() ==> #[trigger] answers[k],
        !seqs.contains_key(how.id),
        ({
            let first = Sampling { max_tokens: n, ..how };
            let second = Sampling { max_tokens: m, ..how };
            let s = Generating { kv: None, seqs, heard: Seq::empty() };
            let begun = prompt + tokens_of(generate(b, w, first, answers, prompt, s).heard);
            &&& generate(b, w, first, answers, prompt, s).heard.len() == n
            &&& generate_fits(b, w, how, prompt, None, seqs)
            &&& generate_fits(b, w, first, prompt, None, seqs)
            &&& generate_fits(b, w, second, begun, None, seqs)
        }),
    ensures
        ({
            let first = Sampling { max_tokens: n, ..how };
            let second = Sampling { max_tokens: m, ..how };
            let s = Generating { kv: None, seqs, heard: Seq::empty() };
            let begun = generate(b, w, first, answers, prompt, s).heard;
            let rest = generate(b, w, second, answers, prompt + tokens_of(begun), s).heard;
            generate(b, w, how, answers, prompt, s).heard == begun + rest
        }),
{
    let first = Sampling { max_tokens: n, ..how };
    let second = Sampling { max_tokens: m, ..how };
    let s = Generating { kv: None, seqs, heard: Seq::empty() };
    let begun = generate(b, w, first, answers, prompt, s).heard;
    let middle = prompt + tokens_of(begun);
    let rest = generate(b, w, second, answers, middle, s).heard;
    let all = generate(b, w, how, answers, prompt, s).heard;
    law_text_is_written(b, w, first, answers, prompt, seqs);
    law_text_is_written(b, w, second, answers, middle, seqs);
    law_text_is_written(b, w, how, answers, prompt, seqs);
    law_tokens_handed_over(b, w, first, answers, prompt, s);
    law_tokens_handed_over(b, w, second, answers, middle, s);
    law_tokens_handed_over(b, w, how, answers, prompt, s);
    assert(written(b, w, how, answers, prompt, begun));
    assert(handed_over(how, answers, begun));
    assert(written(b, w, how, answers, middle, rest));
    assert(handed_over(how, answers, rest));
    lemma_written_behind(b, w, how, m, answers, prompt, begun, rest);
    if all.len() <= begun.len() + rest.len() {
        lemma_written_once(b, w, how, answers, prompt, all, begun + rest);
    } else {
        lemma_written_once(b, w, how, answers, prompt, begun + rest, all);
    }
}

} // verus!
