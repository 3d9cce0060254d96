//! What generation and whole steps of the native backend promise.

use crate::abi::{BatchState, DecodeOutput, RequestState};
use crate::decode::{decode_pass, lemma_reserved_room, reserve_all, tables_of, widest};
use crate::forward::{qkv, slot_for, through_layers, zeros, PassState};
use crate::kv_state::KvState;
use crate::pages::lemma_distinct_below;
use crate::prefill::{
    counted, embeddings, place_of, prefill_pass, prompt_layers, qkv_rows, rows_reached, table_for,
    write_rows, PromptState,
};
use crate::scheduler_state::distinct_ids;
use crate::tensor::TensorBackend;
use crate::transformer::{
    first_token, generate, generate_fits, generate_from, generation_fits, next_token, prompt_fits,
    request_fits, requests_fit, state_of, step_fits, step_prefill, step_prefills, take_token,
    whole_step, with_token, Generating, Sampling, StepState,
};
use crate::weights::{TokensState, WeightsState};
use vstd::prelude::*;

verus! {

/// How tokens were handed over: none of them is a stop token, each was answered as given,
/// and only the last may have been answered with a stop.
pub open spec fn handed_over(how: Sampling, answers: Seq<bool>, heard: Seq<(u32, bool)>) -> bool {
    forall|i: int|
        0 <= i < heard.len() ==> {
            &&& !how.stop.contains((#[trigger] heard[i]).0)
            &&& heard[i].1 == answers[i]
            &&& i < heard.len() - 1 ==> heard[i].1
        }
}

/// What the steps of a generation keep and add.
proof fn lemma_generate_from<T: TensorBackend>(
    b: T,
    w: WeightsState,
    how: Sampling,
    answers: Seq<bool>,
    step: int,
    s: Generating,
    other: u64,
)
    requires
        forall|i: int| 0 <= i < s.heard.len() ==> (#[trigger] s.heard[i]).1,
        handed_over(how, answers, s.heard),
    ensures
        ({
            let done = generate_from(b, w, how, answers, step, s);
            &&& done.heard.len() >= s.heard.len()
            &&& done.heard.len() <= s.heard.len() + if how.max_tokens > step {
                how.max_tokens - step
            } else {
                0
            }
            &&& handed_over(how, answers, done.heard)
            &&& other != how.id ==> {
                &&& done.seqs.contains_key(other) == s.seqs.contains_key(other)
                &&& done.seqs[other] == s.seqs[other]
            }
        }),
    decreases how.max_tokens - step,
{
    if step < how.max_tokens && s.seqs.contains_key(how.id) {
        let (token, passed) = next_token(b, w, how, step, s);
        let (taken, more) = take_token(how, answers, token, passed);
        if !how.stop.contains(token) {
            assert(taken.heard =~= s.heard.push((token, more)));
            assert forall|i: int| 0 <= i < taken.heard.len() implies {
                &&& !how.stop.contains((#[trigger] taken.heard[i]).0)
                &&& taken.heard[i].1 == answers[i]
                &&& i < taken.heard.len() - 1 ==> taken.heard[i].1
            } by {
                if i < s.heard.len() {
                    assert(taken.heard[i] == s.heard[i]);
                }
            }
        }
        if more {
            assert forall|i: int| 0 <= i < taken.heard.len() implies (
            #[trigger] taken.heard[i]).1 by {
                if i < s.heard.len() {
                    assert(taken.heard[i] == s.heard[i]);
                }
            }
            lemma_generate_from(b, w, how, answers, step + 1, taken, other);
        }
    }
}

/// Generation hands over at most as many tokens as were asked for, or one where fewer than
/// one was; no stop token is among them; and none follows the answer to stop.
pub proof fn law_tokens_handed_over<T: TensorBackend>(
    b: T,
    w: WeightsState,
    how: Sampling,
    answers: Seq<bool>,
    prompt: Seq<u32>,
    s: Generating,
)
    requires
        s.heard.len() == 0,
    ensures
        ({
            let done = generate(b, w, how, answers, prompt, s);
            &&& done.heard.len() <= if how.max_tokens > 1 {
                how.max_tokens
            } else {
                1
            }
            &&& handed_over(how, answers, done.heard)
        }),
{
    let (token, passed) = first_token(b, w, how, prompt, s);
    let (taken, more) = take_token(how, answers, token, passed);
    if !how.stop.contains(token) {
        assert(taken.heard =~= seq![(token, more)]);
    }
    if more {
        lemma_generate_from(b, w, how, answers, 1, taken, how.id);
    }
}

/// Generation ends with its sequence let go of, and leaves every other sequence of the
/// backend as it was.
pub proof fn law_generation_lets_go<T: TensorBackend>(
    b: T,
    w: WeightsState,
    how: Sampling,
    answers: Seq<bool>,
    prompt: Seq<u32>,
    s: Generating,
    other: u64,
)
    requires
        s.heard.len() == 0,
    ensures
        ({
            let done = generate(b, w, how, answers, prompt, s);
            &&& !done.seqs.contains_key(how.id)
            &&& done.kv is Some ==> !done.kv->0.tables.contains_key(how.id)
            &&& other != how.id ==> {
                &&& done.seqs.contains_key(other) == s.seqs.contains_key(other)
                &&& s.seqs.contains_key(other) ==> done.seqs[other] == s.seqs[other]
            }
        }),
{
    let (token, passed) = first_token(b, w, how, prompt, s);
    let (taken, more) = take_token(how, answers, token, passed);
    if !how.stop.contains(token) {
        assert(taken.heard =~= seq![(token, more)]);
    }
    if more {
        lemma_generate_from(b, w, how, answers, 1, taken, other);
    }
}

/// A pass without a KV cache keeps one cache per layer.
proof fn lemma_own_pass<T: TensorBackend>(
    b: T,
    w: WeightsState,
    n: int,
    pos: usize,
    seq: u64,
    s: PassState,
)
    requires
        s.kv is None,
        n <= s.layers.len(),
    ensures
        through_layers(b, w, n, pos, None, seq, s).kv is None,
        through_layers(b, w, n, pos, None, seq, s).layers.len() == s.layers.len(),
    decreases n,
{
    if n > 0 {
        lemma_own_pass(b, w, n - 1, pos, seq, s);
    }
}

/// A prompt's pass without a KV cache keeps one cache per layer.
proof fn lemma_own_prompt<T: TensorBackend>(b: T, w: WeightsState, n: int, s: PromptState)
    requires
        s.kv is None,
        n <= s.layers.len(),
    ensures
        prompt_layers(b, w, n, None, s).kv is None,
        prompt_layers(b, w, n, None, s).layers.len() == s.layers.len(),
    decreases n,
{
    if n > 0 {
        lemma_own_prompt(b, w, n - 1, s);
    }
}

/// Without a KV cache every pass of a generation finds what it needs.
proof fn lemma_own_generation<T: TensorBackend>(
    b: T,
    w: WeightsState,
    how: Sampling,
    step: int,
    seqs: Map<u64, TokensState>,
)
    requires
        w.wf(),
        seqs.contains_key(how.id) ==> seqs[how.id].layers.len() >= w.layers.len(),
    ensures
        generation_fits(b, w, how, step, None, seqs),
    decreases how.max_tokens - step,
{
    if step < how.max_tokens && seqs.contains_key(how.id) {
        let s = Generating { kv: None, seqs, heard: Seq::empty() };
        let (token, passed) = next_token(b, w, how, step, s);
        let seq = seqs[how.id];
        lemma_own_pass(
            b,
            w,
            w.layers.len() as int,
            seq.position() as usize,
            how.id,
            PassState {
                x: w.embedding(seq.last_token()),
                attn: zeros(w.config.q_dim()),
                kv: None,
                layers: seq.layers,
            },
        );
        lemma_own_generation(
            b,
            w,
            how,
            step + 1,
            with_token(passed.seqs, how.id, token),
        );
    }
}

/// Without a KV cache, generation from any prompt whose tensors have a size in range runs
/// to its end.
pub proof fn law_generation_without_pages<T: TensorBackend>(
    b: T,
    w: WeightsState,
    how: Sampling,
    prompt: Seq<u32>,
    seqs: Map<u64, TokensState>,
)
    requires
        w.wf(),
        w.config.rows_fit(prompt.len() as int),
        state_of(seqs, how.id, w.config.num_layers as int).layers.len() >= w.layers.len(),
    ensures
        generate_fits(b, w, how, prompt, None, seqs),
{
    let s = Generating { kv: None, seqs, heard: Seq::empty() };
    let own = state_of(seqs, how.id, w.config.num_layers as int);
    if prompt.len() == 1 {
        lemma_own_pass(
            b,
            w,
            w.layers.len() as int,
            0,
            how.id,
            PassState {
                x: w.embedding(prompt[0]),
                attn: zeros(w.config.q_dim()),
                kv: None,
                layers: own.layers,
            },
        );
    } else if prompt.len() > 1 {
        lemma_own_prompt(
            b,
            w,
            w.layers.len() as int,
            PromptState {
                rows: embeddings(w, prompt),
                kv: None,
                layers: own.layers,
            },
        );
    }
    if prompt.len() > 0 {
        let (token, passed) = first_token(b, w, how, prompt, s);
        lemma_own_generation(b, w, how, 1, with_token(passed.seqs, how.id, token));
    }
}

/// The blocks that a new sequence is given exist in the tensor pool, where those that are
/// taken for it do.
pub proof fn lemma_new_blocks_reached(kv: KvState, id: u64, n: int)
    requires
        kv.wf(),
        kv.block_size > 0,
        0 <= n,
        kv.allocate_fits(n),
        kv.blocks_needed(n) <= kv.free.len(),
    ensures
        rows_reached(
            kv.allocate(id, n),
            kv.allocate(id, n).tables[id].block_ids,
            kv.block_size,
            n,
        ),
{
    let count = kv.blocks_needed(n);
    let bs = kv.block_size as int;
    let after = kv.allocate(id, n);
    let table = after.tables[id].block_ids;
    kv.lemma_blocks_needed(n);
    kv.lemma_fill_shape(n, count);
    assert forall|t: int| 0 <= t < n implies after.pool_reaches(
        (#[trigger] place_of(table, kv.block_size, t)).0 as int,
    ) by {
        assert(0 <= t / bs < count) by (nonlinear_arith)
            requires
                0 <= t < n,
                n <= count * bs,
                bs > 0,
        ;
        assert(kv.free[kv.free.len() - 1 - t / bs] == table[t / bs]);
    }
}

/// A prompt of several tokens whose tensors have a size in range can be prefilled into a KV
/// cache with blocks of the model's size and rows of its width, also where too few of them
/// are free: then it is refused.
pub proof fn law_prompt_into_pages(
    w: WeightsState,
    prompt: Seq<u32>,
    id: u64,
    kv: KvState,
    seqs: Map<u64, TokensState>,
)
    requires
        w.wf(),
        prompt.len() > 1,
        w.config.rows_fit(prompt.len() as int),
        w.config.num_layers >= w.layers.len(),
        w.config.block_size == kv.block_size,
        kv.wf(),
        kv.allocate_fits(prompt.len() as int),
        kv.takes_rows(w.layers.len() as int, w.config.kv_dim()),
        !kv.tables.contains_key(id),
        !seqs.contains_key(id),
        prompt.len() <= usize::MAX,
    ensures
        prompt_fits(w, prompt, id, Some(kv), seqs),
{
    let n = prompt.len() as int;
    if kv.blocks_needed(n) <= kv.free.len() {
        kv.lemma_blocks_needed(n);
        kv.lemma_allocate_wf(id, n);
        kv.lemma_fill_shape(n, kv.blocks_needed(n));
        lemma_new_blocks_reached(kv, id, n);
    }
}

/// The KV cache can take `n` further tokens of a sequence for a model.
pub open spec fn takes_tokens(w: WeightsState, kv: KvState, id: u64, n: int) -> bool {
    &&& kv.wf()
    &&& kv.tables.contains_key(id)
    &&& kv.free.len() >= n
    &&& kv.append_room(n)
    &&& kv.takes_rows(w.layers.len() as int, w.config.kv_dim())
}

/// Writing rows leaves the KV cache in shape.
proof fn lemma_write_shape(kv: KvState, place: (usize, usize), layer: int, k: Seq<u32>, v: Seq<u32>)
    requires
        kv.wf(),
    ensures
        kv.write_slot(place, layer, k, v).same_but_rows(kv),
{
    if kv.pool is Some {
        let pool = kv.pool->0.write_token(place.0 as int, layer, place.1 as int, k, v);
        kv.lemma_with_pool_wf(pool);
    }
}

/// A token of a sequence uses up the room for one.
proof fn lemma_token_taken(w: WeightsState, kv: KvState, id: u64, n: int)
    requires
        takes_tokens(w, kv, id, n),
        n >= 1,
    ensures
        kv.append_possible(id),
        kv.append_fits(id),
        kv.append_reached(id),
        takes_tokens(w, kv.append(id), id, n - 1),
{
    kv.lemma_append_room(id, n);
    kv.lemma_append_wf(id);
}

/// The passes of a token through all layers change rows alone.
pub proof fn lemma_pass_shape<T: TensorBackend>(
    b: T,
    w: WeightsState,
    layers: int,
    pos: usize,
    slot: Option<(usize, usize)>,
    id: u64,
    s: PassState,
)
    requires
        s.kv is Some,
        s.kv->0.wf(),
    ensures
        through_layers(b, w, layers, pos, slot, id, s).kv is Some,
        through_layers(b, w, layers, pos, slot, id, s).kv->0.same_but_rows(s.kv->0),
    decreases layers,
{
    if layers > 0 {
        lemma_pass_shape(b, w, layers - 1, pos, slot, id, s);
        let before = through_layers(b, w, layers - 1, pos, slot, id, s);
        let (q, k, v) = qkv(b, w, layers - 1, pos, before.x);
        if slot is Some {
            lemma_write_shape(before.kv->0, slot->0, layers - 1, k, v);
        }
    }
}

/// Writing the rows of a prompt changes rows alone.
proof fn lemma_rows_shape(
    kv: KvState,
    table: Seq<usize>,
    block_size: usize,
    layer: int,
    k: Seq<Seq<u32>>,
    v: Seq<Seq<u32>>,
    rows: int,
)
    requires
        kv.wf(),
    ensures
        write_rows(kv, table, block_size, layer, k, v, rows).same_but_rows(kv),
    decreases rows,
{
    if rows > 0 {
        lemma_rows_shape(kv, table, block_size, layer, k, v, rows - 1);
        lemma_write_shape(
            write_rows(kv, table, block_size, layer, k, v, rows - 1),
            place_of(table, block_size, rows - 1),
            layer,
            k[rows - 1],
            v[rows - 1],
        );
    }
}

/// A prompt's pass changes rows alone.
proof fn lemma_prompt_shape<T: TensorBackend>(
    b: T,
    w: WeightsState,
    layers: int,
    table: Option<Seq<usize>>,
    s: PromptState,
)
    requires
        s.kv is Some,
        s.kv->0.wf(),
    ensures
        prompt_layers(b, w, layers, table, s).kv is Some,
        prompt_layers(b, w, layers, table, s).kv->0.same_but_rows(s.kv->0),
    decreases layers,
{
    if layers > 0 {
        lemma_prompt_shape(b, w, layers - 1, table, s);
        let before = prompt_layers(b, w, layers - 1, table, s);
        let rows = before.rows.len();
        let (q, k, v) = qkv_rows(b, w, layers - 1, before.rows, counted(rows));
        if table is Some {
            lemma_rows_shape(
                before.kv->0,
                table->0,
                w.config.block_size,
                layers - 1,
                k,
                v,
                rows as int,
            );
        }
    }
}

/// Prefilling changes rows alone; a single token is given a slot first.
proof fn lemma_prefill_shape<T: TensorBackend>(
    b: T,
    w: WeightsState,
    prompt: Seq<u32>,
    id: u64,
    kv: KvState,
    s: TokensState,
)
    requires
        kv.wf(),
        prompt.len() == 1 ==> kv.append_fits(id),
    ensures
        prefill_pass(b, w, prompt, id, Some(kv), s).kv is Some,
        prefill_pass(b, w, prompt, id, Some(kv), s).kv->0.same_but_rows(
            if prompt.len() == 1 {
                kv.append_or_keep(id)
            } else {
                kv
            },
        ),
{
    let n = w.layers.len() as int;
    if prompt.len() == 1 {
        if kv.append_possible(id) {
            kv.lemma_append_wf(id);
        }
        lemma_pass_shape(
            b,
            w,
            n,
            0,
            slot_for(Some(kv), id),
            id,
            PassState {
                x: w.embedding(prompt[0]),
                attn: zeros(w.config.q_dim()),
                kv: Some(kv.append_or_keep(id)),
                layers: s.layers,
            },
        );
    } else if prompt.len() > 1 {
        lemma_prompt_shape(
            b,
            w,
            n,
            table_for(Some(kv), id),
            PromptState { rows: embeddings(w, prompt), kv: Some(kv), layers: s.layers },
        );
    }
}

/// With room for its tokens every pass of a generation finds what it needs.
proof fn lemma_paged_generation<T: TensorBackend>(
    b: T,
    w: WeightsState,
    how: Sampling,
    step: int,
    kv: KvState,
    seqs: Map<u64, TokensState>,
)
    requires
        w.wf(),
        step < how.max_tokens ==> takes_tokens(w, kv, how.id, how.max_tokens - step),
    ensures
        generation_fits(b, w, how, step, Some(kv), seqs),
    decreases how.max_tokens - step,
{
    if step < how.max_tokens && seqs.contains_key(how.id) {
        let n = how.max_tokens - step;
        let s = Generating { kv: Some(kv), seqs, heard: Seq::empty() };
        let (token, passed) = next_token(b, w, how, step, s);
        let seq = seqs[how.id];
        lemma_token_taken(w, kv, how.id, n);
        lemma_pass_shape(
            b,
            w,
            w.layers.len() as int,
            seq.position() as usize,
            Some(kv.append_slot(how.id)),
            how.id,
            PassState {
                x: w.embedding(seq.last_token()),
                attn: zeros(w.config.q_dim()),
                kv: Some(kv.append(how.id)),
                layers: seq.layers,
            },
        );
        lemma_paged_generation(
            b,
            w,
            how,
            step + 1,
            passed.kv->0,
            with_token(passed.seqs, how.id, token),
        );
    }
}

/// With a KV cache that has a free block for every token to generate beside those for the
/// prompt, generation of a new sequence runs to its end.
pub proof fn law_generation_in_pages<T: TensorBackend>(
    b: T,
    w: WeightsState,
    how: Sampling,
    prompt: Seq<u32>,
    kv: KvState,
    seqs: Map<u64, TokensState>,
)
    requires
        w.wf(),
        w.config.rows_fit(prompt.len() as int),
        w.config.num_layers >= w.layers.len(),
        w.config.block_size == kv.block_size,
        w.config.block_size > 0,
        kv.wf(),
        kv.free.len() >= kv.blocks_needed(prompt.len() as int) + how.max_tokens + 1,
        kv.append_room(how.max_tokens + 1),
        prompt.len() + how.max_tokens + 1 <= usize::MAX,
        how.max_tokens >= 0,
        kv.takes_rows(w.layers.len() as int, w.config.kv_dim()),
        !kv.tables.contains_key(how.id),
        !seqs.contains_key(how.id),
    ensures
        generate_fits(b, w, how, prompt, Some(kv), seqs),
{
    let n = prompt.len() as int;
    let id = how.id;
    if n > 0 {
        kv.lemma_blocks_needed(n);
        kv.lemma_allocate_wf(id, n);
        kv.lemma_fill_blocks(n, kv.blocks_needed(n));
        kv.lemma_fill_shape(n, kv.blocks_needed(n));
        let after = kv.allocate(id, n);
        assert forall|i: int| #![trigger kv.free[i]]
            kv.free.len() - kv.blocks_needed(n) <= i < kv.free.len() implies kv.pool_reaches(
            kv.free[i] as int,
        ) by {
            assert(kv.free[i] < kv.total_blocks);
        }
        lemma_new_blocks_reached(kv, id, n);
        assert forall|s: u64| #[trigger] after.tables.contains_key(
            s,
        ) implies after.tables[s].total_tokens + (how.max_tokens + 1) <= usize::MAX by {
            if s != id {
                assert(kv.tables.contains_key(s));
            }
        }
        assert(takes_tokens(w, after, id, how.max_tokens + 1));
        let own = state_of(seqs, id, w.config.num_layers as int);
        let s = Generating { kv: Some(kv), seqs, heard: Seq::empty() };
        let (token, passed) = first_token(b, w, how, prompt, s);
        if n == 1 {
            lemma_token_taken(w, after, id, how.max_tokens + 1);
        }
        lemma_prefill_shape(b, w, prompt, id, after, own);
        assert(takes_tokens(w, passed.kv->0, id, how.max_tokens));
        lemma_paged_generation(
            b,
            w,
            how,
            1,
            passed.kv->0,
            with_token(passed.seqs, id, token),
        );
    }
}

/// The requests are new sequences under distinct identifiers, whose tensors have a size in
/// range, and those that have blocks in the KV cache have enough; the cache has blocks of the
/// model's size and rows of its width, and room for `n` further tokens.
pub open spec fn step_room(
    w: WeightsState,
    requests: Seq<RequestState>,
    n: int,
    kv: KvState,
    seqs: Map<u64, TokensState>,
) -> bool {
    &&& kv.wf()
    &&& kv.pool is Some
    &&& kv.block_size > 0
    &&& kv.block_size == w.config.block_size
    &&& kv.takes_rows(w.layers.len() as int, w.config.kv_dim())
    &&& kv.append_room(n)
    &&& distinct_ids(requests)
    &&& forall|i: int|
        #![trigger requests[i]]
        0 <= i < requests.len() ==> {
            let id = requests[i].request_id;
            let len = requests[i].prompt_tokens.len();
            &&& !seqs.contains_key(id)
            &&& w.config.rows_fit(len as int)
            &&& len + n <= usize::MAX
            &&& kv.tables.contains_key(id) ==> len <= kv.tables[id].block_ids.len()
                * kv.block_size
        }
}

/// A prefill request finds what it needs, and leaves the room for the others.
proof fn lemma_request_fits<T: TensorBackend>(
    b: T,
    w: WeightsState,
    requests: Seq<RequestState>,
    n: int,
    s: StepState,
)
    requires
        w.wf(),
        w.config.num_layers >= w.layers.len(),
        requests.len() > 0,
        n >= 1,
        s.kv is Some,
        step_room(w, requests, n, s.kv->0, s.seqs),
    ensures
        request_fits(w, requests[0], s),
        step_prefill(b, w, requests[0], s).kv is Some,
        step_prefill(b, w, requests[0], s).kv->0.total_blocks == s.kv->0.total_blocks,
        step_room(
            w,
            requests.subrange(1, requests.len() as int),
            n - 1,
            step_prefill(b, w, requests[0], s).kv->0,
            step_prefill(b, w, requests[0], s).seqs,
        ),
{
    let request = requests[0];
    let id = request.request_id;
    let m = request.prompt_tokens.len() as int;
    let kv = s.kv->0;
    let al = kv.allocate_or_keep(id, m);
    let own = state_of(s.seqs, id, w.config.num_layers as int);
    let rest = requests.subrange(1, requests.len() as int);
    let bs = kv.block_size as int;
    kv.lemma_blocks_needed(m);
    assert forall|i: int| #![trigger kv.free[i]] 0 <= i < kv.free.len() implies kv.pool_reaches(
        kv.free[i] as int,
    ) by {
        assert(kv.free[i] < kv.total_blocks);
    }
    if !kv.tables.contains_key(id) && kv.blocks_needed(m) <= kv.free.len() {
        kv.lemma_allocate_wf(id, m);
        kv.lemma_fill_blocks(m, kv.blocks_needed(m));
        kv.lemma_fill_shape(m, kv.blocks_needed(m));
    }
    assert forall|t: u64| #[trigger] al.tables.contains_key(t) implies al.tables[t].total_tokens
        + n <= usize::MAX by {
        if t != id {
            assert(kv.tables.contains_key(t));
        }
    }
    assert(al.append_room(n));
    al.lemma_append_room(id, n);
    if al.tables.contains_key(id) {
        al.lemma_covered(id);
        let table = al.tables[id].block_ids;
        assert(m <= table.len() * w.config.block_size);
        assert forall|t: int| 0 <= t < m implies al.pool_reaches(
            (#[trigger] place_of(table, w.config.block_size, t)).0 as int,
        ) by {
            assert(0 <= t / bs < table.len()) by (nonlinear_arith)
                requires
                    0 <= t < m,
                    m <= table.len() * bs,
                    bs > 0,
            ;
            assert(al.tables[id].block_ids[t / bs] == table[t / bs]);
        }
    }
    lemma_prefill_shape(b, w, request.prompt_tokens, id, al, own);
    let next = step_prefill(b, w, request, s);
    assert forall|i: int| #![trigger rest[i]] 0 <= i < rest.len() implies {
        let other = rest[i].request_id;
        let len = rest[i].prompt_tokens.len();
        &&& !next.seqs.contains_key(other)
        &&& w.config.rows_fit(len as int)
        &&& len + (n - 1) <= usize::MAX
        &&& next.kv->0.tables.contains_key(other) ==> len
            <= next.kv->0.tables[other].block_ids.len() * next.kv->0.block_size
    } by {
        assert(rest[i] == requests[i + 1]);
        assert(requests[0].request_id != requests[i + 1].request_id);
    }
    assert forall|i: int, j: int|
        #![trigger rest[i], rest[j]]
        0 <= i < j < rest.len() implies rest[i].request_id != rest[j].request_id by {
        assert(requests[i + 1].request_id != requests[j + 1].request_id);
    }
}

/// All prefill requests find what they need, and leave the rest of the room.
proof fn lemma_requests_fit<T: TensorBackend>(
    b: T,
    w: WeightsState,
    requests: Seq<RequestState>,
    n: int,
    s: StepState,
)
    requires
        w.wf(),
        w.config.num_layers >= w.layers.len(),
        n >= requests.len(),
        s.kv is Some,
        step_room(w, requests, n, s.kv->0, s.seqs),
    ensures
        requests_fit(b, w, requests, s),
        step_prefills(b, w, requests, s).kv is Some,
        step_prefills(b, w, requests, s).kv->0.total_blocks == s.kv->0.total_blocks,
        step_room(
            w,
            Seq::empty(),
            n - requests.len(),
            step_prefills(b, w, requests, s).kv->0,
            step_prefills(b, w, requests, s).seqs,
        ),
    decreases requests.len(),
{
    if requests.len() > 0 {
        lemma_request_fits(b, w, requests, n, s);
        lemma_requests_fit(
            b,
            w,
            requests.subrange(1, requests.len() as int),
            n - 1,
            step_prefill(b, w, requests[0], s),
        );
    }
}

/// No table is longer than all are.
proof fn lemma_widest(tables: Seq<Seq<usize>>, cap: int)
    requires
        cap >= 1,
        forall|i: int| 0 <= i < tables.len() ==> (#[trigger] tables[i]).len() <= cap,
    ensures
        widest(tables) <= cap,
    decreases tables.len(),
{
    if tables.len() > 0 {
        let rest = tables.drop_last();
        assert forall|i: int| 0 <= i < rest.len() implies (#[trigger] rest[i]).len() <= cap by {
            assert(rest[i] == tables[i]);
        }
        lemma_widest(rest, cap);
        assert(tables[tables.len() - 1].len() <= cap);
    }
}

/// With a KV cache that has room for a token of every entry, a whole step of new prompts and
/// of decode steps finds what it needs, also where too few blocks are free.
pub proof fn law_step_in_pages<T: TensorBackend>(
    b: T,
    w: WeightsState,
    batch: BatchState,
    kv: KvState,
    seqs: Map<u64, TokensState>,
)
    requires
        w.wf(),
        w.config.num_layers >= w.layers.len(),
        batch.counts_fit(),
        step_room(w, batch.prefill_requests, batch.entries() as int, kv, seqs),
        w.config.rows_fit(batch.decode_requests.len() as int),
        batch.decode_requests.len() * w.config.vocab() <= usize::MAX,
        batch.decode_requests.len() * kv.total_blocks <= usize::MAX,
        batch.decode_requests.len() <= usize::MAX,
    ensures
        step_fits(b, w, batch, Some(kv), seqs),
{
    let start = StepState { kv: Some(kv), seqs, outputs: Seq::empty() };
    let ids = batch.decode_requests;
    let n = ids.len() as int;
    lemma_requests_fit(b, w, batch.prefill_requests, batch.entries() as int, start);
    let after = step_prefills(b, w, batch.prefill_requests, start).kv->0;
    lemma_reserved_room(after, ids, n, n);
    let held = reserve_all(after, ids, n);
    let tables = tables_of(held, ids);
    let cap = if kv.total_blocks == 0 {
        1
    } else {
        kv.total_blocks as int
    };
    assert forall|i: int| 0 <= i < tables.len() implies (#[trigger] tables[i]).len() <= cap by {
        if held.tables.contains_key(ids[i]) {
            assert(held.table_wf(ids[i], held.tables[ids[i]]));
            lemma_distinct_below(held.tables[ids[i]].block_ids, held.total_blocks as int);
        }
    }
    lemma_widest(tables, cap);
    let wide = widest(tables) as int;
    assert(n * wide <= n * cap) by (nonlinear_arith)
        requires
            0 <= n,
            wide <= cap,
    ;
    assert(n * 1 == n);
}

/// Every sequence has a cache of its own for every layer.
pub open spec fn all_cached(w: WeightsState, seqs: Map<u64, TokensState>) -> bool {
    forall|id: u64| #[trigger] seqs.contains_key(id) ==> seqs[id].layers.len() >= w.layers.len()
}

/// Passes without a KV cache keep as many caches as there were.
proof fn lemma_own_layers<T: TensorBackend>(
    b: T,
    w: WeightsState,
    layers: int,
    s: PassState,
    p: PromptState,
    pos: usize,
    id: u64,
)
    requires
        layers <= s.layers.len(),
        layers <= p.layers.len(),
    ensures
        through_layers(b, w, layers, pos, None, id, s).layers.len() == s.layers.len(),
        through_layers(b, w, layers, pos, None, id, s).kv == s.kv,
        prompt_layers(b, w, layers, None, p).layers.len() == p.layers.len(),
        prompt_layers(b, w, layers, None, p).kv == p.kv,
    decreases layers,
{
    if layers > 0 {
        lemma_own_layers(b, w, layers - 1, s, p, pos, id);
    }
}

/// Prefill requests without a KV cache find what they need, and leave every sequence its own
/// caches.
proof fn lemma_own_requests<T: TensorBackend>(
    b: T,
    w: WeightsState,
    requests: Seq<RequestState>,
    s: StepState,
)
    requires
        w.wf(),
        w.config.num_layers >= w.layers.len(),
        s.kv is None,
        all_cached(w, s.seqs),
        forall|i: int|
            0 <= i < requests.len() ==> w.config.rows_fit(
                (#[trigger] requests[i]).prompt_tokens.len() as int,
            ),
    ensures
        requests_fit(b, w, requests, s),
        step_prefills(b, w, requests, s).kv is None,
        all_cached(w, step_prefills(b, w, requests, s).seqs),
    decreases requests.len(),
{
    if requests.len() > 0 {
        let request = requests[0];
        let own = state_of(s.seqs, request.request_id, w.config.num_layers as int);
        let rest = requests.subrange(1, requests.len() as int);
        let next = step_prefill(b, w, request, s);
        let prompt = request.prompt_tokens;
        assert(s.seqs.contains_key(request.request_id) ==> own.layers.len() >= w.layers.len());
        assert(own.layers.len() >= w.layers.len());
        lemma_own_layers(
            b,
            w,
            w.layers.len() as int,
            PassState {
                x: w.embedding(prompt[0]),
                attn: zeros(w.config.q_dim()),
                kv: None,
                layers: own.layers,
            },
            PromptState { rows: embeddings(w, prompt), kv: None, layers: own.layers },
            0,
            request.request_id,
        );
        assert forall|id: u64| #[trigger] next.seqs.contains_key(id) implies next.seqs[id].layers.len()
            >= w.layers.len() by {
            if id != request.request_id {
                assert(s.seqs.contains_key(id));
            }
        }
        assert forall|i: int| 0 <= i < rest.len() implies w.config.rows_fit(
            (#[trigger] rest[i]).prompt_tokens.len() as int,
        ) by {
            assert(rest[i] == requests[i + 1]);
        }
        lemma_own_requests(b, w, rest, next);
    }
}

/// Without a KV cache a whole step finds what it needs, where every sequence has its own
/// caches and the tensors have a size in range.
pub proof fn law_step_without_pages<T: TensorBackend>(
    b: T,
    w: WeightsState,
    batch: BatchState,
    seqs: Map<u64, TokensState>,
)
    requires
        w.wf(),
        w.config.num_layers >= w.layers.len(),
        batch.counts_fit(),
        all_cached(w, seqs),
        forall|i: int|
            0 <= i < batch.prefill_requests.len() ==> w.config.rows_fit(
                (#[trigger] batch.prefill_requests[i]).prompt_tokens.len() as int,
            ),
        w.config.rows_fit(batch.decode_requests.len() as int),
        batch.decode_requests.len() * w.config.vocab() <= usize::MAX,
    ensures
        step_fits(b, w, batch, None, seqs),
{
    let start = StepState { kv: None, seqs, outputs: Seq::empty() };
    lemma_own_requests(b, w, batch.prefill_requests, start);
}

/// The prefill requests of a step each get one token, in order.
proof fn lemma_prefills_answer<T: TensorBackend>(
    b: T,
    w: WeightsState,
    requests: Seq<RequestState>,
    s: StepState,
    i: int,
)
    ensures
        ({
            let done = step_prefills(b, w, requests, s);
            &&& done.outputs.len() == s.outputs.len() + requests.len()
            &&& 0 <= i < s.outputs.len() ==> done.outputs[i] == s.outputs[i]
            &&& s.outputs.len() <= i < done.outputs.len() ==> {
                &&& done.outputs[i] is Token
                &&& done.outputs[i]->Token_request_id == requests[i - s.outputs.len()].request_id
            }
        }),
    decreases requests.len(),
{
    if requests.len() > 0 {
        let next = step_prefill(b, w, requests[0], s);
        let rest = requests.subrange(1, requests.len() as int);
        lemma_prefills_answer(b, w, rest, next, i);
        if s.outputs.len() < i < s.outputs.len() + requests.len() {
            assert(rest[i - next.outputs.len()] == requests[i - s.outputs.len()]);
        }
    }
}

/// The sequence that an output is about.
pub open spec fn about(output: DecodeOutput) -> u64 {
    match output {
        DecodeOutput::Token { request_id, .. } => request_id,
        DecodeOutput::Finished { request_id, .. } => request_id,
    }
}

/// A whole step answers every entry of its batch once, in order: prefill requests with a
/// token, decode requests with a token or the end of the sequence.
pub proof fn law_step_answers_each<T: TensorBackend>(
    b: T,
    w: WeightsState,
    batch: BatchState,
    kv: Option<KvState>,
    seqs: Map<u64, TokensState>,
    i: int,
)
    ensures
        ({
            let done = whole_step(b, w, batch, kv, seqs);
            let n = batch.prefill_requests.len();
            &&& done.outputs.len() == batch.entries()
            &&& 0 <= i < n ==> {
                &&& done.outputs[i] is Token
                &&& about(done.outputs[i]) == batch.prefill_requests[i].request_id
            }
            &&& n <= i < done.outputs.len() ==> about(done.outputs[i])
                == batch.decode_requests[i - n]
        }),
{
    let start = StepState { kv, seqs, outputs: Seq::empty() };
    lemma_prefills_answer(b, w, batch.prefill_requests, start, i);
    let s = step_prefills(b, w, batch.prefill_requests, start);
    let decoded = decode_pass(b, w, batch.decode_requests, s.kv, s.seqs);
    assert(decoded.outputs.len() == batch.decode_requests.len());
}

} // verus!
