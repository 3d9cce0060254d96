//! What passes of tokens and prompts promise: where their rows go, and how many.

use crate::forward::{qkv, slot_for, through_layers, token_pass, zeros, PassState};
use crate::generation::lemma_pass_shape;
use crate::kv_state::KvState;
use crate::prefill::{
    counted, embeddings, prefill_pass, prompt_layers, qkv_rows, table_for, with_rows, PromptState,
};
use crate::tensor::TensorBackend;
use crate::weights::{CacheState, TokensState, WeightsState};
use vstd::prelude::*;

verus! {

/// A token and its remainder by the size of the vocabulary take the same pass.
pub proof fn law_token_wraps<T: TensorBackend>(
    b: T,
    w: WeightsState,
    token: u32,
    pos: usize,
    seq: u64,
    kv: Option<KvState>,
    layers: Seq<CacheState>,
)
    ensures
        token_pass(b, w, token, pos, seq, kv, layers) == token_pass(
            b,
            w,
            (token as int % w.config.vocab() as int) as u32,
            pos,
            seq,
            kv,
            layers,
        ),
{
    let v = w.config.vocab() as int;
    let wrapped = token as int % v;
    assert(0 <= wrapped <= token && wrapped % v == wrapped) by (nonlinear_arith)
        requires
            v > 0,
            wrapped == token as int % v,
            0 <= token,
    ;
}

/// The first `n` layers of a pass without a slot add a row to their caches, and no other
/// cache changes.
proof fn lemma_own_rows<T: TensorBackend>(
    b: T,
    w: WeightsState,
    n: int,
    pos: usize,
    seq: u64,
    s: PassState,
    l: int,
)
    requires
        0 <= n <= s.layers.len(),
        0 <= l < s.layers.len(),
    ensures
        ({
            let done = through_layers(b, w, n, pos, None, seq, s);
            &&& done.kv == s.kv
            &&& done.layers.len() == s.layers.len()
            &&& l >= n ==> done.layers[l] == s.layers[l]
            &&& l < n ==> exists|k: Seq<u32>, v: Seq<u32>| #[trigger]
                s.layers[l].with_row(k, v) == done.layers[l]
        }),
    decreases n,
{
    if n > 0 {
        lemma_own_rows(b, w, n - 1, pos, seq, s, l);
        let before = through_layers(b, w, n - 1, pos, None, seq, s);
        let (q, k, v) = qkv(b, w, n - 1, pos, before.x);
        if l == n - 1 {
            assert(s.layers[l].with_row(k, v) == through_layers(
                b,
                w,
                n,
                pos,
                None,
                seq,
                s,
            ).layers[l]);
        }
    }
}

/// A pass with a slot leaves the sequence's own caches alone.
proof fn lemma_paged_rows<T: TensorBackend>(
    b: T,
    w: WeightsState,
    n: int,
    pos: usize,
    place: (usize, usize),
    seq: u64,
    s: PassState,
)
    ensures
        through_layers(b, w, n, pos, Some(place), seq, s).layers == s.layers,
    decreases n,
{
    if n > 0 {
        lemma_paged_rows(b, w, n - 1, pos, place, seq, s);
    }
}

/// Without a slot in a KV cache, because there is none or it has no room, a pass adds one row
/// to each layer's own cache and leaves the KV cache as it was.
pub proof fn law_pass_adds_own_rows<T: TensorBackend>(
    b: T,
    w: WeightsState,
    token: u32,
    pos: usize,
    seq: u64,
    kv: Option<KvState>,
    layers: Seq<CacheState>,
    l: int,
)
    requires
        slot_for(kv, seq) is None,
        w.layers.len() <= layers.len(),
        0 <= l < layers.len(),
    ensures
        ({
            let done = token_pass(b, w, token, pos, seq, kv, layers);
            &&& done.kv == kv
            &&& done.layers.len() == layers.len()
            &&& l >= w.layers.len() ==> done.layers[l] == layers[l]
            &&& l < w.layers.len() ==> {
                &&& done.layers[l].cached_k.len() == layers[l].cached_k.len() + 1
                &&& done.layers[l].cached_v.len() == layers[l].cached_v.len() + 1
                &&& done.layers[l].cached_k.drop_last() == layers[l].cached_k
                &&& done.layers[l].cached_v.drop_last() == layers[l].cached_v
            }
        }),
{
    let n = w.layers.len() as int;
    let start = PassState {
        x: w.embedding(token),
        attn: zeros(w.config.q_dim()),
        kv,
        layers,
    };
    lemma_own_rows(b, w, n, pos, seq, start, l);
    let done = token_pass(b, w, token, pos, seq, kv, layers);
    if l < n {
        let (k, v) = choose|k: Seq<u32>, v: Seq<u32>| #[trigger]
            layers[l].with_row(k, v) == done.layers[l];
        assert(layers[l].cached_k.push(k).drop_last() =~= layers[l].cached_k);
        assert(layers[l].cached_v.push(v).drop_last() =~= layers[l].cached_v);
    }
}

/// With a slot in the KV cache a pass counts one token more for its sequence, once for all
/// layers, changes no other table, and leaves the sequence's own caches alone.
pub proof fn law_pass_takes_one_slot<T: TensorBackend>(
    b: T,
    w: WeightsState,
    token: u32,
    pos: usize,
    seq: u64,
    kv: KvState,
    layers: Seq<CacheState>,
    other: u64,
)
    requires
        kv.wf(),
        kv.append_possible(seq),
        kv.append_fits(seq),
    ensures
        ({
            let done = token_pass(b, w, token, pos, seq, Some(kv), layers);
            &&& done.layers == layers
            &&& done.kv is Some
            &&& done.kv->0.tables[seq].total_tokens == kv.tables[seq].total_tokens + 1
            &&& done.kv->0.tables.dom() == kv.tables.dom()
            &&& other != seq && kv.tables.contains_key(other) ==> done.kv->0.tables[other]
                == kv.tables[other]
        }),
{
    let n = w.layers.len() as int;
    let start = PassState {
        x: w.embedding(token),
        attn: zeros(w.config.q_dim()),
        kv: Some(kv.append(seq)),
        layers,
    };
    kv.lemma_append_wf(seq);
    lemma_paged_rows(b, w, n, pos, kv.append_slot(seq), seq, start);
    lemma_pass_shape(b, w, n, pos, Some(kv.append_slot(seq)), seq, start);
    assert(kv.append(seq).tables.dom() =~= kv.tables.dom());
}

proof fn lemma_rows_added(
    cache: CacheState,
    k: Seq<Seq<u32>>,
    v: Seq<Seq<u32>>,
    n: int,
)
    requires
        0 <= n,
    ensures
        with_rows(cache, k, v, n).cached_k.len() == cache.cached_k.len() + n,
        with_rows(cache, k, v, n).cached_v.len() == cache.cached_v.len() + n,
    decreases n,
{
    if n > 0 {
        lemma_rows_added(cache, k, v, n - 1);
    }
}

/// The first `n` layers of a prompt's pass add a row per token to their caches.
proof fn lemma_prompt_rows<T: TensorBackend>(
    b: T,
    w: WeightsState,
    n: int,
    table: Option<Seq<usize>>,
    s: PromptState,
    l: int,
)
    requires
        0 <= n <= s.layers.len(),
        0 <= l < s.layers.len(),
    ensures
        ({
            let done = prompt_layers(b, w, n, table, s);
            &&& done.rows.len() == s.rows.len()
            &&& done.layers.len() == s.layers.len()
            &&& l >= n ==> done.layers[l] == s.layers[l]
            &&& l < n ==> {
                &&& done.layers[l].cached_k.len() == s.layers[l].cached_k.len() + s.rows.len()
                &&& done.layers[l].cached_v.len() == s.layers[l].cached_v.len() + s.rows.len()
            }
        }),
    decreases n,
{
    if n > 0 {
        lemma_prompt_rows(b, w, n - 1, table, s, l);
        let before = prompt_layers(b, w, n - 1, table, s);
        let rows = before.rows.len();
        let (q, k, v) = qkv_rows(b, w, n - 1, before.rows, counted(rows));
        lemma_rows_added(before.layers[n - 1], k, v, rows as int);
    }
}

/// What prefilling a prompt leaves of its sequence: an empty prompt changes nothing, another
/// adds its tokens. Without a KV cache each layer's own cache gains a row per token; with one,
/// a prompt of several tokens leaves no caches of its own.
pub proof fn law_prefill_stores_rows<T: TensorBackend>(
    b: T,
    w: WeightsState,
    prompt: Seq<u32>,
    seq: u64,
    kv: Option<KvState>,
    s: TokensState,
    l: int,
)
    requires
        w.layers.len() <= s.layers.len(),
    ensures
        ({
            let done = prefill_pass(b, w, prompt, seq, kv, s);
            let n = prompt.len();
            &&& n == 0 ==> done.seq == s && done.kv == kv && done.hidden.len() == 0
            &&& done.seq.tokens == s.tokens + prompt
            &&& kv is None ==> {
                &&& done.kv is None
                &&& done.seq.layers.len() == s.layers.len()
                &&& 0 <= l < w.layers.len() ==> {
                    &&& done.seq.layers[l].cached_k.len() == s.layers[l].cached_k.len() + n
                    &&& done.seq.layers[l].cached_v.len() == s.layers[l].cached_v.len() + n
                }
            }
            &&& kv is Some && n >= 2 ==> done.seq.layers.len() == 0
        }),
{
    let n = prompt.len() as int;
    let at = if 0 <= l < w.layers.len() {
        l
    } else {
        0
    };
    if n == 0 {
        assert(s.tokens + prompt =~= s.tokens);
    } else if n == 1 {
        assert(s.tokens + prompt =~= s.tokens.push(prompt[0]));
        if kv is None && s.layers.len() > 0 {
            law_pass_adds_own_rows(b, w, prompt[0], 0, seq, None, s.layers, at);
        }
    } else {
        let start = PromptState { rows: embeddings(w, prompt), kv, layers: s.layers };
        if s.layers.len() > 0 {
            lemma_prompt_rows(b, w, w.layers.len() as int, table_for(kv, seq), start, at);
        }
        if kv is None {
            lemma_no_pages(b, w, w.layers.len() as int, start);
        }
    }
}

/// Without blocks in a KV cache a prompt's pass leaves it alone.
proof fn lemma_no_pages<T: TensorBackend>(b: T, w: WeightsState, n: int, s: PromptState)
    ensures
        prompt_layers(b, w, n, None, s).kv == s.kv,
    decreases n,
{
    if n > 0 {
        lemma_no_pages(b, w, n - 1, s);
    }
}

} // verus!
