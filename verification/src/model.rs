//! What the model makes of a text, told from the text alone: no caches, no pages, no batches.
//!
//! Passes, prefills, decode steps and generation are held against it. Each of them keeps rows
//! and takes tokens up one after the other; what they give is what the whole text gives.

use crate::agreement::{
    keeps_sizes, law_prefill_is_one_by_one, one_by_one, reads_counted_rows, row_by_row,
};
use crate::forward::{
    reserved, slot_for, through_layer, through_layers, token_pass, zeros, PassState,
};
use crate::kv_state::KvState;
use crate::prefill::prefill_pass;
use crate::tensor::{flat, lemma_flat_push, HeadShape, TensorBackend};
use crate::weights::{CacheState, TokensState, WeightsState};
use vstd::prelude::*;

verus! {

// ---- The model ----
/// The query of a token at a position, from its row before a layer.
pub open spec fn query<T: TensorBackend>(
    b: T,
    w: WeightsState,
    l: int,
    x: Seq<u32>,
    at: int,
) -> Seq<u32> {
    let c = w.config;
    let n = b.normed(x, w.layers[l].input_layernorm, c.rms_norm_eps);
    b.rotated(
        b.projected(n, w.layers[l].q_proj, (c.num_heads * c.head_dim) as usize, c.hidden() as usize),
        b.projected(n, w.layers[l].k_proj, (c.num_kv_heads * c.head_dim) as usize, c.hidden() as usize),
        at as usize,
        HeadShape {
            num_heads: c.num_heads,
            num_kv_heads: c.num_kv_heads,
            head_dim: c.head_dim,
        },
        c.rope_theta,
    ).0
}

/// The key of a token at a position, from its row before a layer.
pub open spec fn key<T: TensorBackend>(
    b: T,
    w: WeightsState,
    l: int,
    x: Seq<u32>,
    at: int,
) -> Seq<u32> {
    let c = w.config;
    let n = b.normed(x, w.layers[l].input_layernorm, c.rms_norm_eps);
    b.rotated(
        b.projected(n, w.layers[l].q_proj, (c.num_heads * c.head_dim) as usize, c.hidden() as usize),
        b.projected(n, w.layers[l].k_proj, (c.num_kv_heads * c.head_dim) as usize, c.hidden() as usize),
        at as usize,
        HeadShape {
            num_heads: c.num_heads,
            num_kv_heads: c.num_kv_heads,
            head_dim: c.head_dim,
        },
        c.rope_theta,
    ).1
}

/// The value of a token, from its row before a layer. It has no position.
pub open spec fn value<T: TensorBackend>(b: T, w: WeightsState, l: int, x: Seq<u32>) -> Seq<u32> {
    let c = w.config;
    b.projected(
        b.normed(x, w.layers[l].input_layernorm, c.rms_norm_eps),
        w.layers[l].v_proj,
        (c.num_kv_heads * c.head_dim) as usize,
        c.hidden() as usize,
    )
}

/// The keys of the first `n` tokens.
pub open spec fn keys<T: TensorBackend>(
    b: T,
    w: WeightsState,
    l: int,
    x: Seq<Seq<u32>>,
    n: int,
) -> Seq<Seq<u32>> {
    Seq::new(n as nat, |i: int| key(b, w, l, x[i], i))
}

/// The values of the first `n` tokens.
pub open spec fn values<T: TensorBackend>(
    b: T,
    w: WeightsState,
    l: int,
    x: Seq<Seq<u32>>,
    n: int,
) -> Seq<Seq<u32>> {
    Seq::new(n as nat, |i: int| value(b, w, l, x[i]))
}

/// The row of a token after a layer, given what its query attended to: what attention found is
/// added to the row, and then what the gated projection makes of that sum.
pub open spec fn after_layer<T: TensorBackend>(
    b: T,
    w: WeightsState,
    l: int,
    x: Seq<u32>,
    found: Seq<u32>,
) -> Seq<u32> {
    let c = w.config;
    let hidden = c.hidden() as usize;
    let inner = c.intermediate() as usize;
    let y = b.summed(x, b.projected(found, w.layers[l].o_proj, hidden, (c.num_heads * c.head_dim) as usize));
    let n = b.normed(y, w.layers[l].post_attention_layernorm, c.rms_norm_eps);
    b.summed(
        y,
        b.projected(
            b.gated(
                b.projected(n, w.layers[l].gate_proj, inner, hidden),
                b.projected(n, w.layers[l].up_proj, inner, hidden),
            ),
            w.layers[l].down_proj,
            hidden,
            inner,
        ),
    )
}

/// The rows of a text's tokens after `l` layers: at first their embeddings, and in each layer
/// every token attends to itself and to the tokens before it.
pub open spec fn rows_of_text<T: TensorBackend>(
    b: T,
    w: WeightsState,
    text: Seq<u32>,
    l: int,
) -> Seq<Seq<u32>>
    decreases l,
{
    if l <= 0 {
        Seq::new(
            text.len(),
            |t: int|
                {
                    let at = text[t] as int % w.config.vocab() as int * w.config.hidden();
                    w.embed_tokens.subrange(at, at + w.config.hidden())
                },
        )
    } else {
        let x = rows_of_text(b, w, text, l - 1);
        Seq::new(
            text.len(),
            |t: int|
                after_layer(
                    b,
                    w,
                    l - 1,
                    x[t],
                    b.attended(
                        query(b, w, l - 1, x[t], t),
                        flat(keys(b, w, l - 1, x, t + 1)),
                        flat(values(b, w, l - 1, x, t + 1)),
                        (t + 1) as usize,
                        HeadShape {
                            num_heads: w.config.num_heads,
                            num_kv_heads: w.config.num_kv_heads,
                            head_dim: w.config.head_dim,
                        },
                    ),
                ),
        )
    }
}

/// The hidden state that a text ends with.
pub open spec fn meaning<T: TensorBackend>(b: T, w: WeightsState, text: Seq<u32>) -> Seq<u32> {
    b.normed(
        rows_of_text(b, w, text, w.layers.len() as int)[text.len() - 1],
        w.final_norm,
        w.config.rms_norm_eps,
    )
}

/// The logits of the token that follows a text.
pub open spec fn logits_after<T: TensorBackend>(b: T, w: WeightsState, text: Seq<u32>) -> Seq<u32> {
    b.scored(meaning(b, w, text), w.lm_head, w.config.vocab(), w.config.hidden() as usize)
}

/// The caches of a sequence hold, in every layer, the keys and values of the first `n` tokens
/// of a text.
pub open spec fn holds_text<T: TensorBackend>(
    b: T,
    w: WeightsState,
    text: Seq<u32>,
    n: int,
    layers: Seq<CacheState>,
) -> bool {
    &&& layers.len() >= w.layers.len()
    &&& forall|l: int|
        0 <= l < w.layers.len() ==> {
            let x = rows_of_text(b, w, text, l);
            &&& (#[trigger] layers[l]).cached_k == keys(b, w, l, x, n)
            &&& layers[l].cached_v == values(b, w, l, x, n)
            &&& layers[l].flat_k == flat(keys(b, w, l, x, n))
            &&& layers[l].flat_v == flat(values(b, w, l, x, n))
        }
}

// ---- Laws ----
/// What a token's row is depends on the tokens up to it alone.
pub proof fn law_later_tokens_do_not_matter<T: TensorBackend>(
    b: T,
    w: WeightsState,
    text: Seq<u32>,
    more: Seq<u32>,
    l: int,
    t: int,
)
    requires
        0 <= t < text.len(),
        text.is_prefix_of(more),
    ensures
        rows_of_text(b, w, more, l)[t] == rows_of_text(b, w, text, l)[t],
    decreases l,
{
    assert(more[t] == text[t]);
    if l > 0 {
        let x = rows_of_text(b, w, text, l - 1);
        let y = rows_of_text(b, w, more, l - 1);
        assert forall|i: int| 0 <= i <= t implies x[i] == y[i] by {
            law_later_tokens_do_not_matter(b, w, text, more, l - 1, i);
        }
        assert(keys(b, w, l - 1, x, t + 1) =~= keys(b, w, l - 1, y, t + 1));
        assert(values(b, w, l - 1, x, t + 1) =~= values(b, w, l - 1, y, t + 1));
    }
}

/// Caches that hold a text hold every text that goes on from it.
pub proof fn law_caches_hold_on<T: TensorBackend>(
    b: T,
    w: WeightsState,
    text: Seq<u32>,
    more: Seq<u32>,
    n: int,
    layers: Seq<CacheState>,
)
    requires
        0 <= n <= text.len(),
        text.is_prefix_of(more),
        holds_text(b, w, text, n, layers),
    ensures
        holds_text(b, w, more, n, layers),
{
    assert forall|l: int| 0 <= l < w.layers.len() implies {
        let x = rows_of_text(b, w, more, l);
        &&& (#[trigger] layers[l]).cached_k == keys(b, w, l, x, n)
        &&& layers[l].cached_v == values(b, w, l, x, n)
        &&& layers[l].flat_k == flat(keys(b, w, l, x, n))
        &&& layers[l].flat_v == flat(values(b, w, l, x, n))
    } by {
        let x = rows_of_text(b, w, text, l);
        let y = rows_of_text(b, w, more, l);
        assert forall|i: int| 0 <= i < n implies x[i] == y[i] by {
            law_later_tokens_do_not_matter(b, w, text, more, l, i);
        }
        assert(keys(b, w, l, x, n) =~= keys(b, w, l, y, n));
        assert(values(b, w, l, x, n) =~= values(b, w, l, y, n));
    }
}

/// A layer of a pass, on a cache that holds the tokens before, gives the token's row after the
/// layer, and the cache holds the token too.
proof fn lemma_layer_reads_text<T: TensorBackend>(
    b: T,
    w: WeightsState,
    text: Seq<u32>,
    t: int,
    l: int,
    seq: u64,
    s: PassState,
)
    requires
        0 <= t < text.len() <= usize::MAX,
        0 <= l < w.layers.len(),
        l < s.layers.len(),
        s.x == rows_of_text(b, w, text, l)[t],
        s.layers[l].cached_k == keys(b, w, l, rows_of_text(b, w, text, l), t),
        s.layers[l].cached_v == values(b, w, l, rows_of_text(b, w, text, l), t),
        s.layers[l].flat_k == flat(keys(b, w, l, rows_of_text(b, w, text, l), t)),
        s.layers[l].flat_v == flat(values(b, w, l, rows_of_text(b, w, text, l), t)),
    ensures
        ({
            let next = through_layer(b, w, l, t as usize, None, seq, s);
            let x = rows_of_text(b, w, text, l);
            &&& next.x == rows_of_text(b, w, text, l + 1)[t]
            &&& next.kv == s.kv
            &&& next.layers.len() == s.layers.len()
            &&& forall|i: int|
                0 <= i < s.layers.len() && i != l ==> #[trigger] next.layers[i] == s.layers[i]
            &&& next.layers[l].cached_k == keys(b, w, l, x, t + 1)
            &&& next.layers[l].cached_v == values(b, w, l, x, t + 1)
            &&& next.layers[l].flat_k == flat(keys(b, w, l, x, t + 1))
            &&& next.layers[l].flat_v == flat(values(b, w, l, x, t + 1))
        }),
{
    let x = rows_of_text(b, w, text, l);
    let k = key(b, w, l, x[t], t);
    let v = value(b, w, l, x[t]);
    assert(keys(b, w, l, x, t + 1) =~= keys(b, w, l, x, t).push(k));
    assert(values(b, w, l, x, t + 1) =~= values(b, w, l, x, t).push(v));
    lemma_flat_push(keys(b, w, l, x, t), k);
    lemma_flat_push(values(b, w, l, x, t), v);
    let next = through_layer(b, w, l, t as usize, None, seq, s);
    assert(next.layers[l] == s.layers[l].with_row(k, v));
}

pub proof fn lemma_layers_read_text<T: TensorBackend>(
    b: T,
    w: WeightsState,
    text: Seq<u32>,
    t: int,
    n: int,
    seq: u64,
    s: PassState,
)
    requires
        0 <= t < text.len() <= usize::MAX,
        0 <= n <= w.layers.len(),
        s.x == rows_of_text(b, w, text, 0)[t],
        holds_text(b, w, text, t, s.layers),
    ensures
        ({
            let done = through_layers(b, w, n, t as usize, None, seq, s);
            &&& done.x == rows_of_text(b, w, text, n)[t]
            &&& done.kv == s.kv
            &&& done.layers.len() == s.layers.len()
            &&& forall|i: int| n <= i < s.layers.len() ==> #[trigger] done.layers[i] == s.layers[i]
            &&& forall|l: int|
                0 <= l < n ==> {
                    let x = rows_of_text(b, w, text, l);
                    &&& (#[trigger] done.layers[l]).cached_k == keys(b, w, l, x, t + 1)
                    &&& done.layers[l].cached_v == values(b, w, l, x, t + 1)
                    &&& done.layers[l].flat_k == flat(keys(b, w, l, x, t + 1))
                    &&& done.layers[l].flat_v == flat(values(b, w, l, x, t + 1))
                }
        }),
    decreases n,
{
    if n > 0 {
        lemma_layers_read_text(b, w, text, t, n - 1, seq, s);
        let before = through_layers(b, w, n - 1, t as usize, None, seq, s);
        assert(before.layers[n - 1] == s.layers[n - 1]);
        lemma_layer_reads_text(b, w, text, t, n - 1, seq, before);
        let done = through_layers(b, w, n, t as usize, None, seq, s);
        assert forall|l: int| 0 <= l < n implies {
            let x = rows_of_text(b, w, text, l);
            &&& (#[trigger] done.layers[l]).cached_k == keys(b, w, l, x, t + 1)
            &&& done.layers[l].cached_v == values(b, w, l, x, t + 1)
            &&& done.layers[l].flat_k == flat(keys(b, w, l, x, t + 1))
            &&& done.layers[l].flat_v == flat(values(b, w, l, x, t + 1))
        } by {
            if l < n - 1 {
                assert(done.layers[l] == before.layers[l]);
            }
        }
    }
}

/// A token's pass over its own caches gives what the whole text up to that token gives, and
/// leaves caches that hold the text up to and with it.
pub proof fn law_pass_reads_text<T: TensorBackend>(
    b: T,
    w: WeightsState,
    text: Seq<u32>,
    t: int,
    seq: u64,
    kv: Option<KvState>,
    layers: Seq<CacheState>,
)
    requires
        0 <= t < text.len() <= usize::MAX,
        slot_for(kv, seq) is None,
        holds_text(b, w, text, t, layers),
    ensures
        ({
            let done = token_pass(b, w, text[t], t as usize, seq, kv, layers);
            &&& done.x == rows_of_text(b, w, text, w.layers.len() as int)[t]
            &&& done.kv == kv
            &&& done.layers.len() == layers.len()
            &&& holds_text(b, w, text, t + 1, done.layers)
            &&& forall|i: int|
                w.layers.len() <= i < layers.len() ==> #[trigger] done.layers[i] == layers[i]
        }),
{
    let start = PassState {
        x: w.embedding(text[t]),
        attn: zeros(w.config.q_dim()),
        kv: reserved(kv, seq),
        layers,
    };
    assert(start.x =~= rows_of_text(b, w, text, 0)[t]);
    lemma_layers_read_text(b, w, text, t, w.layers.len() as int, seq, start);
}

pub proof fn lemma_one_by_one_reads_text<T: TensorBackend>(
    b: T,
    w: WeightsState,
    text: Seq<u32>,
    seq: u64,
    layers: Seq<CacheState>,
    n: int,
)
    requires
        0 <= n <= text.len() <= usize::MAX,
        holds_text(b, w, text, 0, layers),
    ensures
        ({
            let done = one_by_one(b, w, text, seq, layers, n);
            &&& n > 0 ==> done.x == rows_of_text(b, w, text, w.layers.len() as int)[n - 1]
            &&& done.layers.len() == layers.len()
            &&& holds_text(b, w, text, n, done.layers)
        }),
    decreases n,
{
    if n > 0 {
        lemma_one_by_one_reads_text(b, w, text, seq, layers, n - 1);
        law_pass_reads_text(
            b,
            w,
            text,
            n - 1,
            seq,
            None,
            one_by_one(b, w, text, seq, layers, n - 1).layers,
        );
    }
}

/// Empty caches hold nothing of any text.
pub proof fn law_empty_caches_hold_nothing<T: TensorBackend>(
    b: T,
    w: WeightsState,
    text: Seq<u32>,
    layers: Seq<CacheState>,
)
    requires
        layers.len() >= w.layers.len(),
        forall|l: int| 0 <= l < w.layers.len() ==> #[trigger] layers[l] == CacheState::empty(),
    ensures
        holds_text(b, w, text, 0, layers),
{
    assert forall|l: int| 0 <= l < w.layers.len() implies {
        let x = rows_of_text(b, w, text, l);
        &&& (#[trigger] layers[l]).cached_k == keys(b, w, l, x, 0)
        &&& layers[l].cached_v == values(b, w, l, x, 0)
        &&& layers[l].flat_k == flat(keys(b, w, l, x, 0))
        &&& layers[l].flat_v == flat(values(b, w, l, x, 0))
    } by {
        let x = rows_of_text(b, w, text, l);
        assert(keys(b, w, l, x, 0) =~= Seq::<Seq<u32>>::empty());
        assert(values(b, w, l, x, 0) =~= Seq::<Seq<u32>>::empty());
    }
}

/// Prefilling a prompt into empty caches gives the hidden state that the prompt ends with, and
/// caches that hold the prompt.
pub proof fn law_prefill_reads_text<T: TensorBackend>(
    b: T,
    w: WeightsState,
    prompt: Seq<u32>,
    seq: u64,
    s: TokensState,
)
    requires
        keeps_sizes(b),
        row_by_row(b),
        reads_counted_rows(b),
        w.takes_all(prompt),
        0 < prompt.len() <= usize::MAX,
        s.layers.len() >= w.layers.len(),
        forall|i: int| 0 <= i < w.layers.len() ==> #[trigger] s.layers[i] == CacheState::empty(),
    ensures
        ({
            let done = prefill_pass(b, w, prompt, seq, None, s);
            &&& done.hidden == meaning(b, w, prompt)
            &&& done.kv is None
            &&& done.seq.tokens == s.tokens + prompt
            &&& holds_text(b, w, prompt, prompt.len() as int, done.seq.layers)
        }),
{
    law_empty_caches_hold_nothing(b, w, prompt, s.layers);
    law_prefill_is_one_by_one(b, w, prompt, seq, s);
    lemma_one_by_one_reads_text(b, w, prompt, seq, s.layers, prompt.len() as int);
    crate::passes::law_prefill_stores_rows(b, w, prompt, seq, None, s, 0);
}

// ---- One layer more ----
/// The first layers of a model do not depend on what follows them.
proof fn lemma_first_layers<T: TensorBackend>(
    b: T,
    w: WeightsState,
    cut: WeightsState,
    n: int,
    pos: usize,
    slot: Option<(usize, usize)>,
    seq: u64,
    s: PassState,
)
    requires
        n <= cut.layers.len() <= w.layers.len(),
        cut.config == w.config,
        forall|l: int| 0 <= l < cut.layers.len() ==> #[trigger] cut.layers[l] == w.layers[l],
    ensures
        through_layers(b, cut, n, pos, slot, seq, s) == through_layers(b, w, n, pos, slot, seq, s),
    decreases n,
{
    if n > 0 {
        lemma_first_layers(b, w, cut, n - 1, pos, slot, seq, s);
        assert(cut.layers[n - 1] == w.layers[n - 1]);
    }
}

/// What the last layer of a model adds to a token's pass over its own caches. The row before
/// the layer is that of the model without it. Its norm before attention makes queries, keys
/// and values of the row; queries and keys are turned to the token's position; key and value
/// join the cache, and the query attends to all of it. What it finds is projected and added to
/// the row. Its norm behind attention, and no other, makes the input of the gated projection,
/// whose output is added to that sum.
pub proof fn law_one_layer_more<T: TensorBackend>(
    b: T,
    w: WeightsState,
    token: u32,
    pos: usize,
    seq: u64,
    kv: Option<KvState>,
    layers: Seq<CacheState>,
)
    requires
        w.layers.len() > 0,
        w.layers.len() <= layers.len(),
        slot_for(kv, seq) is None,
    ensures
        ({
            let c = w.config;
            let last = w.layers.len() - 1;
            let lw = w.layers[last];
            let cut = WeightsState { layers: w.layers.drop_last(), ..w };
            let before = token_pass(b, cut, token, pos, seq, kv, layers);
            let after = token_pass(b, w, token, pos, seq, kv, layers);
            let heads = HeadShape {
                num_heads: c.num_heads,
                num_kv_heads: c.num_kv_heads,
                head_dim: c.head_dim,
            };
            let hidden = c.hidden() as usize;
            let inner = c.intermediate() as usize;
            let q_dim = (c.num_heads * c.head_dim) as usize;
            let kv_dim = (c.num_kv_heads * c.head_dim) as usize;
            let n = b.normed(before.x, lw.input_layernorm, c.rms_norm_eps);
            let (q, k) = b.rotated(
                b.projected(n, lw.q_proj, q_dim, hidden),
                b.projected(n, lw.k_proj, kv_dim, hidden),
                pos,
                heads,
                c.rope_theta,
            );
            let v = b.projected(n, lw.v_proj, kv_dim, hidden);
            let found = b.attended(
                q,
                layers[last].flat_k + k,
                layers[last].flat_v + v,
                (layers[last].cached_k.len() + 1) as usize,
                heads,
            );
            let y = b.summed(before.x, b.projected(found, lw.o_proj, hidden, q_dim));
            let m = b.normed(y, lw.post_attention_layernorm, c.rms_norm_eps);
            &&& after.layers[last].cached_k == layers[last].cached_k.push(k)
            &&& after.layers[last].cached_v == layers[last].cached_v.push(v)
            &&& after.layers[last].flat_k == layers[last].flat_k + k
            &&& after.layers[last].flat_v == layers[last].flat_v + v
            &&& after.x == b.summed(
                y,
                b.projected(
                    b.gated(
                        b.projected(m, lw.gate_proj, inner, hidden),
                        b.projected(m, lw.up_proj, inner, hidden),
                    ),
                    lw.down_proj,
                    hidden,
                    inner,
                ),
            )
            &&& forall|l: int|
                0 <= l < layers.len() && l != last ==> #[trigger] after.layers[l]
                    == before.layers[l]
        }),
{
    let n = w.layers.len() as int;
    let cut = WeightsState { layers: w.layers.drop_last(), ..w };
    let start = PassState {
        x: w.embedding(token),
        attn: zeros(w.config.q_dim()),
        kv: reserved(kv, seq),
        layers,
    };
    assert(cut.embedding(token) == w.embedding(token));
    lemma_first_layers(b, w, cut, n - 1, pos, None, seq, start);
    lemma_later_caches(b, w, n - 1, pos, seq, start, n - 1);
    let before = through_layers(b, w, n - 1, pos, None, seq, start);
    assert(before == token_pass(b, cut, token, pos, seq, kv, layers));
}

proof fn lemma_later_caches<T: TensorBackend>(
    b: T,
    w: WeightsState,
    n: int,
    pos: usize,
    seq: u64,
    s: PassState,
    l: int,
)
    requires
        n <= l < s.layers.len(),
    ensures
        through_layers(b, w, n, pos, None, seq, s).layers.len() == s.layers.len(),
        through_layers(b, w, n, pos, None, seq, s).layers[l] == s.layers[l],
    decreases n,
{
    if n > 0 {
        lemma_later_caches(b, w, n - 1, pos, seq, s, l);
    }
}

} // verus!
