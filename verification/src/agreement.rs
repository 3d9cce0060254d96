//! That prefilling a prompt layer by layer gives what passing its tokens one by one gives.

use crate::forward::{
    hidden_of, qkv, through_layer, through_layers, through_mlp, token_pass, zeros, PassState,
};
use crate::prefill::{
    attend_rows, counted, embeddings, gate_rows, norm_rows, prefill_pass, prompt_layers,
    prompt_mlp, qkv_rows, sum_rows, with_rows, PromptState,
};
use crate::tensor::{flat, row_of, HeadShape, TensorBackend};
use crate::weights::{CacheState, TokensState, WeightsState};
use vstd::prelude::*;

verus! {

/// Results have the sizes that the operations promise.
pub open spec fn keeps_sizes<T: TensorBackend>(b: T) -> bool {
    &&& forall|x: Seq<u32>, weight: Seq<u32>, eps: u32|
        (#[trigger] b.normed(x, weight, eps)).len() == x.len()
    &&& forall|x: Seq<u32>, weight: Seq<u32>, out_dim: usize, in_dim: usize|
        (#[trigger] b.projected(x, weight, out_dim, in_dim)).len() == out_dim
    &&& forall|q: Seq<u32>, k: Seq<u32>, pos: usize, heads: HeadShape, theta: u32|
        {
            &&& (#[trigger] b.rotated(q, k, pos, heads, theta)).0.len() == q.len()
            &&& b.rotated(q, k, pos, heads, theta).1.len() == k.len()
        }
    &&& forall|q: Seq<u32>, k: Seq<u32>, v: Seq<u32>, n: usize, heads: HeadShape|
        (#[trigger] b.attended(q, k, v, n, heads)).len() == q.len()
    &&& forall|gate: Seq<u32>, up: Seq<u32>| (#[trigger] b.gated(gate, up)).len() == gate.len()
    &&& forall|x: Seq<u32>, delta: Seq<u32>| (#[trigger] b.summed(x, delta)).len() == x.len()
}

/// All rows have one width.
pub open spec fn rows_of_width(rows: Seq<Seq<u32>>, width: int) -> bool {
    forall|t: int| 0 <= t < rows.len() ==> (#[trigger] rows[t]).len() == width
}

/// A matrix applied to several rows at once gives, row by row, what it gives applied to each.
pub open spec fn row_by_row<T: TensorBackend>(b: T) -> bool {
    forall|rows: Seq<Seq<u32>>, weight: Seq<u32>, n: usize, in_dim: usize, out_dim: usize, t: int|
        rows.len() == n && rows_of_width(rows, in_dim as int) && 0 <= t < n ==> (
        #[trigger] row_of(
            b.batch_projected(flat(rows), weight, n, in_dim, out_dim),
            t,
            out_dim as int,
        )) == b.projected(rows[t], weight, out_dim, in_dim)
}

/// Attention over the first `n` rows of a cache depends on those alone.
pub open spec fn reads_counted_rows<T: TensorBackend>(b: T) -> bool {
    forall|
        q: Seq<u32>,
        k: Seq<u32>,
        v: Seq<u32>,
        more_k: Seq<u32>,
        more_v: Seq<u32>,
        n: usize,
        heads: HeadShape,
    |
        #![trigger b.attended(q, k, v, n, heads), b.attended(q, more_k, more_v, n, heads)]
        {
            let m = n * (heads.num_kv_heads * heads.head_dim);
            &&& k.len() == m
            &&& v.len() == m
            &&& k.is_prefix_of(more_k)
            &&& v.is_prefix_of(more_v)
        } ==> b.attended(q, k, v, n, heads) == b.attended(q, more_k, more_v, n, heads)
}

/// The first `n` tokens of a prompt passed one by one, each at its own position.
pub open spec fn one_by_one<T: TensorBackend>(
    b: T,
    w: WeightsState,
    prompt: Seq<u32>,
    seq: u64,
    layers: Seq<CacheState>,
    n: int,
) -> PassState
    decreases n,
{
    if n <= 0 {
        PassState { x: Seq::empty(), attn: Seq::empty(), kv: None, layers }
    } else {
        token_pass(
            b,
            w,
            prompt[n - 1],
            (n - 1) as usize,
            seq,
            None,
            one_by_one(b, w, prompt, seq, layers, n - 1).layers,
        )
    }
}

/// The rows of a prompt projected together are those projected one by one.
pub proof fn lemma_projected<T: TensorBackend>(
    b: T,
    rows: Seq<Seq<u32>>,
    weight: Seq<u32>,
    in_dim: usize,
    out_dim: usize,
    t: int,
)
    requires
        row_by_row(b),
        rows.len() <= usize::MAX,
        rows_of_width(rows, in_dim as int),
        0 <= t < rows.len(),
    ensures
        row_of(
            b.batch_projected(flat(rows), weight, rows.len() as usize, in_dim, out_dim),
            t,
            out_dim as int,
        ) == b.projected(rows[t], weight, out_dim, in_dim),
{
}

/// Query, key and value rows of several tokens are those of each.
pub proof fn lemma_qkv_row<T: TensorBackend>(
    b: T,
    w: WeightsState,
    l: int,
    rows: Seq<Seq<u32>>,
    positions: Seq<usize>,
    t: int,
)
    requires
        keeps_sizes(b),
        row_by_row(b),
        w.config.widths_fit(),
        0 <= w.config.hidden(),
        0 <= w.config.q_dim(),
        0 <= w.config.kv_dim(),
        rows.len() <= usize::MAX,
        rows_of_width(rows, w.config.hidden()),
        0 <= t < rows.len(),
    ensures
        ({
            let all = qkv_rows(b, w, l, rows, positions);
            (all.0[t], all.1[t], all.2[t]) == qkv(b, w, l, positions[t], rows[t])
        }),
        qkv(b, w, l, positions[t], rows[t]).0.len() == w.config.q_dim(),
        qkv(b, w, l, positions[t], rows[t]).1.len() == w.config.kv_dim(),
        qkv(b, w, l, positions[t], rows[t]).2.len() == w.config.kv_dim(),
{
    let lw = w.layers[l];
    let hidden = w.config.hidden() as usize;
    let normed = norm_rows(b, rows, lw.input_layernorm, w.config.rms_norm_eps);
    assert(rows_of_width(normed, w.config.hidden()));
    lemma_projected(b, normed, lw.q_proj, hidden, w.config.q_dim() as usize, t);
    lemma_projected(b, normed, lw.k_proj, hidden, w.config.kv_dim() as usize, t);
    lemma_projected(b, normed, lw.v_proj, hidden, w.config.kv_dim() as usize, t);
}

/// The second half of a layer for a prompt is that for each of its tokens.
proof fn lemma_mlp_row<T: TensorBackend>(b: T, w: WeightsState, l: int, rows: Seq<Seq<u32>>, t: int)
    requires
        keeps_sizes(b),
        row_by_row(b),
        w.config.widths_fit(),
        0 <= w.config.hidden(),
        0 <= w.config.intermediate(),
        rows.len() <= usize::MAX,
        rows_of_width(rows, w.config.hidden()),
        0 <= t < rows.len(),
    ensures
        prompt_mlp(b, w, l, rows).len() == rows.len(),
        prompt_mlp(b, w, l, rows)[t] == through_mlp(b, w, l, rows[t]),
        prompt_mlp(b, w, l, rows)[t].len() == w.config.hidden(),
{
    let lw = w.layers[l];
    let n = rows.len() as usize;
    let hidden = w.config.hidden();
    let inner = w.config.intermediate();
    let post = norm_rows(b, rows, lw.post_attention_layernorm, w.config.rms_norm_eps);
    assert(rows_of_width(post, hidden));
    let gate = b.batch_projected(flat(post), lw.gate_proj, n, hidden as usize, inner as usize);
    let up = b.batch_projected(flat(post), lw.up_proj, n, hidden as usize, inner as usize);
    let act = gate_rows(b, gate, up, rows.len() as int, inner);
    assert forall|i: int| 0 <= i < rows.len() implies (#[trigger] act[i]) == b.gated(
        b.projected(post[i], lw.gate_proj, inner as usize, hidden as usize),
        b.projected(post[i], lw.up_proj, inner as usize, hidden as usize),
    ) by {
        lemma_projected(b, post, lw.gate_proj, hidden as usize, inner as usize, i);
        lemma_projected(b, post, lw.up_proj, hidden as usize, inner as usize, i);
    }
    assert(rows_of_width(act, inner));
    lemma_projected(b, act, lw.down_proj, inner as usize, hidden as usize, t);
}

/// The rows of a cache, one behind the other: how many elements, and what the first ones are.
proof fn lemma_cache_prefix(k: Seq<Seq<u32>>, v: Seq<Seq<u32>>, m: int, n: int, width: int)
    requires
        0 <= m <= n <= k.len(),
        n <= v.len(),
        rows_of_width(k, width),
        rows_of_width(v, width),
    ensures
        with_rows(CacheState::empty(), k, v, m).flat_k.len() == m * width,
        with_rows(CacheState::empty(), k, v, m).flat_v.len() == m * width,
        with_rows(CacheState::empty(), k, v, m).cached_k.len() == m,
        with_rows(CacheState::empty(), k, v, m).flat_k.is_prefix_of(
            with_rows(CacheState::empty(), k, v, n).flat_k,
        ),
        with_rows(CacheState::empty(), k, v, m).flat_v.is_prefix_of(
            with_rows(CacheState::empty(), k, v, n).flat_v,
        ),
    decreases n,
{
    if n > m {
        lemma_cache_prefix(k, v, m, n - 1, width);
    } else if m > 0 {
        lemma_cache_prefix(k, v, m - 1, m - 1, width);
        assert((m - 1) * width + width == m * width) by (nonlinear_arith);
        assert(k[m - 1].len() == width && v[m - 1].len() == width);
    } else {
        assert(0 * width == 0);
    }
}

/// What a token's pass works on after `l` layers, as the prompt's pass tells it: the token's
/// row, and the rows up to its own in the caches of those layers.
spec fn in_step<T: TensorBackend>(
    b: T,
    w: WeightsState,
    l: int,
    start: PromptState,
    before: Seq<CacheState>,
    t: int,
    s: PassState,
) -> bool {
    &&& s.x == prompt_layers(b, w, l, None, start).rows[t]
    &&& s.kv is None
    &&& s.layers.len() == before.len()
    &&& forall|i: int|
        0 <= i < before.len() ==> #[trigger] s.layers[i] == if i < l {
            cache_of(b, w, i, start, t + 1)
        } else {
            before[i]
        }
}

/// The cache of a layer with the rows of the first `n` tokens of a prompt.
spec fn cache_of<T: TensorBackend>(
    b: T,
    w: WeightsState,
    l: int,
    start: PromptState,
    n: int,
) -> CacheState {
    let rows = prompt_layers(b, w, l, None, start).rows;
    let all = qkv_rows(b, w, l, rows, counted(rows.len()));
    with_rows(CacheState::empty(), all.1, all.2, n)
}

/// The prompt's pass starts from embeddings of the right width, and from empty caches.
spec fn starts<T: TensorBackend>(b: T, w: WeightsState, start: PromptState) -> bool {
    &&& keeps_sizes(b)
    &&& row_by_row(b)
    &&& reads_counted_rows(b)
    &&& w.config.widths_fit()
    &&& 0 <= w.config.hidden()
    &&& 0 <= w.config.intermediate()
    &&& 0 <= w.config.q_dim()
    &&& 0 <= w.config.kv_dim()
    &&& start.rows.len() <= usize::MAX
    &&& rows_of_width(start.rows, w.config.hidden())
    &&& start.kv is None
    &&& start.layers.len() >= w.layers.len()
    &&& forall|i: int|
        0 <= i < w.layers.len() ==> #[trigger] start.layers[i] == CacheState::empty()
}

/// A layer of a prompt: its rows keep their width, and row `t` is what the token makes of its
/// own, given the rows up to it.
proof fn lemma_prompt_layer<T: TensorBackend>(
    b: T,
    w: WeightsState,
    l: int,
    start: PromptState,
    t: int,
    s: PassState,
    seq: u64,
)
    requires
        starts(b, w, start),
        0 <= l < w.layers.len(),
        0 <= t < start.rows.len(),
        prompt_layers(b, w, l, None, start).rows.len() == start.rows.len(),
        rows_of_width(prompt_layers(b, w, l, None, start).rows, w.config.hidden()),
        prompt_layers(b, w, l, None, start).layers.len() == start.layers.len(),
        prompt_layers(b, w, l, None, start).layers[l] == CacheState::empty(),
        s.x == prompt_layers(b, w, l, None, start).rows[t],
        s.kv is None,
        l < s.layers.len(),
        s.layers[l] == cache_of(b, w, l, start, t),
    ensures
        prompt_layers(b, w, l + 1, None, start).rows.len() == start.rows.len(),
        prompt_layers(b, w, l + 1, None, start).rows[t].len() == w.config.hidden(),
        prompt_layers(b, w, l + 1, None, start).layers[l] == cache_of(
            b,
            w,
            l,
            start,
            start.rows.len() as int,
        ),
        ({
            let next = through_layer(b, w, l, t as usize, None, seq, s);
            &&& next.x == prompt_layers(b, w, l + 1, None, start).rows[t]
            &&& next.kv is None
            &&& next.layers == s.layers.update(l, cache_of(b, w, l, start, t + 1))
        }),
{
    let p = prompt_layers(b, w, l, None, start);
    let n = p.rows.len();
    let lw = w.layers[l];
    let hidden = w.config.hidden();
    let q_dim = w.config.q_dim();
    let kv_dim = w.config.kv_dim();
    let heads = w.config.heads();
    let (q, k, v) = qkv_rows(b, w, l, p.rows, counted(n));
    assert forall|i: int| 0 <= i < n implies (#[trigger] q[i]).len() == q_dim by {
        lemma_qkv_row(b, w, l, p.rows, counted(n), i);
    }
    assert forall|i: int| 0 <= i < n implies (#[trigger] k[i]).len() == kv_dim by {
        lemma_qkv_row(b, w, l, p.rows, counted(n), i);
    }
    assert forall|i: int| 0 <= i < n implies (#[trigger] v[i]).len() == kv_dim by {
        lemma_qkv_row(b, w, l, p.rows, counted(n), i);
    }
    lemma_qkv_row(b, w, l, p.rows, counted(n), t);
    let whole = with_rows(CacheState::empty(), k, v, n as int);
    let part = with_rows(CacheState::empty(), k, v, t + 1);
    lemma_cache_prefix(k, v, t + 1, n as int, kv_dim);
    assert(part == s.layers[l].with_row(k[t], v[t]));
    let seen = attend_rows(b, w, q, whole);
    assert(seen[t] == b.attended(q[t], whole.flat_k, whole.flat_v, (t + 1) as usize, heads));
    assert(seen[t] == b.attended(q[t], part.flat_k, part.flat_v, (t + 1) as usize, heads));
    assert(rows_of_width(seen, q_dim));
    let proj = b.batch_projected(flat(seen), lw.o_proj, n as usize, q_dim as usize, hidden as usize);
    assert(seen.len() == n);
    lemma_projected(b, seen, lw.o_proj, q_dim as usize, hidden as usize, t);
    let sums = sum_rows(b, p.rows, proj, hidden);
    assert(rows_of_width(sums, hidden));
    lemma_mlp_row(b, w, l, sums, t);
}

/// The rows of a prompt keep their number and width through the layers, and the caches of
/// the layers to come stay empty.
proof fn lemma_prompt_widths<T: TensorBackend>(b: T, w: WeightsState, l: int, start: PromptState)
    requires
        starts(b, w, start),
        0 <= l <= w.layers.len(),
    ensures
        prompt_layers(b, w, l, None, start).rows.len() == start.rows.len(),
        rows_of_width(prompt_layers(b, w, l, None, start).rows, w.config.hidden()),
        prompt_layers(b, w, l, None, start).layers.len() == start.layers.len(),
        forall|i: int|
            0 <= i < start.layers.len() ==> #[trigger] prompt_layers(b, w, l, None, start).layers[i]
                == if i < l {
                cache_of(b, w, i, start, start.rows.len() as int)
            } else {
                start.layers[i]
            },
    decreases l,
{
    if l > 0 {
        lemma_prompt_widths(b, w, l - 1, start);
        let p = prompt_layers(b, w, l - 1, None, start);
        let next = prompt_layers(b, w, l, None, start);
        assert(p.layers[l - 1] == start.layers[l - 1]);
        assert forall|t: int| 0 <= t < next.rows.len() implies (#[trigger] next.rows[t]).len()
            == w.config.hidden() by {
            let s = PassState {
                x: p.rows[t],
                attn: Seq::empty(),
                kv: None,
                layers: p.layers.update(l - 1, cache_of(b, w, l - 1, start, t)),
            };
            lemma_prompt_layer(b, w, l - 1, start, t, s, 0);
        }
    }
}

/// The first `l` layers of token `t` keep in step with those of the prompt.
proof fn lemma_token_in_step<T: TensorBackend>(
    b: T,
    w: WeightsState,
    l: int,
    start: PromptState,
    t: int,
    first: PassState,
    seq: u64,
)
    requires
        starts(b, w, start),
        0 <= l <= w.layers.len(),
        0 <= t < start.rows.len(),
        first.x == start.rows[t],
        first.kv is None,
        first.layers.len() == start.layers.len(),
        forall|i: int|
            0 <= i < w.layers.len() ==> #[trigger] first.layers[i] == cache_of(b, w, i, start, t),
    ensures
        in_step(
            b,
            w,
            l,
            start,
            first.layers,
            t,
            through_layers(b, w, l, t as usize, None, seq, first),
        ),
    decreases l,
{
    if l > 0 {
        lemma_token_in_step(b, w, l - 1, start, t, first, seq);
        lemma_prompt_widths(b, w, l - 1, start);
        let s = through_layers(b, w, l - 1, t as usize, None, seq, first);
        assert(s.layers[l - 1] == first.layers[l - 1]);
        assert(prompt_layers(b, w, l - 1, None, start).layers[l - 1] == start.layers[l - 1]);
        lemma_prompt_layer(b, w, l - 1, start, t, s, seq);
    }
}

/// After `n` tokens every cache has their rows.
proof fn lemma_one_by_one<T: TensorBackend>(
    b: T,
    w: WeightsState,
    prompt: Seq<u32>,
    seq: u64,
    start: PromptState,
    n: int,
)
    requires
        starts(b, w, start),
        start.rows == embeddings(w, prompt),
        0 <= n <= prompt.len(),
    ensures
        ({
            let done = one_by_one(b, w, prompt, seq, start.layers, n);
            &&& done.layers.len() == start.layers.len()
            &&& n > 0 ==> done.x == prompt_layers(
                b,
                w,
                w.layers.len() as int,
                None,
                start,
            ).rows[n - 1]
            &&& forall|i: int|
                0 <= i < start.layers.len() ==> #[trigger] done.layers[i] == if i
                    < w.layers.len() {
                    cache_of(b, w, i, start, n)
                } else {
                    start.layers[i]
                }
        }),
    decreases n,
{
    if n > 0 {
        lemma_one_by_one(b, w, prompt, seq, start, n - 1);
        let before = one_by_one(b, w, prompt, seq, start.layers, n - 1).layers;
        lemma_token_in_step(
            b,
            w,
            w.layers.len() as int,
            start,
            n - 1,
            PassState {
                x: w.embedding(prompt[n - 1]),
                attn: zeros(w.config.q_dim()),
                kv: None,
                layers: before,
            },
            seq,
        );
    }
}

/// The row of a prompt's token after some layers is what the token's own pass has there, after
/// the tokens before it were passed.
pub proof fn lemma_rows_in_step<T: TensorBackend>(
    b: T,
    w: WeightsState,
    prompt: Seq<u32>,
    seq: u64,
    layers: Seq<CacheState>,
    l: int,
    t: int,
)
    requires
        keeps_sizes(b),
        row_by_row(b),
        reads_counted_rows(b),
        w.takes_all(prompt),
        prompt.len() <= usize::MAX,
        layers.len() >= w.layers.len(),
        forall|i: int| 0 <= i < w.layers.len() ==> #[trigger] layers[i] == CacheState::empty(),
        0 <= l <= w.layers.len(),
        0 <= t < prompt.len(),
    ensures
        ({
            let start = PromptState { rows: embeddings(w, prompt), kv: None, layers };
            let first = PassState {
                x: w.embedding(prompt[t]),
                attn: zeros(w.config.q_dim()),
                kv: None,
                layers: one_by_one(b, w, prompt, seq, layers, t).layers,
            };
            let rows = prompt_layers(b, w, l, None, start).rows;
            &&& rows.len() == prompt.len()
            &&& rows_of_width(rows, w.config.hidden())
            &&& rows[t] == through_layers(b, w, l, t as usize, None, seq, first).x
        }),
{
    let start = PromptState { rows: embeddings(w, prompt), kv: None, layers };
    w.lemma_embedding_widths(prompt);
    assert(starts(b, w, start));
    lemma_one_by_one(b, w, prompt, seq, start, t);
    lemma_prompt_widths(b, w, l, start);
    let first = PassState {
        x: w.embedding(prompt[t]),
        attn: zeros(w.config.q_dim()),
        kv: None,
        layers: one_by_one(b, w, prompt, seq, layers, t).layers,
    };
    lemma_token_in_step(b, w, l, start, t, first, seq);
}

/// Where a matrix applied to several rows gives what it gives applied to each, and attention
/// reads the rows that it is told of alone, prefilling a prompt layer by layer into empty
/// caches gives what passing its tokens one by one gives: the hidden state of the last token,
/// and in every layer the same rows.
pub proof fn law_prefill_is_one_by_one<T: TensorBackend>(
    b: T,
    w: WeightsState,
    prompt: Seq<u32>,
    seq: u64,
    s: TokensState,
)
    requires
        keeps_sizes(b),
        row_by_row(b),
        reads_counted_rows(b),
        w.takes_all(prompt),
        0 < prompt.len() <= usize::MAX,
        s.layers.len() >= w.layers.len(),
        forall|i: int| 0 <= i < w.layers.len() ==> #[trigger] s.layers[i] == CacheState::empty(),
    ensures
        ({
            let done = prefill_pass(b, w, prompt, seq, None, s);
            let n = prompt.len() as int;
            let last = one_by_one(b, w, prompt, seq, s.layers, n);
            &&& done.hidden == hidden_of(b, w, last.x)
            &&& done.seq == (TokensState { tokens: s.tokens + prompt, layers: last.layers })
        }),
{
    let n = prompt.len() as int;
    if n == 1 {
        assert(one_by_one(b, w, prompt, seq, s.layers, 0).layers == s.layers);
        assert(one_by_one(b, w, prompt, seq, s.layers, 1) == token_pass(
            b,
            w,
            prompt[0],
            0,
            seq,
            None,
            s.layers,
        ));
        assert(s.tokens + prompt =~= s.tokens.push(prompt[0]));
    } else {
        let start = PromptState { rows: embeddings(w, prompt), kv: None, layers: s.layers };
        w.lemma_embedding_widths(prompt);
        assert(starts(b, w, start));
        lemma_one_by_one(b, w, prompt, seq, start, n);
        lemma_prompt_widths(b, w, w.layers.len() as int, start);
        let pass = prompt_layers(b, w, w.layers.len() as int, None, start);
        assert(pass.layers =~= one_by_one(b, w, prompt, seq, s.layers, n).layers);
    }
}

impl WeightsState {
    /// Embeddings have the width of the hidden state, and no width is negative.
    proof fn lemma_embedding_widths(self, prompt: Seq<u32>)
        requires
            self.takes_all(prompt),
        ensures
            rows_of_width(embeddings(self, prompt), self.config.hidden()),
            0 <= self.config.hidden(),
            0 <= self.config.intermediate(),
            0 <= self.config.q_dim(),
            0 <= self.config.kv_dim(),
    {
        let hidden = self.config.hidden();
        let vocab = self.config.vocab() as int;
        assert(0 <= self.config.num_heads * self.config.head_dim) by (nonlinear_arith)
            requires
                0 <= self.config.num_heads,
                0 <= self.config.head_dim,
        ;
        assert(0 <= self.config.num_kv_heads * self.config.head_dim) by (nonlinear_arith)
            requires
                0 <= self.config.num_kv_heads,
                0 <= self.config.head_dim,
        ;
        assert forall|t: int| 0 <= t < prompt.len() implies (#[trigger] embeddings(
            self,
            prompt,
        )[t]).len() == hidden by {
            let at = prompt[t] as int % vocab;
            assert(self.takes(prompt[t]));
            assert(0 <= at * hidden && at * hidden + hidden <= vocab * hidden) by (nonlinear_arith)
                requires
                    0 <= at < vocab,
                    0 <= hidden,
            ;
        }
    }
}

} // verus!
