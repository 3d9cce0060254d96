//! The forward pass of a whole prompt, layer by layer.

use crate::buffer::{HeapUnifiedBuffer, UnifiedBuffer};
use crate::forward::{
    forward_token_impl_paged, held, hidden_of, pass_fits, reserved, token_pass,
};
use crate::kv_manager::AienKvManager;
use crate::kv_state::KvState;
use crate::maps::view_all;
use crate::tensor::{
    append_row, flat, lemma_flat_len, lemma_flat_push, lemma_row_in, row_of, row_slice,
    TensorBackend,
};
use crate::weights::{
    CacheState, SequenceState, TokensState, TransformerWeights, WeightsState, Widths,
};
use vstd::prelude::*;
use vstd::slice::slice_to_vec;

verus! {

broadcast use crate::maps::group_view_all;

// ---- Row by row ----
pub open spec fn norm_rows<T: TensorBackend>(
    b: T,
    rows: Seq<Seq<u32>>,
    weight: Seq<u32>,
    eps: u32,
) -> Seq<Seq<u32>> {
    Seq::new(rows.len(), |t: int| b.normed(rows[t], weight, eps))
}

pub open spec fn sum_rows<T: TensorBackend>(
    b: T,
    rows: Seq<Seq<u32>>,
    delta: Seq<u32>,
    width: int,
) -> Seq<Seq<u32>> {
    Seq::new(rows.len(), |t: int| b.summed(rows[t], row_of(delta, t, width)))
}

pub open spec fn gate_rows<T: TensorBackend>(
    b: T,
    gate: Seq<u32>,
    up: Seq<u32>,
    n: int,
    width: int,
) -> Seq<Seq<u32>> {
    Seq::new(n as nat, |t: int| b.gated(row_of(gate, t, width), row_of(up, t, width)))
}

/// Query and key row `t`, rotated to a position.
pub open spec fn turned<T: TensorBackend>(
    b: T,
    w: WeightsState,
    q: Seq<u32>,
    k: Seq<u32>,
    t: int,
    pos: usize,
) -> (Seq<u32>, Seq<u32>) {
    b.rotated(
        row_of(q, t, w.config.q_dim()),
        row_of(k, t, w.config.kv_dim()),
        pos,
        w.config.heads(),
        w.config.rope_theta,
    )
}

pub open spec fn split_rows(flat: Seq<u32>, n: int, width: int) -> Seq<Seq<u32>> {
    Seq::new(n as nat, |t: int| row_of(flat, t, width))
}

/// Each query row attends to the rows up to its own.
pub open spec fn attend_rows<T: TensorBackend>(
    b: T,
    w: WeightsState,
    q: Seq<Seq<u32>>,
    cache: CacheState,
) -> Seq<Seq<u32>> {
    Seq::new(
        q.len(),
        |t: int|
            b.attended(q[t], cache.flat_k, cache.flat_v, (t + 1) as usize, w.config.heads()),
    )
}

/// A cache with the first `n` rows added.
pub open spec fn with_rows(cache: CacheState, k: Seq<Seq<u32>>, v: Seq<Seq<u32>>, n: int) -> CacheState
    decreases n,
{
    if n <= 0 {
        cache
    } else {
        with_rows(cache, k, v, n - 1).with_row(k[n - 1], v[n - 1])
    }
}

/// Where token `t` of a prompt lies in the blocks of its table.
pub open spec fn place_of(table: Seq<usize>, block_size: usize, t: int) -> (usize, usize) {
    (table[t / block_size as int], (t % block_size as int) as usize)
}

/// The KV cache with the first `n` rows of a prompt written to its blocks.
pub open spec fn write_rows(
    kv: KvState,
    table: Seq<usize>,
    block_size: usize,
    layer: int,
    k: Seq<Seq<u32>>,
    v: Seq<Seq<u32>>,
    n: int,
) -> KvState
    decreases n,
{
    if n <= 0 {
        kv
    } else {
        write_rows(kv, table, block_size, layer, k, v, n - 1).write_slot(
            place_of(table, block_size, n - 1),
            layer,
            k[n - 1],
            v[n - 1],
        )
    }
}

/// The positions of a prompt's tokens.
pub open spec fn counted(n: nat) -> Seq<usize> {
    Seq::new(n, |t: int| t as usize)
}

/// What a prompt's forward pass works on.
#[verifier::ext_equal]
pub struct PromptState {
    pub rows: Seq<Seq<u32>>,
    pub kv: Option<KvState>,
    pub layers: Seq<CacheState>,
}

/// Query, key and value rows of several tokens in one layer, each at its own position.
pub open spec fn qkv_rows<T: TensorBackend>(
    b: T,
    w: WeightsState,
    l: int,
    rows: Seq<Seq<u32>>,
    positions: Seq<usize>,
) -> (Seq<Seq<u32>>, Seq<Seq<u32>>, Seq<Seq<u32>>) {
    let lw = w.layers[l];
    let n = rows.len() as usize;
    let hidden = w.config.hidden() as usize;
    let normed = flat(norm_rows(b, rows, lw.input_layernorm, w.config.rms_norm_eps));
    let q = b.batch_projected(normed, lw.q_proj, n, hidden, w.config.q_dim() as usize);
    let k = b.batch_projected(normed, lw.k_proj, n, hidden, w.config.kv_dim() as usize);
    let v = b.batch_projected(normed, lw.v_proj, n, hidden, w.config.kv_dim() as usize);
    (
        Seq::new(rows.len(), |t: int| turned(b, w, q, k, t, positions[t]).0),
        Seq::new(rows.len(), |t: int| turned(b, w, q, k, t, positions[t]).1),
        split_rows(v, rows.len() as int, w.config.kv_dim()),
    )
}

/// The second half of a layer for a prompt.
pub open spec fn prompt_mlp<T: TensorBackend>(
    b: T,
    w: WeightsState,
    l: int,
    rows: Seq<Seq<u32>>,
) -> Seq<Seq<u32>> {
    let lw = w.layers[l];
    let n = rows.len() as usize;
    let hidden = w.config.hidden();
    let inner = w.config.intermediate();
    let post = flat(norm_rows(b, rows, lw.post_attention_layernorm, w.config.rms_norm_eps));
    let gate = b.batch_projected(post, lw.gate_proj, n, hidden as usize, inner as usize);
    let up = b.batch_projected(post, lw.up_proj, n, hidden as usize, inner as usize);
    let act = flat(gate_rows(b, gate, up, rows.len() as int, inner));
    let out = b.batch_projected(act, lw.down_proj, n, inner as usize, hidden as usize);
    sum_rows(b, rows, out, hidden)
}

/// One layer for a prompt. Its rows go to the sequence's own cache and, where it has blocks
/// in the KV cache, there too.
pub open spec fn prompt_layer<T: TensorBackend>(
    b: T,
    w: WeightsState,
    l: int,
    table: Option<Seq<usize>>,
    s: PromptState,
) -> PromptState {
    let lw = w.layers[l];
    let n = s.rows.len();
    let (q, k, v) = qkv_rows(b, w, l, s.rows, counted(n));
    let kv = match table {
        Some(t) => Some(write_rows(s.kv->0, t, w.config.block_size, l, k, v, n as int)),
        None => s.kv,
    };
    let cache = with_rows(s.layers[l], k, v, n as int);
    let attn = flat(attend_rows(b, w, q, cache));
    let proj = b.batch_projected(
        attn,
        lw.o_proj,
        n as usize,
        w.config.q_dim() as usize,
        w.config.hidden() as usize,
    );
    PromptState {
        rows: prompt_mlp(b, w, l, sum_rows(b, s.rows, proj, w.config.hidden())),
        kv,
        layers: s.layers.update(l, cache),
    }
}

/// The first `n` layers for a prompt.
pub open spec fn prompt_layers<T: TensorBackend>(
    b: T,
    w: WeightsState,
    n: int,
    table: Option<Seq<usize>>,
    s: PromptState,
) -> PromptState
    decreases n,
{
    if n <= 0 {
        s
    } else {
        prompt_layer(b, w, n - 1, table, prompt_layers(b, w, n - 1, table, s))
    }
}

/// The blocks of a sequence in the KV cache, if it has any there.
pub open spec fn table_for(kv: Option<KvState>, seq: u64) -> Option<Seq<usize>> {
    match kv {
        Some(s) => if s.tables.contains_key(seq) {
            Some(s.tables[seq].block_ids)
        } else {
            None
        },
        None => None,
    }
}

/// The embeddings of a prompt.
pub open spec fn embeddings(w: WeightsState, prompt: Seq<u32>) -> Seq<Seq<u32>> {
    Seq::new(prompt.len(), |t: int| w.embedding(prompt[t]))
}

/// What prefilling a prompt gives.
pub struct Prefilled {
    pub hidden: Seq<u32>,
    pub kv: Option<KvState>,
    pub seq: TokensState,
}

/// Prefilling a prompt: nothing for an empty one, a single token's pass for one token, and
/// all rows layer by layer for a longer one. A sequence whose rows are in the KV cache
/// keeps none of its own.
pub open spec fn prefill_pass<T: TensorBackend>(
    b: T,
    w: WeightsState,
    prompt: Seq<u32>,
    seq: u64,
    kv: Option<KvState>,
    s: TokensState,
) -> Prefilled {
    if prompt.len() == 0 {
        Prefilled { hidden: Seq::empty(), kv, seq: s }
    } else if prompt.len() == 1 {
        let pass = token_pass(b, w, prompt[0], 0, seq, kv, s.layers);
        Prefilled {
            hidden: hidden_of(b, w, pass.x),
            kv: pass.kv,
            seq: TokensState { tokens: s.tokens.push(prompt[0]), layers: pass.layers },
        }
    } else {
        let pass = prompt_layers(
            b,
            w,
            w.layers.len() as int,
            table_for(kv, seq),
            PromptState { rows: embeddings(w, prompt), kv, layers: s.layers },
        );
        Prefilled {
            hidden: hidden_of(b, w, pass.rows.last()),
            kv: pass.kv,
            seq: TokensState {
                tokens: s.tokens + prompt,
                layers: if kv is Some {
                    Seq::empty()
                } else {
                    pass.layers
                },
            },
        }
    }
}

/// The blocks of a table that the first `n` tokens lie in exist in the tensor pool, if there
/// is one.
pub open spec fn rows_reached(kv: KvState, table: Seq<usize>, block_size: usize, n: int) -> bool {
    forall|t: int|
        0 <= t < n ==> kv.pool_reaches((#[trigger] place_of(table, block_size, t)).0 as int)
}

/// The KV cache has the blocks of a prompt of `n` tokens, and its pool takes their rows.
pub open spec fn blocks_take(w: WeightsState, kv: KvState, table: Seq<usize>, n: int) -> bool {
    &&& w.config.block_size > 0
    &&& n <= table.len() * w.config.block_size
    &&& kv.takes_rows(w.layers.len() as int, w.config.kv_dim())
    &&& kv.pool is Some ==> w.config.block_size <= kv.block_size
    &&& w.layers.len() > 0 ==> rows_reached(kv, table, w.config.block_size, n)
}

/// A prompt's pass finds what it needs.
pub open spec fn prefill_fits(
    w: WeightsState,
    prompt: Seq<u32>,
    kv: Option<KvState>,
    own_layers: int,
    seq: u64,
) -> bool {
    if prompt.len() == 0 {
        true
    } else if prompt.len() == 1 {
        pass_fits(w, prompt[0], kv, own_layers, seq)
    } else {
        &&& w.takes_all(prompt)
        &&& w.config.rows_fit(prompt.len() as int)
        &&& own_layers >= w.layers.len()
        &&& kv is Some ==> kv->0.wf()
        &&& table_for(kv, seq) is Some ==> blocks_take(
            w,
            kv->0,
            table_for(kv, seq)->0,
            prompt.len() as int,
        )
    }
}

// ---- Executable ----
/// All rows, normalised, one behind the other.
pub(crate) fn normalise<T: TensorBackend>(
    backend: &T,
    rows: &Vec<Vec<u32>>,
    weight: &Vec<u32>,
    eps: u32,
    width: usize,
) -> (r: Vec<u32>)
    requires
        forall|t: int| 0 <= t < rows@.len() ==> (#[trigger] rows@[t])@.len() == width,
    ensures
        r@ == flat(norm_rows(*backend, view_all(rows@), weight@, eps)),
        r@.len() == rows@.len() * width,
{
    let ghost all = norm_rows(*backend, view_all(rows@), weight@, eps);
    let mut r: Vec<u32> = Vec::new();
    let mut t: usize = 0;
    assert(all.take(0) =~= Seq::<Seq<u32>>::empty());
    while t < rows.len()
        invariant
            t <= rows@.len(),
            all == norm_rows(*backend, view_all(rows@), weight@, eps),
            forall|i: int| 0 <= i < rows@.len() ==> (#[trigger] rows@[i])@.len() == width,
            forall|i: int| 0 <= i < t ==> (#[trigger] all[i]).len() == width,
            r@ == flat(all.take(t as int)),
        decreases rows@.len() - t,
    {
        let row = backend.rmsnorm(rows[t].as_slice(), weight.as_slice(), eps);
        append_row(&mut r, row.as_slice());
        proof {
            assert(row@ == all[t as int]);
            lemma_flat_push(all.take(t as int), row@);
            assert(all.take(t as int).push(row@) =~= all.take(t + 1));
        }
        t = t + 1;
    }
    proof {
        assert(all.take(rows@.len() as int) =~= all);
        lemma_flat_len(all, width as int);
    }
    r
}

/// Adds the rows of a flat tensor to rows.
fn add_rows<T: TensorBackend>(
    backend: &T,
    rows: &Vec<Vec<u32>>,
    delta: &Vec<u32>,
    width: usize,
) -> (r: Vec<Vec<u32>>)
    requires
        forall|t: int| 0 <= t < rows@.len() ==> (#[trigger] rows@[t])@.len() == width,
        delta@.len() == rows@.len() * width,
    ensures
        view_all(r@) == sum_rows(*backend, view_all(rows@), delta@, width as int),
        r@.len() == rows@.len(),
        forall|t: int| 0 <= t < r@.len() ==> (#[trigger] r@[t])@.len() == width,
{
    let ghost all = sum_rows(*backend, view_all(rows@), delta@, width as int);
    let mut r: Vec<Vec<u32>> = Vec::new();
    let mut t: usize = 0;
    assert(view_all(r@) =~= all.take(0));
    while t < rows.len()
        invariant
            t <= rows@.len(),
            r@.len() == t,
            all == sum_rows(*backend, view_all(rows@), delta@, width as int),
            forall|i: int| 0 <= i < rows@.len() ==> (#[trigger] rows@[i])@.len() == width,
            delta@.len() == rows@.len() * width,
            view_all(r@) == all.take(t as int),
            forall|i: int| 0 <= i < t ==> (#[trigger] r@[i])@.len() == width,
        decreases rows@.len() - t,
    {
        proof {
            lemma_row_in(t as int, rows@.len() as int, width as int);
        }
        let row = backend.residual(rows[t].as_slice(), row_slice(delta, t, width));
        r.push(row);
        assert(view_all(r@) =~= all.take(t + 1));
        t = t + 1;
    }
    assert(all.take(rows@.len() as int) =~= all);
    r
}

/// The gated rows of two flat tensors, one behind the other.
pub(crate) fn activate<T: TensorBackend>(
    backend: &T,
    gate: &Vec<u32>,
    up: &Vec<u32>,
    n: usize,
    width: usize,
) -> (r: Vec<u32>)
    requires
        gate@.len() == n * width,
        up@.len() == n * width,
    ensures
        r@ == flat(gate_rows(*backend, gate@, up@, n as int, width as int)),
        r@.len() == n * width,
{
    let ghost all = gate_rows(*backend, gate@, up@, n as int, width as int);
    let mut r: Vec<u32> = Vec::new();
    let mut t: usize = 0;
    assert(all.take(0) =~= Seq::<Seq<u32>>::empty());
    while t < n
        invariant
            t <= n,
            gate@.len() == n * width,
            up@.len() == n * width,
            all == gate_rows(*backend, gate@, up@, n as int, width as int),
            forall|i: int| 0 <= i < t ==> (#[trigger] all[i]).len() == width,
            r@ == flat(all.take(t as int)),
        decreases n - t,
    {
        proof {
            lemma_row_in(t as int, n as int, width as int);
        }
        let row = backend.swiglu(row_slice(gate, t, width), row_slice(up, t, width));
        append_row(&mut r, row.as_slice());
        proof {
            assert(row@ == all[t as int]);
            lemma_flat_push(all.take(t as int), row@);
            assert(all.take(t as int).push(row@) =~= all.take(t + 1));
        }
        t = t + 1;
    }
    proof {
        assert(all.take(n as int) =~= all);
        lemma_flat_len(all, width as int);
    }
    r
}

/// Query, key and value rows of several tokens in one layer.
pub(crate) fn compute_qkv_rows<T: TensorBackend>(
    weights: &TransformerWeights,
    backend: &T,
    widths: Widths,
    layer: usize,
    rows: &Vec<Vec<u32>>,
    positions: &Vec<usize>,
) -> (r: (Vec<Vec<u32>>, Vec<Vec<u32>>, Vec<Vec<u32>>))
    requires
        widths.of(weights@.config),
        weights@.config.rows_fit(rows@.len() as int),
        layer < weights@.layers.len(),
        positions@.len() == rows@.len(),
        forall|t: int| 0 <= t < rows@.len() ==> (#[trigger] rows@[t])@.len() == widths.hidden,
    ensures
        (view_all(r.0@), view_all(r.1@), view_all(r.2@)) == qkv_rows(
            *backend,
            weights@,
            layer as int,
            view_all(rows@),
            positions@,
        ),
        r.0@.len() == rows@.len(),
        r.1@.len() == rows@.len(),
        r.2@.len() == rows@.len(),
        forall|t: int| 0 <= t < rows@.len() ==> (#[trigger] r.0@[t])@.len() == widths.q,
        forall|t: int| 0 <= t < rows@.len() ==> (#[trigger] r.1@[t])@.len() == widths.kv,
        forall|t: int| 0 <= t < rows@.len() ==> (#[trigger] r.2@[t])@.len() == widths.kv,
{
    let lw = &weights.layers[layer];
    assert(lw@ == weights@.layers[layer as int]);
    let n: usize = rows.len();
    let ghost w = weights@;
    let normed = normalise(
        backend,
        rows,
        &lw.input_layernorm,
        weights.config.rms_norm_eps,
        widths.hidden,
    );
    let q = backend.matmul_batch(
        normed.as_slice(),
        lw.q_proj.as_slice(),
        n,
        widths.hidden,
        widths.q,
    );
    let k = backend.matmul_batch(
        normed.as_slice(),
        lw.k_proj.as_slice(),
        n,
        widths.hidden,
        widths.kv,
    );
    let v = backend.matmul_batch(
        normed.as_slice(),
        lw.v_proj.as_slice(),
        n,
        widths.hidden,
        widths.kv,
    );
    let ghost all = qkv_rows(*backend, w, layer as int, view_all(rows@), positions@);
    let mut q_rows: Vec<Vec<u32>> = Vec::new();
    let mut k_rows: Vec<Vec<u32>> = Vec::new();
    let mut v_rows: Vec<Vec<u32>> = Vec::new();
    let mut t: usize = 0;
    proof {
        assert(view_all(q_rows@) =~= all.0.take(0));
        assert(view_all(k_rows@) =~= all.1.take(0));
        assert(view_all(v_rows@) =~= all.2.take(0));
    }
    while t < n
        invariant
            t <= n,
            n == rows@.len(),
            w == weights@,
            widths.of(w.config),
            q@.len() == n * widths.q,
            k@.len() == n * widths.kv,
            v@.len() == n * widths.kv,
            positions@.len() == n,
            all.0 == Seq::new(
                n as nat,
                |t: int| turned(*backend, w, q@, k@, t, positions@[t]).0,
            ),
            all.1 == Seq::new(
                n as nat,
                |t: int| turned(*backend, w, q@, k@, t, positions@[t]).1,
            ),
            all.2 == split_rows(v@, n as int, w.config.kv_dim()),
            q_rows@.len() == t,
            k_rows@.len() == t,
            v_rows@.len() == t,
            view_all(q_rows@) == all.0.take(t as int),
            view_all(k_rows@) == all.1.take(t as int),
            view_all(v_rows@) == all.2.take(t as int),
            forall|i: int| 0 <= i < t ==> (#[trigger] q_rows@[i])@.len() == widths.q,
            forall|i: int| 0 <= i < t ==> (#[trigger] k_rows@[i])@.len() == widths.kv,
            forall|i: int| 0 <= i < t ==> (#[trigger] v_rows@[i])@.len() == widths.kv,
        decreases n - t,
    {
        proof {
            lemma_row_in(t as int, n as int, widths.q as int);
            lemma_row_in(t as int, n as int, widths.kv as int);
        }
        let (q_row, k_row) = backend.apply_rope(
            row_slice(&q, t, widths.q),
            row_slice(&k, t, widths.kv),
            positions[t],
            widths.heads,
            weights.config.rope_theta,
        );
        let v_row = slice_to_vec(row_slice(&v, t, widths.kv));
        q_rows.push(q_row);
        k_rows.push(k_row);
        v_rows.push(v_row);
        proof {
            assert(view_all(q_rows@) =~= all.0.take(t + 1));
            assert(view_all(k_rows@) =~= all.1.take(t + 1));
            assert(view_all(v_rows@) =~= all.2.take(t + 1));
        }
        t = t + 1;
    }
    proof {
        assert(all.0.take(n as int) =~= all.0);
        assert(all.1.take(n as int) =~= all.1);
        assert(all.2.take(n as int) =~= all.2);
    }
    (q_rows, k_rows, v_rows)
}

/// No token that `first` counts lies in a block of a table.
spec fn blocks_clear(kv: KvState, table: Seq<usize>, first: KvState) -> bool {
    kv.block_size > 0 ==> forall|i: int, slot: usize|
        #![trigger kv.clear_of((table[i], slot), first)]
        0 <= i < table.len() ==> kv.clear_of((table[i], slot), first)
}

/// Writes the rows of a prompt to its blocks.
fn store_rows<B: UnifiedBuffer>(
    kv: &mut AienKvManager<B>,
    table: &Vec<usize>,
    block_size: usize,
    layer: usize,
    k: &Vec<Vec<u32>>,
    v: &Vec<Vec<u32>>,
    Ghost(first): Ghost<KvState>,
)
    requires
        old(kv)@.wf(),
        old(kv)@.extends(first),
        blocks_clear(old(kv)@, table@, first),
        block_size > 0,
        k@.len() == v@.len(),
        k@.len() <= table@.len() * block_size,
        old(kv)@.pool is Some ==> {
            &&& old(kv)@.has_layer(layer as int)
            &&& block_size <= old(kv)@.block_size
            &&& rows_reached(old(kv)@, table@, block_size, k@.len() as int)
            &&& forall|t: int|
                0 <= t < k@.len() ==> (#[trigger] k@[t])@.len() == old(kv)@.pool->0.kv_dim()
            &&& forall|t: int|
                0 <= t < v@.len() ==> (#[trigger] v@[t])@.len() == old(kv)@.pool->0.kv_dim()
        },
    ensures
        final(kv)@ == write_rows(
            old(kv)@,
            table@,
            block_size,
            layer as int,
            view_all(k@),
            view_all(v@),
            k@.len() as int,
        ),
        final(kv)@.same_but_rows(old(kv)@),
        final(kv)@.extends(first),
{
    let ghost before = kv@;
    let n: usize = k.len();
    let mut t: usize = 0;
    while t < n
        invariant
            t <= n,
            n == k@.len(),
            n == v@.len(),
            n <= table@.len() * block_size,
            block_size > 0,
            before.pool is Some ==> {
                &&& before.has_layer(layer as int)
                &&& block_size <= before.block_size
                &&& rows_reached(before, table@, block_size, k@.len() as int)
                &&& forall|t: int|
                    0 <= t < k@.len() ==> (#[trigger] k@[t])@.len() == before.pool->0.kv_dim()
                &&& forall|t: int|
                    0 <= t < v@.len() ==> (#[trigger] v@[t])@.len() == before.pool->0.kv_dim()
            },
            kv@ == write_rows(
                before,
                table@,
                block_size,
                layer as int,
                view_all(k@),
                view_all(v@),
                t as int,
            ),
            kv@.same_but_rows(before),
            kv@.extends(first),
            blocks_clear(before, table@, first),
        decreases n - t,
    {
        assert(0 <= t as int / block_size as int && (t as int / block_size as int) < table@.len())
            by (nonlinear_arith)
            requires
                0 <= t < table@.len() * block_size,
                block_size > 0,
        ;
        let block: usize = table[t / block_size];
        assert(k@[t as int]@.len() == k@[t as int]@.len());
        assert(v@[t as int]@.len() == v@[t as int]@.len());
        proof {
            let place = (block, (t % block_size) as usize);
            assert(place_of(table@, block_size, t as int).0 == block);
            if kv@.block_size > 0 {
                assert(block == table@[t as int / block_size as int]);
                assert(before.clear_of(place, first));
                before.lemma_clear_frame(kv@, place, first);
            }
            kv@.lemma_write_extends(place, layer as int, k@[t as int]@, v@[t as int]@, first);
        }
        let _ = kv.write_explicit_token_kv(
            block,
            layer,
            t % block_size,
            k[t].as_slice(),
            v[t].as_slice(),
        );
        t = t + 1;
    }
}

/// Adds the rows of a prompt to a sequence's own cache.
fn cache_rows(seq: &mut SequenceState, layer: usize, k: &Vec<Vec<u32>>, v: &Vec<Vec<u32>>)
    requires
        layer < old(seq)@.layers.len(),
        k@.len() == v@.len(),
    ensures
        final(seq)@ == (TokensState {
            layers: old(seq)@.layers.update(
                layer as int,
                with_rows(
                    old(seq)@.layers[layer as int],
                    view_all(k@),
                    view_all(v@),
                    k@.len() as int,
                ),
            ),
            ..old(seq)@
        }),
{
    let ghost before = seq@;
    let mut t: usize = 0;
    assert(seq@.layers =~= before.layers.update(layer as int, before.layers[layer as int]));
    while t < k.len()
        invariant
            t <= k@.len(),
            k@.len() == v@.len(),
            layer < before.layers.len(),
            seq@.tokens == before.tokens,
            seq@.layers == before.layers.update(
                layer as int,
                with_rows(
                    before.layers[layer as int],
                    view_all(k@),
                    view_all(v@),
                    t as int,
                ),
            ),
        decreases k@.len() - t,
    {
        seq.push_row(layer, k[t].as_slice(), v[t].as_slice());
        assert(seq@.layers =~= before.layers.update(
            layer as int,
            with_rows(before.layers[layer as int], view_all(k@), view_all(v@), t + 1),
        ));
        t = t + 1;
    }
}

/// Attention of every row over the rows up to its own, one behind the other.
fn attend<T: TensorBackend>(
    backend: &T,
    widths: Widths,
    weights: &TransformerWeights,
    q: &Vec<Vec<u32>>,
    seq: &SequenceState,
    layer: usize,
) -> (r: Vec<u32>)
    requires
        layer < seq@.layers.len(),
        widths.of(weights@.config),
        forall|t: int| 0 <= t < q@.len() ==> (#[trigger] q@[t])@.len() == widths.q,
    ensures
        r@ == flat(attend_rows(*backend, weights@, view_all(q@), seq@.layers[layer as int])),
        r@.len() == q@.len() * widths.q,
{
    assert(seq@.layers.len() == seq.layers@.len());
    let cache = &seq.layers[layer];
    assert(cache@ == seq@.layers[layer as int]);
    let ghost w = weights@;
    let ghost all = attend_rows(*backend, w, view_all(q@), cache@);
    let mut r: Vec<u32> = Vec::new();
    let mut t: usize = 0;
    assert(all.take(0) =~= Seq::<Seq<u32>>::empty());
    while t < q.len()
        invariant
            t <= q@.len(),
            widths.of(w.config),
            all == attend_rows(*backend, w, view_all(q@), cache@),
            forall|i: int| 0 <= i < q@.len() ==> (#[trigger] q@[i])@.len() == widths.q,
            forall|i: int| 0 <= i < t ==> (#[trigger] all[i]).len() == widths.q,
            r@ == flat(all.take(t as int)),
        decreases q@.len() - t,
    {
        let row = backend.gqa_attention(
            q[t].as_slice(),
            cache.flat_k.as_slice(),
            cache.flat_v.as_slice(),
            t + 1,
            widths.heads,
        );
        append_row(&mut r, row.as_slice());
        proof {
            assert(row@ == all[t as int]);
            lemma_flat_push(all.take(t as int), row@);
            assert(all.take(t as int).push(row@) =~= all.take(t + 1));
        }
        t = t + 1;
    }
    proof {
        assert(all.take(q@.len() as int) =~= all);
        lemma_flat_len(all, widths.q as int);
    }
    r
}

/// The second half of a layer for a prompt.
fn apply_prompt_mlp<T: TensorBackend>(
    weights: &TransformerWeights,
    backend: &T,
    widths: Widths,
    layer: usize,
    rows: &Vec<Vec<u32>>,
) -> (r: Vec<Vec<u32>>)
    requires
        widths.of(weights@.config),
        weights@.config.rows_fit(rows@.len() as int),
        layer < weights@.layers.len(),
        forall|t: int| 0 <= t < rows@.len() ==> (#[trigger] rows@[t])@.len() == widths.hidden,
    ensures
        view_all(r@) == prompt_mlp(*backend, weights@, layer as int, view_all(rows@)),
        r@.len() == rows@.len(),
        forall|t: int| 0 <= t < r@.len() ==> (#[trigger] r@[t])@.len() == widths.hidden,
{
    let lw = &weights.layers[layer];
    assert(lw@ == weights@.layers[layer as int]);
    let n: usize = rows.len();
    let post = normalise(
        backend,
        rows,
        &lw.post_attention_layernorm,
        weights.config.rms_norm_eps,
        widths.hidden,
    );
    let gated = backend.matmul_batch(
        post.as_slice(),
        lw.gate_proj.as_slice(),
        n,
        widths.hidden,
        widths.intermediate,
    );
    let up = backend.matmul_batch(
        post.as_slice(),
        lw.up_proj.as_slice(),
        n,
        widths.hidden,
        widths.intermediate,
    );
    let act = activate(backend, &gated, &up, n, widths.intermediate);
    let out = backend.matmul_batch(
        act.as_slice(),
        lw.down_proj.as_slice(),
        n,
        widths.intermediate,
        widths.hidden,
    );
    add_rows(backend, rows, &out, widths.hidden)
}

/// The positions of a prompt's tokens.
fn count_to(n: usize) -> (r: Vec<usize>)
    ensures
        r@ == counted(n as nat),
{
    let mut r: Vec<usize> = Vec::new();
    let mut t: usize = 0;
    assert(r@ =~= counted(0));
    while t < n
        invariant
            t <= n,
            r@ == counted(t as nat),
        decreases n - t,
    {
        r.push(t);
        assert(r@ =~= counted((t + 1) as nat));
        t = t + 1;
    }
    r
}

/// The embeddings of a prompt.
pub(crate) fn embed(weights: &TransformerWeights, prompt: &[u32]) -> (r: Vec<Vec<u32>>)
    requires
        weights@.takes_all(prompt@),
    ensures
        view_all(r@) == embeddings(weights@, prompt@),
        r@.len() == prompt@.len(),
        forall|t: int| 0 <= t < r@.len() ==> (#[trigger] r@[t])@.len() == weights@.config.hidden(),
{
    let ghost all = embeddings(weights@, prompt@);
    let mut r: Vec<Vec<u32>> = Vec::new();
    let mut t: usize = 0;
    assert(view_all(r@) =~= all.take(0));
    while t < prompt.len()
        invariant
            t <= prompt@.len(),
            weights@.takes_all(prompt@),
            all == embeddings(weights@, prompt@),
            r@.len() == t,
            view_all(r@) == all.take(t as int),
            forall|i: int| 0 <= i < t ==> (#[trigger] r@[i])@.len() == weights@.config.hidden(),
        decreases prompt@.len() - t,
    {
        r.push(weights.embed_token(prompt[t]));
        assert(view_all(r@) =~= all.take(t + 1));
        t = t + 1;
    }
    assert(all.take(prompt@.len() as int) =~= all);
    r
}

/// Prefills a prompt that keeps its rows in the KV cache, where a manager is handed in, or
/// with the sequence. The hidden state of the last token.
pub fn prefill_prompt_layer_by_layer_paged<T: TensorBackend, B: UnifiedBuffer>(
    weights: &TransformerWeights,
    backend: &T,
    prompt_tokens: &[u32],
    seq_state: &mut SequenceState,
    seq_id: u64,
    kv: Option<&mut AienKvManager<B>>,
) -> (r: Vec<u32>)
    requires
        prefill_fits(
            weights@,
            prompt_tokens@,
            held(kv),
            old(seq_state)@.layers.len() as int,
            seq_id,
        ),
    ensures
        ({
            let done = prefill_pass(
                *backend,
                weights@,
                prompt_tokens@,
                seq_id,
                held(kv),
                old(seq_state)@,
            );
            &&& r@ == done.hidden
            &&& r@.len() == if prompt_tokens@.len() == 0 {
                0
            } else {
                weights@.config.hidden()
            }
            &&& final(seq_state)@ == done.seq
            &&& kv is Some ==> done.kv == Some(final(kv->0)@)
            &&& kv is None ==> done.kv is None
            &&& kv is Some && held(kv)->0.wf() ==> final(kv->0)@.wf()
            &&& kv is Some && prompt_tokens@.len() == 1 ==> final(kv->0)@.same_but_rows(
                reserved(held(kv), seq_id)->0,
            )
            &&& kv is Some && prompt_tokens@.len() > 1 ==> final(kv->0)@.same_but_rows(
                held(kv)->0,
            )
            &&& kv is Some && held(kv)->0.alone(seq_id) ==> final(kv->0)@.extends(
                held(kv)->0.without(seq_id),
            )
        }),
{
    let n: usize = prompt_tokens.len();
    if n == 0 {
        return Vec::new();
    }
    if n == 1 {
        seq_state.tokens.push(prompt_tokens[0]);
        let hidden = forward_token_impl_paged(
            weights,
            backend,
            prompt_tokens[0],
            0,
            seq_state,
            seq_id,
            kv,
        );
        proof {
            if kv is Some {
                final(kv->0)@.lemma_extends_without(held(kv)->0, seq_id);
            }
        }
        return hidden;
    }
    let ghost w = weights@;
    let ghost before = held(kv);
    let ghost own = seq_state@.layers;
    let widths = weights.widths();
    let mut mgr = kv;
    append_row(&mut seq_state.tokens, prompt_tokens);
    let mut rows = embed(weights, prompt_tokens);
    let positions = count_to(n);
    let table: Option<Vec<usize>> = match &mgr {
        Some(m) => match m.get_block_table(seq_id) {
            Some(t) => Some(slice_to_vec(t.block_ids.as_slice())),
            None => None,
        },
        None => None,
    };
    let ghost blocks = table_for(before, seq_id);
    let ghost first = if before is Some && before->0.alone(seq_id) {
        before->0.without(seq_id)
    } else {
        KvState { tables: Map::empty(), ..before->0 }
    };
    let ghost start = PromptState { rows: view_all(rows@), kv: before, layers: own };
    proof {
        if table is Some {
            assert(before->0.table_wf(seq_id, before->0.tables[seq_id]));
            if before->0.alone(seq_id) && before->0.block_size > 0 {
                assert forall|i: int, slot: usize|
                    #![trigger before->0.clear_of(((blocks->0)[i], slot), first)]
                    0 <= i < (blocks->0).len() implies before->0.clear_of(
                    ((blocks->0)[i], slot),
                    first,
                ) by {
                    assert((blocks->0).contains((blocks->0)[i]));
                    before->0.lemma_own_block_is_clear(seq_id, ((blocks->0)[i], slot));
                }
            }
        }
    }
    let mut layer: usize = 0;
    while layer < weights.layers.len()
        invariant
            layer <= w.layers.len(),
            w == weights@,
            w.layers == view_all(weights.layers@),
            w.config.rows_fit(n as int),
            mgr is Some ==> mgr->0@.extends(first),
            table is Some ==> blocks_clear(before->0, blocks->0, first),
            widths.of(w.config),
            kv is Some == mgr is Some,
            mgr is Some ==> *final(mgr->0) == *final(kv->0),
            mgr is Some ==> mgr->0@.same_but_rows(before->0),
            before is Some == mgr is Some,
            table is Some == blocks is Some,
            table is Some ==> (table->0)@ == blocks->0,
            table is Some ==> mgr is Some && blocks_take(w, before->0, blocks->0, n as int),
            own.len() >= w.layers.len(),
            seq_state@.layers.len() == own.len(),
            seq_state@.tokens == old(seq_state)@.tokens + prompt_tokens@,
            rows@.len() == n,
            positions@ == counted(n as nat),
            n >= 2,
            forall|t: int| 0 <= t < n ==> (#[trigger] rows@[t])@.len() == widths.hidden,
            (PromptState { rows: view_all(rows@), kv: held(mgr), layers: seq_state@.layers })
                == prompt_layers(*backend, w, layer as int, blocks, start),
        decreases w.layers.len() - layer,
    {
        let (q, k, v) = compute_qkv_rows(
            weights,
            backend,
            widths,
            layer,
            &rows,
            &positions,
        );
        match &table {
            Some(t) => match &mut mgr {
                Some(m) => {
                    proof {
                        if m@.block_size > 0 {
                            assert forall|i: int, slot: usize|
                                #![trigger m@.clear_of((t@[i], slot), first)]
                                0 <= i < t@.len() implies m@.clear_of((t@[i], slot), first) by {
                                assert(before->0.clear_of(((blocks->0)[i], slot), first));
                                before->0.lemma_clear_frame(m@, (t@[i], slot), first);
                            }
                        }
                    }
                    store_rows(
                        &mut **m,
                        t,
                        weights.config.block_size,
                        layer,
                        &k,
                        &v,
                        Ghost(first),
                    );
                },
                None => {
                    assert(false);
                },
            },
            None => {},
        }
        cache_rows(seq_state, layer, &k, &v);
        let attn = attend(backend, widths, weights, &q, seq_state, layer);
        let lw = &weights.layers[layer];
        assert(lw@ == w.layers[layer as int]);
        let proj = backend.matmul_batch(
            attn.as_slice(),
            lw.o_proj.as_slice(),
            n,
            widths.q,
            widths.hidden,
        );
        let sums = add_rows(backend, &rows, &proj, widths.hidden);
        rows = apply_prompt_mlp(weights, backend, widths, layer, &sums);
        layer = layer + 1;
    }
    if mgr.is_some() {
        seq_state.layers = Vec::new();
    }
    assert(view_all(rows@).last() == rows@[n - 1]@);
    backend.rmsnorm(
        rows[n - 1].as_slice(),
        weights.final_norm.as_slice(),
        weights.config.rms_norm_eps,
    )
}

/// Prefills a prompt that keeps its rows itself.
pub fn prefill_prompt_layer_by_layer<T: TensorBackend>(
    weights: &TransformerWeights,
    backend: &T,
    prompt_tokens: &[u32],
    seq_state: &mut SequenceState,
) -> (r: Vec<u32>)
    requires
        prefill_fits(weights@, prompt_tokens@, None, old(seq_state)@.layers.len() as int, 0),
    ensures
        ({
            let done = prefill_pass(
                *backend,
                weights@,
                prompt_tokens@,
                0,
                None,
                old(seq_state)@,
            );
            &&& r@ == done.hidden
            &&& r@.len() == if prompt_tokens@.len() == 0 {
                0
            } else {
                weights@.config.hidden()
            }
            &&& final(seq_state)@ == done.seq
        }),
{
    prefill_prompt_layer_by_layer_paged::<T, HeapUnifiedBuffer>(
        weights,
        backend,
        prompt_tokens,
        seq_state,
        0,
        None,
    )
}

} // verus!
