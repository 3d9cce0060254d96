//! The forward pass of a single token through all layers.

use crate::buffer::{HeapUnifiedBuffer, UnifiedBuffer};
use crate::kv_manager::AienKvManager;
use crate::kv_state::KvState;
use crate::maps::view_all;
use crate::tensor::{block_of, TensorBackend};
use crate::weights::{
    CacheState, SequenceState, TokensState, TransformerWeights, WeightsState, Widths,
};
use vstd::prelude::*;

verus! {

broadcast use crate::maps::group_view_all;

impl KvState {
    /// The state after the rows of a token were written into a slot, if there is a pool.
    pub open spec fn write_slot(
        self,
        place: (usize, usize),
        layer: int,
        k: Seq<u32>,
        v: Seq<u32>,
    ) -> KvState {
        match self.pool {
            Some(p) => self.with_pool(
                p.write_token(place.0 as int, layer, place.1 as int, k, v),
            ),
            None => self,
        }
    }

    /// The tensor pool, if there is one, takes rows of this width in the first `num_layers`
    /// layers.
    pub open spec fn takes_rows(self, num_layers: int, kv_dim: int) -> bool {
        self.pool is Some ==> {
            &&& num_layers > 0 ==> self.has_layer(num_layers - 1)
            &&& self.pool->0.kv_dim() == kv_dim
        }
    }

    /// Everything but the stored rows is as in `before`.
    pub open spec fn same_but_rows(self, before: KvState) -> bool {
        &&& self.wf()
        &&& self == (KvState { pool: self.pool, ..before })
        &&& self.pool is Some == before.pool is Some
        &&& self.pool is Some ==> {
            &&& self.pool->0.config == before.pool->0.config
            &&& self.pool->0.layout == before.pool->0.layout
        }
    }
}

/// The state of the KV manager that is handed in, if one is.
pub open spec fn held<B: UnifiedBuffer>(kv: Option<&mut AienKvManager<B>>) -> Option<KvState> {
    match kv {
        Some(m) => Some(m@),
        None => None,
    }
}

/// The slot that the next token of a sequence gets in the KV cache, if it gets one.
pub open spec fn slot_for(kv: Option<KvState>, seq: u64) -> Option<(usize, usize)> {
    match kv {
        Some(s) => if s.append_possible(seq) {
            Some(s.append_slot(seq))
        } else {
            None
        },
        None => None,
    }
}

/// The KV cache after the next token of a sequence was given its slot.
pub open spec fn reserved(kv: Option<KvState>, seq: u64) -> Option<KvState> {
    match kv {
        Some(s) => Some(s.append_or_keep(seq)),
        None => None,
    }
}

/// What a token's forward pass works on.
#[verifier::ext_equal]
pub struct PassState {
    pub x: Seq<u32>,
    pub attn: Seq<u32>,
    pub kv: Option<KvState>,
    pub layers: Seq<CacheState>,
}

/// The second half of a layer: norm, gated projection, and sum.
pub open spec fn through_mlp<T: TensorBackend>(b: T, w: WeightsState, l: int, x: Seq<u32>) -> Seq<
    u32,
> {
    let lw = w.layers[l];
    let hidden = w.config.hidden() as usize;
    let inner = w.config.intermediate() as usize;
    let post = b.normed(x, lw.post_attention_layernorm, w.config.rms_norm_eps);
    let gate = b.projected(post, lw.gate_proj, inner, hidden);
    let up = b.projected(post, lw.up_proj, inner, hidden);
    b.summed(x, b.projected(b.gated(gate, up), lw.down_proj, hidden, inner))
}

/// Query, key and value rows of a token, the first two rotated to its position.
pub open spec fn qkv<T: TensorBackend>(
    b: T,
    w: WeightsState,
    l: int,
    pos: usize,
    x: Seq<u32>,
) -> (Seq<u32>, Seq<u32>, Seq<u32>) {
    let lw = w.layers[l];
    let hidden = w.config.hidden() as usize;
    let normed = b.normed(x, lw.input_layernorm, w.config.rms_norm_eps);
    let q = b.projected(normed, lw.q_proj, w.config.q_dim() as usize, hidden);
    let k = b.projected(normed, lw.k_proj, w.config.kv_dim() as usize, hidden);
    let v = b.projected(normed, lw.v_proj, w.config.kv_dim() as usize, hidden);
    let turned = b.rotated(q, k, pos, w.config.heads(), w.config.rope_theta);
    (turned.0, turned.1, v)
}

/// One layer for one token. With a slot in the KV cache its rows go there and attention
/// reads the pages; without one they go to the sequence's own cache.
pub open spec fn through_layer<T: TensorBackend>(
    b: T,
    w: WeightsState,
    l: int,
    pos: usize,
    slot: Option<(usize, usize)>,
    seq: u64,
    s: PassState,
) -> PassState {
    let lw = w.layers[l];
    let (q, k, v) = qkv(b, w, l, pos, s.x);
    let (kv, layers, attn) = match slot {
        Some(place) => {
            let kv = s.kv->0.write_slot(place, l, k, v);
            let attn = if kv.pool is Some && kv.tables.contains_key(seq) {
                b.page_attended(
                    q,
                    kv.pool->0,
                    kv.tables[seq].block_ids,
                    kv.tables[seq].total_tokens,
                    l as usize,
                    w.config.heads(),
                )
            } else {
                s.attn
            };
            (Some(kv), s.layers, attn)
        },
        None => {
            let cache = s.layers[l].with_row(k, v);
            let attn = b.attended(
                q,
                cache.flat_k,
                cache.flat_v,
                cache.cached_k.len() as usize,
                w.config.heads(),
            );
            (s.kv, s.layers.update(l, cache), attn)
        },
    };
    let hidden = w.config.hidden() as usize;
    let x = b.summed(s.x, b.projected(attn, lw.o_proj, hidden, w.config.q_dim() as usize));
    PassState { x: through_mlp(b, w, l, x), attn, kv, layers }
}

/// The first `n` layers for one token.
pub open spec fn through_layers<T: TensorBackend>(
    b: T,
    w: WeightsState,
    n: int,
    pos: usize,
    slot: Option<(usize, usize)>,
    seq: u64,
    s: PassState,
) -> PassState
    decreases n,
{
    if n <= 0 {
        s
    } else {
        through_layer(b, w, n - 1, pos, slot, seq, through_layers(b, w, n - 1, pos, slot, seq, s))
    }
}

/// A tensor of zeros.
pub open spec fn zeros(n: int) -> Seq<u32> {
    Seq::new(n as nat, |i: int| 0u32)
}

/// All layers for one token, from its embedding.
pub open spec fn token_pass<T: TensorBackend>(
    b: T,
    w: WeightsState,
    token: u32,
    pos: usize,
    seq: u64,
    kv: Option<KvState>,
    layers: Seq<CacheState>,
) -> PassState {
    through_layers(
        b,
        w,
        w.layers.len() as int,
        pos,
        slot_for(kv, seq),
        seq,
        PassState {
            x: w.embedding(token),
            attn: zeros(w.config.q_dim()),
            kv: reserved(kv, seq),
            layers,
        },
    )
}

/// The hidden state that a pass gives.
pub open spec fn hidden_of<T: TensorBackend>(b: T, w: WeightsState, x: Seq<u32>) -> Seq<u32> {
    b.normed(x, w.final_norm, w.config.rms_norm_eps)
}

/// A token's pass finds what it needs: its embedding; room for the token in the KV cache and, in its pool,
/// rows of the right width and the blocks that are written and read, or else a cache of its own for
/// every layer.
pub open spec fn pass_fits(
    w: WeightsState,
    token: u32,
    kv: Option<KvState>,
    own_layers: int,
    seq: u64,
) -> bool {
    &&& w.takes(token)
    &&& match kv {
        Some(s) => {
            &&& s.wf()
            &&& s.append_fits(seq)
            &&& if s.append_possible(seq) {
                &&& s.takes_rows(w.layers.len() as int, w.config.kv_dim())
                &&& w.layers.len() > 0 ==> s.append_reached(seq)
            } else {
                own_layers >= w.layers.len()
            }
        },
        None => own_layers >= w.layers.len(),
    }
}

/// Query, key and value rows of a token.
fn compute_qkv<T: TensorBackend>(
    weights: &TransformerWeights,
    backend: &T,
    widths: Widths,
    layer: usize,
    pos: usize,
    x: &Vec<u32>,
) -> (r: (Vec<u32>, Vec<u32>, Vec<u32>))
    requires
        widths.of(weights@.config),
        layer < weights@.layers.len(),
    ensures
        (r.0@, r.1@, r.2@) == qkv(*backend, weights@, layer as int, pos, x@),
        r.0@.len() == widths.q,
        r.1@.len() == widths.kv,
        r.2@.len() == widths.kv,
{
    let lw = &weights.layers[layer];
    assert(lw@ == weights@.layers[layer as int]);
    let eps: u32 = weights.config.rms_norm_eps;
    let normed = backend.rmsnorm(x.as_slice(), lw.input_layernorm.as_slice(), eps);
    let q = backend.matmul_vec(normed.as_slice(), lw.q_proj.as_slice(), widths.q, widths.hidden);
    let k = backend.matmul_vec(normed.as_slice(), lw.k_proj.as_slice(), widths.kv, widths.hidden);
    let v = backend.matmul_vec(normed.as_slice(), lw.v_proj.as_slice(), widths.kv, widths.hidden);
    let (q, k) = backend.apply_rope(
        q.as_slice(),
        k.as_slice(),
        pos,
        widths.heads,
        weights.config.rope_theta,
    );
    (q, k, v)
}

/// The second half of a layer.
fn apply_mlp<T: TensorBackend>(
    weights: &TransformerWeights,
    backend: &T,
    widths: Widths,
    layer: usize,
    x: &Vec<u32>,
) -> (r: Vec<u32>)
    requires
        widths.of(weights@.config),
        layer < weights@.layers.len(),
        x@.len() == widths.hidden,
    ensures
        r@ == through_mlp(*backend, weights@, layer as int, x@),
        r@.len() == widths.hidden,
{
    let lw = &weights.layers[layer];
    assert(lw@ == weights@.layers[layer as int]);
    let eps: u32 = weights.config.rms_norm_eps;
    let post = backend.rmsnorm(x.as_slice(), lw.post_attention_layernorm.as_slice(), eps);
    let gate = backend.matmul_vec(
        post.as_slice(),
        lw.gate_proj.as_slice(),
        widths.intermediate,
        widths.hidden,
    );
    let up = backend.matmul_vec(
        post.as_slice(),
        lw.up_proj.as_slice(),
        widths.intermediate,
        widths.hidden,
    );
    let act = backend.swiglu(gate.as_slice(), up.as_slice());
    let out = backend.matmul_vec(
        act.as_slice(),
        lw.down_proj.as_slice(),
        widths.hidden,
        widths.intermediate,
    );
    backend.residual(x.as_slice(), out.as_slice())
}

/// A tensor of zeros.
pub fn zero_tensor(n: usize) -> (r: Vec<u32>)
    ensures
        r@ == zeros(n as int),
{
    let mut r: Vec<u32> = Vec::new();
    let mut i: usize = 0;
    assert(r@ =~= zeros(0));
    while i < n
        invariant
            i <= n,
            r@ == zeros(i as int),
        decreases n - i,
    {
        r.push(0);
        assert(r@ =~= zeros(i + 1));
        i = i + 1;
    }
    r
}

/// Writes the rows of a token into its slot and attends over the pages of its sequence.
fn attend_pages<T: TensorBackend, B: UnifiedBuffer>(
    backend: &T,
    kv: &mut AienKvManager<B>,
    widths: Widths,
    layer: usize,
    place: (usize, usize),
    seq_id: u64,
    rows: &(Vec<u32>, Vec<u32>, Vec<u32>),
    attn: Vec<u32>,
) -> (r: Vec<u32>)
    requires
        old(kv)@.wf(),
        rows.0@.len() == widths.q,
        attn@.len() == widths.q,
        old(kv)@.pool is Some ==> {
            let pool = old(kv)@.pool->0;
            &&& old(kv)@.has_layer(layer as int)
            &&& old(kv)@.pool_reaches(place.0 as int)
            &&& place.1 < old(kv)@.block_size
            &&& old(kv)@.reached(seq_id)
            &&& rows.1@.len() == pool.kv_dim()
            &&& rows.2@.len() == pool.kv_dim()
        },
    ensures
        final(kv)@ == old(kv)@.write_slot(place, layer as int, rows.1@, rows.2@),
        final(kv)@.same_but_rows(old(kv)@),
        r@ == if final(kv)@.pool is Some && final(kv)@.tables.contains_key(seq_id) {
            backend.page_attended(
                rows.0@,
                final(kv)@.pool->0,
                final(kv)@.tables[seq_id].block_ids,
                final(kv)@.tables[seq_id].total_tokens,
                layer,
                widths.heads,
            )
        } else {
            attn@
        },
        r@.len() == widths.q,
{
    let ghost before = kv@;
    let _ = kv.write_explicit_token_kv(
        place.0,
        layer,
        place.1,
        rows.1.as_slice(),
        rows.2.as_slice(),
    );
    match kv.tensor_pool() {
        Some(pool) => match kv.get_block_table(seq_id) {
            Some(table) => {
                proof {
                    assert forall|t: int| 0 <= t < table.total_tokens implies {
                        &&& 0 <= #[trigger] block_of(pool@, t) < table.block_ids@.len()
                        &&& table.block_ids@[block_of(pool@, t)] < pool@.layout.num_blocks
                    } by {
                        before.lemma_counted_token(seq_id, t);
                        assert(before.reaches_token(seq_id, t));
                    }
                }
                backend.paged_attention(
                    rows.0.as_slice(),
                    pool,
                    table.block_ids.as_slice(),
                    table.total_tokens,
                    layer,
                    widths.heads,
                )
            },
            None => attn,
        },
        None => attn,
    }
}

/// The forward pass of one token. With a KV manager the token is first given a slot there.
pub fn forward_token_impl_paged<T: TensorBackend, B: UnifiedBuffer>(
    weights: &TransformerWeights,
    backend: &T,
    token_id: u32,
    pos: usize,
    seq_state: &mut SequenceState,
    seq_id: u64,
    kv: Option<&mut AienKvManager<B>>,
) -> (r: Vec<u32>)
    requires
        pass_fits(weights@, token_id, held(kv), old(seq_state)@.layers.len() as int, seq_id),
    ensures
        ({
            let pass = token_pass(
                *backend,
                weights@,
                token_id,
                pos,
                seq_id,
                held(kv),
                old(seq_state)@.layers,
            );
            &&& r@ == hidden_of(*backend, weights@, pass.x)
            &&& r@.len() == weights@.config.hidden()
            &&& final(seq_state)@ == (TokensState { layers: pass.layers, ..old(seq_state)@ })
            &&& pass.layers.len() == old(seq_state)@.layers.len()
            &&& kv is Some ==> pass.kv == Some(final(kv->0)@)
            &&& kv is None ==> pass.kv is None
            &&& kv is Some && held(kv)->0.wf() ==> final(kv->0)@.wf()
            &&& kv is Some ==> final(kv->0)@.same_but_rows(reserved(held(kv), seq_id)->0)
            &&& kv is Some ==> final(kv->0)@.extends_only(held(kv)->0, seq![seq_id])
        }),
{
    let ghost w = weights@;
    let ghost before = held(kv);
    let ghost own = seq_state@.layers;
    let widths = weights.widths();
    let mut mgr = kv;
    let slot: Option<(usize, usize)> = match &mut mgr {
        Some(m) => match m.append_token_with_slot(seq_id) {
            Ok(place) => Some(place),
            Err(_) => None,
        },
        None => None,
    };
    assert(slot == slot_for(before, seq_id));
    let mut x = weights.embed_token(token_id);
    let mut attn = zero_tensor(widths.q);
    let ghost start = PassState {
        x: x@,
        attn: attn@,
        kv: reserved(before, seq_id),
        layers: own,
    };
    proof {
        if slot is Some {
            if start.kv->0.pool is Some && w.layers.len() > 0 {
                before->0.law_append_slot_is_private(seq_id, seq_id);
                before->0.lemma_append_touches(seq_id);
            }
        }
        assert(mgr is Some ==> mgr->0@.same_but_rows(start.kv->0));
        if slot is Some {
            before->0.lemma_append_extends(seq_id);
            if before->0.block_size > 0 {
                before->0.lemma_slot_is_clear(seq_id, before->0);
            }
        }
    }
    let mut layer: usize = 0;
    while layer < weights.layers.len()
        invariant
            layer <= w.layers.len(),
            w == weights@,
            w.layers == view_all(weights.layers@),
            widths.of(w.config),
            kv is Some == mgr is Some,
            mgr is Some ==> *final(mgr->0) == *final(kv->0),
            mgr is Some ==> mgr->0@.same_but_rows(start.kv->0),
            mgr is Some ==> mgr->0@.extends(before->0),
            slot is Some && start.kv->0.block_size > 0 ==> start.kv->0.clear_of(
                slot->0,
                before->0,
            ),
            before is Some == mgr is Some,
            start.kv is Some == mgr is Some,
            slot is Some ==> mgr is Some,
            slot is Some && start.kv->0.pool is Some && w.layers.len() > 0 ==> {
                &&& start.kv->0.has_layer(w.layers.len() - 1)
                &&& start.kv->0.pool->0.kv_dim() == w.config.kv_dim()
                &&& start.kv->0.pool_reaches((slot->0).0 as int)
                &&& (slot->0).1 < start.kv->0.block_size
                &&& start.kv->0.reached(seq_id)
            },
            slot is None ==> own.len() >= w.layers.len(),
            seq_state@.layers.len() == own.len(),
            seq_state@.tokens == old(seq_state)@.tokens,
            x@.len() == widths.hidden,
            attn@.len() == widths.q,
            (PassState { x: x@, attn: attn@, kv: held(mgr), layers: seq_state@.layers })
                == through_layers(*backend, w, layer as int, pos, slot, seq_id, start),
        decreases w.layers.len() - layer,
    {
        let rows = compute_qkv(weights, backend, widths, layer, pos, &x);
        match slot {
            Some(place) => match &mut mgr {
                Some(m) => {
                    let ghost here = m@;
                    proof {
                        if start.kv->0.pool is Some {
                            start.kv->0.lemma_reached_frame(here, seq_id);
                        }
                    }
                    attn = attend_pages(
                        backend,
                        &mut **m,
                        widths,
                        layer,
                        place,
                        seq_id,
                        &rows,
                        attn,
                    );
                    proof {
                        if here.block_size > 0 {
                            start.kv->0.lemma_clear_frame(here, place, before->0);
                        }
                        here.lemma_write_extends(
                            place,
                            layer as int,
                            rows.1@,
                            rows.2@,
                            before->0,
                        );
                    }
                },
                None => {
                    assert(false);
                },
            },
            None => {
                seq_state.push_row(layer, rows.1.as_slice(), rows.2.as_slice());
                assert(seq_state@.layers.len() == seq_state.layers@.len());
                let cache = &seq_state.layers[layer];
                assert(cache@ == seq_state@.layers[layer as int]);
                attn = backend.gqa_attention(
                    rows.0.as_slice(),
                    cache.flat_k.as_slice(),
                    cache.flat_v.as_slice(),
                    cache.cached_k.len(),
                    widths.heads,
                );
            },
        }
        let lw = &weights.layers[layer];
        assert(lw@ == w.layers[layer as int]);
        let proj = backend.matmul_vec(
            attn.as_slice(),
            lw.o_proj.as_slice(),
            widths.hidden,
            widths.q,
        );
        let sum = backend.residual(x.as_slice(), proj.as_slice());
        x = apply_mlp(weights, backend, widths, layer, &sum);
        layer = layer + 1;
    }
    assert(seq![seq_id][0] == seq_id);
    backend.rmsnorm(x.as_slice(), weights.final_norm.as_slice(), weights.config.rms_norm_eps)
}

/// The forward pass of one token that keeps its rows itself.
pub fn forward_token_impl<T: TensorBackend>(
    weights: &TransformerWeights,
    backend: &T,
    token_id: u32,
    pos: usize,
    seq_state: &mut SequenceState,
) -> (r: Vec<u32>)
    requires
        weights@.takes(token_id),
        old(seq_state)@.layers.len() >= weights@.layers.len(),
    ensures
        ({
            let pass = token_pass(
                *backend,
                weights@,
                token_id,
                pos,
                0,
                None,
                old(seq_state)@.layers,
            );
            &&& r@ == hidden_of(*backend, weights@, pass.x)
            &&& r@.len() == weights@.config.hidden()
            &&& final(seq_state)@ == (TokensState { layers: pass.layers, ..old(seq_state)@ })
        }),
{
    forward_token_impl_paged::<T, HeapUnifiedBuffer>(
        weights,
        backend,
        token_id,
        pos,
        seq_state,
        0,
        None,
    )
}

/// The logits of a hidden state.
pub open spec fn logits_of<T: TensorBackend>(b: T, w: WeightsState, hidden: Seq<u32>) -> Seq<u32> {
    b.scored(hidden, w.lm_head, w.config.vocab(), w.config.hidden() as usize)
}

/// The logits of a hidden state.
pub fn compute_logits_impl<T: TensorBackend>(
    weights: &TransformerWeights,
    backend: &T,
    hidden_state: &[u32],
) -> (r: Vec<u32>)
    requires
        weights@.config.hidden() <= usize::MAX,
    ensures
        r@ == logits_of(*backend, weights@, hidden_state@),
        r@.len() == weights@.config.vocab(),
{
    backend.compute_logits(
        hidden_state,
        weights.lm_head.as_slice(),
        weights.config.vocab_size(),
        weights.config.hidden_dim(),
    )
}

} // verus!
