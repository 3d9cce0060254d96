//! One decode step of several sequences at once.

use crate::abi::{DecodeOutput, FinishReason};
use crate::buffer::UnifiedBuffer;
use crate::forward::{held, slot_for};
use crate::kv_manager::AienKvManager;
use crate::kv_state::KvState;
use crate::layout::low_u32;
use crate::maps::{value_mut, view_all, view_values};
use crate::prefill::{
    activate, compute_qkv_rows, embed, embeddings, gate_rows, norm_rows, normalise, qkv_rows,
    split_rows,
};
use crate::tensor::{
    append_row, block_of, flat, lemma_flat_len, lemma_flat_push, lemma_row_in, row_of, row_slice,
    TensorBackend,
};
use crate::weights::{SequenceState, TokensState, TransformerWeights, WeightsState, Widths};
use std::collections::HashMap;
use vstd::prelude::*;
use vstd::slice::slice_to_vec;

verus! {

broadcast use {
    vstd::std_specs::hash::group_hash_axioms,
    crate::maps::group_view_values,
    crate::maps::group_view_all,
};

// ---- Sequences ----
/// The sequences with an empty one for each identifier that has none.
pub open spec fn opened(
    seqs: Map<u64, TokensState>,
    ids: Seq<u64>,
    n: int,
    num_layers: int,
) -> Map<u64, TokensState>
    decreases n,
{
    if n <= 0 {
        seqs
    } else {
        let before = opened(seqs, ids, n - 1, num_layers);
        if before.contains_key(ids[n - 1]) {
            before
        } else {
            before.insert(ids[n - 1], TokensState::empty(num_layers))
        }
    }
}

/// The tokens to decode from.
pub open spec fn last_tokens(seqs: Map<u64, TokensState>, ids: Seq<u64>) -> Seq<u32> {
    Seq::new(ids.len(), |i: int| seqs[ids[i]].last_token())
}

/// The positions to decode at.
pub open spec fn positions(seqs: Map<u64, TokensState>, ids: Seq<u64>) -> Seq<usize> {
    Seq::new(ids.len(), |i: int| seqs[ids[i]].position() as usize)
}

// ---- Slots in the KV cache ----
/// The KV cache after the first `n` sequences were given a slot each.
pub open spec fn reserve_all(kv: KvState, ids: Seq<u64>, n: int) -> KvState
    decreases n,
{
    if n <= 0 {
        kv
    } else {
        reserve_all(kv, ids, n - 1).append_or_keep(ids[n - 1])
    }
}

/// The slots that were given.
pub open spec fn slots(kv: KvState, ids: Seq<u64>) -> Seq<Option<(usize, usize)>> {
    Seq::new(ids.len(), |i: int| slot_for(Some(reserve_all(kv, ids, i)), ids[i]))
}

/// The KV cache with the first `n` rows written to their slots; a row without one is left
/// out.
pub open spec fn write_slots(
    kv: KvState,
    slots: Seq<Option<(usize, usize)>>,
    layer: int,
    k: Seq<Seq<u32>>,
    v: Seq<Seq<u32>>,
    n: int,
) -> KvState
    decreases n,
{
    if n <= 0 {
        kv
    } else {
        let before = write_slots(kv, slots, layer, k, v, n - 1);
        match slots[n - 1] {
            Some(place) => before.write_slot(place, layer, k[n - 1], v[n - 1]),
            None => before,
        }
    }
}

/// The sequences with the first `n` rows added to their own caches.
pub open spec fn cache_slots(
    seqs: Map<u64, TokensState>,
    ids: Seq<u64>,
    layer: int,
    k: Seq<Seq<u32>>,
    v: Seq<Seq<u32>>,
    n: int,
) -> Map<u64, TokensState>
    decreases n,
{
    if n <= 0 {
        seqs
    } else {
        let before = cache_slots(seqs, ids, layer, k, v, n - 1);
        let s = before[ids[n - 1]];
        before.insert(
            ids[n - 1],
            TokensState {
                layers: s.layers.update(layer, s.layers[layer].with_row(k[n - 1], v[n - 1])),
                ..s
            },
        )
    }
}

// ---- Block tables for the backend ----
/// A count as the backend takes it: the low 32 bits, as a signed number.
pub open spec fn low_i32(n: usize) -> i32 {
    let m = n as int % 0x1_0000_0000;
    if m >= 0x8000_0000 {
        (m - 0x1_0000_0000) as i32
    } else {
        m as i32
    }
}

/// The blocks of each sequence; none for one that the KV cache does not know.
pub open spec fn tables_of(kv: KvState, ids: Seq<u64>) -> Seq<Seq<usize>> {
    Seq::new(
        ids.len(),
        |i: int|
            if kv.tables.contains_key(ids[i]) {
                kv.tables[ids[i]].block_ids
            } else {
                Seq::empty()
            },
    )
}

/// The token count of each sequence.
pub open spec fn lens_of(kv: KvState, ids: Seq<u64>) -> Seq<i32> {
    Seq::new(
        ids.len(),
        |i: int|
            if kv.tables.contains_key(ids[i]) {
                low_i32(kv.tables[ids[i]].total_tokens)
            } else {
                0
            },
    )
}

/// The length of the longest table, and at least 1.
pub open spec fn widest(tables: Seq<Seq<usize>>) -> nat
    decreases tables.len(),
{
    if tables.len() == 0 {
        1
    } else {
        let before = widest(tables.drop_last());
        if tables.last().len() > before {
            tables.last().len()
        } else {
            before
        }
    }
}

/// A table filled up with -1.
pub open spec fn padded(table: Seq<usize>, width: int) -> Seq<i32> {
    Seq::new(
        width as nat,
        |j: int|
            if j < table.len() {
                low_i32(table[j])
            } else {
                -1i32
            },
    )
}

/// Padded tables one behind the other.
pub open spec fn padded_all(tables: Seq<Seq<usize>>, width: int) -> Seq<i32>
    decreases tables.len(),
{
    if tables.len() == 0 {
        Seq::empty()
    } else {
        padded_all(tables.drop_last(), width) + padded(tables.last(), width)
    }
}

// ---- The step ----
/// What a decode step works on.
#[verifier::ext_equal]
pub struct DecodeState {
    pub x: Seq<u32>,
    pub kv: Option<KvState>,
    pub seqs: Map<u64, TokensState>,
}

/// All rows normalised, one behind the other.
pub open spec fn normed_flat<T: TensorBackend>(
    b: T,
    x: Seq<u32>,
    n: int,
    width: int,
    weight: Seq<u32>,
    eps: u32,
) -> Seq<u32> {
    flat(norm_rows(b, split_rows(x, n, width), weight, eps))
}

/// Each row attends to its own sequence's cache.
pub open spec fn attend_own<T: TensorBackend>(
    b: T,
    w: WeightsState,
    l: int,
    q: Seq<Seq<u32>>,
    seqs: Map<u64, TokensState>,
    ids: Seq<u64>,
) -> Seq<Seq<u32>> {
    Seq::new(
        ids.len(),
        |i: int|
            {
                let cache = seqs[ids[i]].layers[l];
                b.attended(
                    q[i],
                    cache.flat_k,
                    cache.flat_v,
                    cache.cached_k.len() as usize,
                    w.config.heads(),
                )
            },
    )
}

/// Attention of a decode step: over the pages of the KV cache, where it has a pool, else
/// over the caches of the sequences.
pub open spec fn attend_batch<T: TensorBackend>(
    b: T,
    w: WeightsState,
    l: int,
    q: Seq<Seq<u32>>,
    kv: Option<KvState>,
    seqs: Map<u64, TokensState>,
    ids: Seq<u64>,
) -> Seq<u32> {
    if kv is Some && kv->0.pool is Some {
        let tables = tables_of(kv->0, ids);
        b.batch_page_attended(
            flat(q),
            kv->0.pool->0,
            padded_all(tables, widest(tables) as int),
            lens_of(kv->0, ids),
            widest(tables) as usize,
            l as usize,
            w.config.heads(),
        )
    } else {
        flat(attend_own(b, w, l, q, seqs, ids))
    }
}

/// The second half of a layer for several tokens.
pub open spec fn batch_mlp<T: TensorBackend>(
    b: T,
    w: WeightsState,
    l: int,
    n: int,
    x: Seq<u32>,
) -> Seq<u32> {
    let lw = w.layers[l];
    let hidden = w.config.hidden();
    let inner = w.config.intermediate();
    let post = normed_flat(b, x, n, hidden, lw.post_attention_layernorm, w.config.rms_norm_eps);
    let gate = b.batch_projected(post, lw.gate_proj, n as usize, hidden as usize, inner as usize);
    let up = b.batch_projected(post, lw.up_proj, n as usize, hidden as usize, inner as usize);
    let act = flat(gate_rows(b, gate, up, n, inner));
    b.summed(x, b.batch_projected(act, lw.down_proj, n as usize, inner as usize, hidden as usize))
}

/// One layer of a decode step.
pub open spec fn batch_layer<T: TensorBackend>(
    b: T,
    w: WeightsState,
    l: int,
    ids: Seq<u64>,
    at: Seq<usize>,
    places: Seq<Option<(usize, usize)>>,
    s: DecodeState,
) -> DecodeState {
    let n = ids.len() as int;
    let hidden = w.config.hidden();
    let (q, k, v) = qkv_rows(b, w, l, split_rows(s.x, n, hidden), at);
    let kv = match s.kv {
        Some(state) => Some(write_slots(state, places, l, k, v, n)),
        None => None,
    };
    let seqs = if s.kv is Some {
        s.seqs
    } else {
        cache_slots(s.seqs, ids, l, k, v, n)
    };
    let attn = attend_batch(b, w, l, q, kv, seqs, ids);
    let proj = b.batch_projected(
        attn,
        w.layers[l].o_proj,
        n as usize,
        w.config.q_dim() as usize,
        hidden as usize,
    );
    DecodeState { x: batch_mlp(b, w, l, n, b.summed(s.x, proj)), kv, seqs }
}

/// The first `n` layers of a decode step.
pub open spec fn batch_layers<T: TensorBackend>(
    b: T,
    w: WeightsState,
    n: int,
    ids: Seq<u64>,
    at: Seq<usize>,
    places: Seq<Option<(usize, usize)>>,
    s: DecodeState,
) -> DecodeState
    decreases n,
{
    if n <= 0 {
        s
    } else {
        batch_layer(b, w, n - 1, ids, at, places, batch_layers(b, w, n - 1, ids, at, places, s))
    }
}

/// Unknown, begin and end of sequence: tokens that end a sequence.
pub open spec fn is_special(token: u32) -> bool {
    token <= 2
}

/// What the first `n` sampled tokens make of the sequences.
pub open spec fn sampled_seqs(
    seqs: Map<u64, TokensState>,
    ids: Seq<u64>,
    tokens: Seq<(u32, u32)>,
    n: int,
) -> Map<u64, TokensState>
    decreases n,
{
    if n <= 0 {
        seqs
    } else {
        let before = sampled_seqs(seqs, ids, tokens, n - 1);
        before.insert(ids[n - 1], before[ids[n - 1]].with_token(tokens[n - 1].0))
    }
}

/// The output for a sampled token.
pub open spec fn output_for(
    seqs: Map<u64, TokensState>,
    ids: Seq<u64>,
    tokens: Seq<(u32, u32)>,
    i: int,
) -> DecodeOutput {
    if is_special(tokens[i].0) {
        DecodeOutput::Finished {
            request_id: ids[i],
            reason: FinishReason::StopToken,
            total_tokens: sampled_seqs(seqs, ids, tokens, i + 1)[ids[i]].tokens.len() as usize,
        }
    } else {
        DecodeOutput::Token {
            request_id: ids[i],
            token_id: tokens[i].0,
            logprob: Some(tokens[i].1),
        }
    }
}

/// What a decode step gives.
pub struct Decoded {
    pub outputs: Seq<DecodeOutput>,
    pub kv: Option<KvState>,
    pub seqs: Map<u64, TokensState>,
}

/// The most likely token of each row of logits.
pub open spec fn greedy_all<T: TensorBackend>(b: T, logits: Seq<u32>, n: int, vocab: int) -> Seq<
    (u32, u32),
> {
    Seq::new(n as nat, |i: int| b.greedy(row_of(logits, i, vocab)))
}

/// One decode step: every sequence goes on from its last token, is given a slot in the KV
/// cache if there is one, passes all layers together with the others, and gets its most
/// likely token.
pub open spec fn decode_pass<T: TensorBackend>(
    b: T,
    w: WeightsState,
    ids: Seq<u64>,
    kv: Option<KvState>,
    seqs: Map<u64, TokensState>,
) -> Decoded {
    if ids.len() == 0 {
        Decoded { outputs: Seq::empty(), kv, seqs }
    } else {
        let n = ids.len() as int;
        let open = opened(seqs, ids, n, w.config.num_layers as int);
        let kv1 = match kv {
            Some(s) => Some(reserve_all(s, ids, n)),
            None => None,
        };
        let places = match kv {
            Some(s) => slots(s, ids),
            None => Seq::new(ids.len(), |i: int| None),
        };
        let done = batch_layers(
            b,
            w,
            w.layers.len() as int,
            ids,
            positions(open, ids),
            places,
            DecodeState { x: flat(embeddings(w, last_tokens(open, ids))), kv: kv1, seqs: open },
        );
        let hidden = normed_flat(
            b,
            done.x,
            n,
            w.config.hidden(),
            w.final_norm,
            w.config.rms_norm_eps,
        );
        let logits = b.batch_projected(
            hidden,
            w.lm_head,
            n as usize,
            w.config.hidden() as usize,
            w.config.vocab(),
        );
        let tokens = greedy_all(b, logits, n, w.config.vocab() as int);
        Decoded {
            outputs: Seq::new(ids.len(), |i: int| output_for(done.seqs, ids, tokens, i)),
            kv: done.kv,
            seqs: sampled_seqs(done.seqs, ids, tokens, n),
        }
    }
}

/// A slot for each sequence can be asked for in turn.
pub open spec fn reserves_fit(kv: KvState, ids: Seq<u64>) -> bool {
    forall|i: int|
        #![trigger ids[i]]
        0 <= i < ids.len() ==> reserve_all(kv, ids, i).append_fits(ids[i])
}

/// The slots that the sequences are given exist in the tensor pool, if there is one.
pub open spec fn slots_reached(kv: KvState, ids: Seq<u64>) -> bool {
    forall|i: int|
        #![trigger ids[i]]
        0 <= i < ids.len() && slots(kv, ids)[i] is Some ==> kv.pool_reaches(
            (slots(kv, ids)[i]->0).0 as int,
        )
}

/// The blocks of all tokens of the listed sequences exist in the tensor pool, if there is one.
pub open spec fn all_reached(kv: KvState, ids: Seq<u64>) -> bool {
    forall|i: int|
        #![trigger ids[i]]
        0 <= i < ids.len() && kv.tables.contains_key(ids[i]) ==> kv.reached(ids[i])
}

/// A decode step finds what it needs: in the KV cache room for its tokens, and in its pool
/// every block, or at least those that it writes and reads.
pub open spec fn decode_fits(
    w: WeightsState,
    ids: Seq<u64>,
    kv: Option<KvState>,
    seqs: Map<u64, TokensState>,
) -> bool {
    let n = ids.len() as int;
    ids.len() > 0 ==> {
        &&& w.takes_all(last_tokens(opened(seqs, ids, n, w.config.num_layers as int), ids))
        &&& w.config.rows_fit(n)
        &&& n * w.config.vocab() <= usize::MAX
        &&& kv is Some ==> {
            &&& kv->0.wf()
            &&& kv->0.append_room(n) || {
                &&& reserves_fit(kv->0, ids)
                &&& w.layers.len() > 0 ==> {
                    &&& slots_reached(kv->0, ids)
                    &&& all_reached(reserve_all(kv->0, ids, n), ids)
                }
            }
            &&& kv->0.takes_rows(w.layers.len() as int, w.config.kv_dim())
            &&& n * widest(tables_of(reserve_all(kv->0, ids, n), ids)) <= usize::MAX
        }
        &&& kv is Some && kv->0.pool is Some || forall|i: int|
            #![trigger ids[i]]
            0 <= i < n ==> (if seqs.contains_key(ids[i]) {
                seqs[ids[i]].layers.len() >= w.layers.len()
            } else {
                w.config.num_layers >= w.layers.len()
            })
    }
}

// ---- Executable ----
/// A count as the backend takes it.
pub fn to_i32(n: usize) -> (r: i32)
    ensures
        r == low_i32(n),
{
    let m: u32 = low_u32(n);
    if m >= 0x8000_0000 {
        (m as i64 - 0x1_0000_0000) as i32
    } else {
        m as i32
    }
}

/// Rows of a flat tensor.
fn split(x: &Vec<u32>, n: usize, width: usize) -> (r: Vec<Vec<u32>>)
    requires
        x@.len() == n * width,
    ensures
        view_all(r@) == split_rows(x@, n as int, width as int),
        r@.len() == n,
        forall|i: int| 0 <= i < n ==> (#[trigger] r@[i])@.len() == width,
{
    let ghost all = split_rows(x@, n as int, width as int);
    let mut r: Vec<Vec<u32>> = Vec::new();
    let mut i: usize = 0;
    assert(view_all(r@) =~= all.take(0));
    while i < n
        invariant
            i <= n,
            x@.len() == n * width,
            all == split_rows(x@, n as int, width as int),
            r@.len() == i,
            view_all(r@) == all.take(i as int),
            forall|j: int| 0 <= j < i ==> (#[trigger] r@[j])@.len() == width,
        decreases n - i,
    {
        proof {
            lemma_row_in(i as int, n as int, width as int);
        }
        r.push(slice_to_vec(row_slice(x, i, width)));
        assert(view_all(r@) =~= all.take(i + 1));
        i = i + 1;
    }
    assert(all.take(n as int) =~= all);
    r
}

/// Rows one behind the other.
fn join(rows: &Vec<Vec<u32>>, width: usize) -> (r: Vec<u32>)
    requires
        forall|i: int| 0 <= i < rows@.len() ==> (#[trigger] rows@[i])@.len() == width,
    ensures
        r@ == flat(view_all(rows@)),
        r@.len() == rows@.len() * width,
{
    let ghost all = view_all(rows@);
    let mut r: Vec<u32> = Vec::new();
    let mut i: usize = 0;
    assert(all.take(0) =~= Seq::<Seq<u32>>::empty());
    while i < rows.len()
        invariant
            i <= rows@.len(),
            all == view_all(rows@),
            r@ == flat(all.take(i as int)),
        decreases rows@.len() - i,
    {
        append_row(&mut r, rows[i].as_slice());
        proof {
            lemma_flat_push(all.take(i as int), all[i as int]);
            assert(all.take(i as int).push(all[i as int]) =~= all.take(i + 1));
        }
        i = i + 1;
    }
    proof {
        assert(all.take(rows@.len() as int) =~= all);
        assert forall|i: int| 0 <= i < all.len() implies (#[trigger] all[i]).len() == width by {
            assert(rows@[i]@.len() == width);
        }
        lemma_flat_len(all, width as int);
    }
    r
}

/// Opens a sequence for each identifier; the tokens to decode from and their positions.
fn open_all(
    sequences: &mut HashMap<u64, SequenceState>,
    ids: &[u64],
    num_layers: usize,
) -> (r: (Vec<u32>, Vec<usize>))
    ensures
        view_values(final(sequences)@) == opened(
            view_values(old(sequences)@),
            ids@,
            ids@.len() as int,
            num_layers as int,
        ),
        r.0@ == last_tokens(view_values(final(sequences)@), ids@),
        r.1@ == positions(view_values(final(sequences)@), ids@),
        forall|i: int|
            0 <= i < ids@.len() ==> view_values(final(sequences)@).contains_key(#[trigger] ids@[i]),
{
    let ghost before = view_values(sequences@);
    let mut i: usize = 0;
    while i < ids.len()
        invariant
            i <= ids@.len(),
            view_values(sequences@) == opened(before, ids@, i as int, num_layers as int),
            forall|j: int|
                0 <= j < i ==> view_values(sequences@).contains_key(#[trigger] ids@[j]),
        decreases ids@.len() - i,
    {
        let id: u64 = ids[i];
        if !sequences.contains_key(&id) {
            sequences.insert(id, SequenceState::empty(num_layers));
        }
        i = i + 1;
    }
    let ghost open = view_values(sequences@);
    let mut tokens: Vec<u32> = Vec::new();
    let mut at: Vec<usize> = Vec::new();
    let mut j: usize = 0;
    while j < ids.len()
        invariant
            j <= ids@.len(),
            open == view_values(sequences@),
            forall|k: int| 0 <= k < ids@.len() ==> open.contains_key(#[trigger] ids@[k]),
            tokens@ == last_tokens(open, ids@).take(j as int),
            at@ == positions(open, ids@).take(j as int),
        decreases ids@.len() - j,
    {
        let id: u64 = ids[j];
        assert(open.contains_key(ids@[j as int]));
        match sequences.get(&id) {
            Some(s) => {
                tokens.push(s.last_token());
                at.push(s.position());
            },
            None => {
                assert(false);
            },
        }
        proof {
            assert(tokens@ =~= last_tokens(open, ids@).take(j + 1));
            assert(at@ =~= positions(open, ids@).take(j + 1));
        }
        j = j + 1;
    }
    proof {
        assert(tokens@ =~= last_tokens(open, ids@));
        assert(at@ =~= positions(open, ids@));
    }
    (tokens, at)
}

impl KvState {
    /// What reservations keep.
    pub open spec fn shaped_as(self, before: KvState) -> bool {
        &&& self.total_blocks == before.total_blocks
        &&& self.block_size == before.block_size
        &&& self.pool is Some == before.pool is Some
        &&& self.pool is Some ==> {
            &&& self.pool->0.config == before.pool->0.config
            &&& self.pool->0.layout == before.pool->0.layout
        }
    }
}

/// A place is a slot of a block.
spec fn is_place(kv: KvState, place: Option<(usize, usize)>) -> bool {
    place is Some && kv.block_size > 0 ==> (place->0).0 < kv.total_blocks && (place->0).1
        < kv.block_size
}

/// A place that is given exists in the tensor pool, if there is one.
spec fn is_reached(kv: KvState, place: Option<(usize, usize)>) -> bool {
    place is Some ==> kv.pool_reaches((place->0).0 as int)
}

/// A place that is given is in use and clear of all tokens before.
spec fn is_clear(kv: KvState, place: Option<(usize, usize)>, before: KvState) -> bool {
    place is Some && kv.block_size > 0 ==> kv.clear_of(place->0, before) && !kv.free.contains(
        (place->0).0,
    )
}

/// Slots for the first `i` sequences use up the room for as many tokens.
pub proof fn lemma_reserved_room(kv: KvState, ids: Seq<u64>, i: int, n: int)
    requires
        kv.wf(),
        kv.append_room(n),
        0 <= i <= ids.len(),
        ids.len() <= n,
    ensures
        reserve_all(kv, ids, i).wf(),
        reserve_all(kv, ids, i).append_room(n - i),
        reserve_all(kv, ids, i).total_blocks == kv.total_blocks,
        reserve_all(kv, ids, i).block_size == kv.block_size,
        reserve_all(kv, ids, i).pool is Some == kv.pool is Some,
    decreases i,
{
    if i > 0 {
        lemma_reserved_room(kv, ids, i - 1, n);
        let before = reserve_all(kv, ids, i - 1);
        before.lemma_append_room(ids[i - 1], n - i + 1);
        if before.append_possible(ids[i - 1]) {
            before.lemma_append_wf(ids[i - 1]);
        }
    }
}

/// Room for a token of each sequence, and every block in the pool, is room for a slot of each.
proof fn lemma_reserves_fit(kv: KvState, ids: Seq<u64>)
    requires
        kv.wf(),
        kv.append_room(ids.len() as int),
    ensures
        reserves_fit(kv, ids),
        kv.pool is None || kv.block_size > 0 ==> slots_reached(kv, ids) && all_reached(
            reserve_all(kv, ids, ids.len() as int),
            ids,
        ),
{
    let n = ids.len() as int;
    assert forall|i: int| #![trigger ids[i]] 0 <= i < n implies reserve_all(kv, ids, i).append_fits(
        ids[i],
    ) by {
        lemma_reserved_room(kv, ids, i, n);
        reserve_all(kv, ids, i).lemma_append_room(ids[i], n - i);
    }
    if kv.pool is None || kv.block_size > 0 {
        assert forall|i: int|
            #![trigger ids[i]]
            0 <= i < n && slots(kv, ids)[i] is Some implies kv.pool_reaches(
            (slots(kv, ids)[i]->0).0 as int,
        ) by {
            lemma_reserved_room(kv, ids, i, n);
            let here = reserve_all(kv, ids, i);
            assert(here.append_fits(ids[i]));
            if kv.pool is Some {
                here.law_append_slot_is_private(ids[i], ids[i]);
            }
        }
        lemma_reserved_room(kv, ids, n, n);
        let done = reserve_all(kv, ids, n);
        assert forall|i: int| #![trigger ids[i]] 0 <= i < n && done.tables.contains_key(
            ids[i],
        ) implies done.reached(ids[i]) by {
            if kv.pool is Some {
                done.lemma_covered(ids[i]);
            }
        }
    }
}

/// Gives each sequence a slot in the KV cache.
fn reserve_slots<B: UnifiedBuffer>(kv: &mut AienKvManager<B>, ids: &[u64]) -> (r: Vec<
    Option<(usize, usize)>,
>)
    requires
        old(kv)@.wf(),
        reserves_fit(old(kv)@, ids@),
    ensures
        final(kv)@ == reserve_all(old(kv)@, ids@, ids@.len() as int),
        final(kv)@.wf(),
        final(kv)@.shaped_as(old(kv)@),
        r@ == slots(old(kv)@, ids@),
        forall|i: int| 0 <= i < r@.len() ==> is_place(final(kv)@, #[trigger] r@[i]),
        final(kv)@.extends_only(old(kv)@, ids@),
        forall|i: int| 0 <= i < r@.len() ==> is_clear(final(kv)@, #[trigger] r@[i], old(kv)@),
{
    let ghost before = kv@;
    let mut r: Vec<Option<(usize, usize)>> = Vec::new();
    let mut i: usize = 0;
    while i < ids.len()
        invariant
            i <= ids@.len(),
            r@.len() == i,
            kv@.wf(),
            reserves_fit(before, ids@),
            kv@ == reserve_all(before, ids@, i as int),
            kv@.shaped_as(before),
            r@ == slots(before, ids@).take(i as int),
            forall|j: int| 0 <= j < i ==> is_place(before, #[trigger] r@[j]),
            kv@.extends_only(before, ids@),
            forall|j: int| 0 <= j < i ==> is_clear(kv@, #[trigger] r@[j], before),
        decreases ids@.len() - i,
    {
        let id: u64 = ids[i];
        let ghost here = kv@;
        proof {
            assert(here.append_fits(ids@[i as int]));
            assert(ids@.contains(ids@[i as int]));
            if here.append_possible(id) {
                here.lemma_append_extends(id);
                here.append(id).lemma_extends_twice(here, before);
            }
            if here.append_possible(id) && here.block_size > 0 {
                here.law_append_slot_is_private(id, id);
                here.lemma_slot_is_clear(id, before);
                assert forall|j: int| 0 <= j < i implies is_clear(
                    here.append(id),
                    #[trigger] r@[j],
                    before,
                ) by {
                    if r@[j] is Some {
                        here.lemma_clear_stays(id, r@[j]->0, before);
                    }
                }
            }
        }
        let place: Option<(usize, usize)> = match kv.append_token_with_slot(id) {
            Ok(p) => Some(p),
            Err(_) => None,
        };
        r.push(place);
        assert(r@ =~= slots(before, ids@).take(i + 1));
        i = i + 1;
    }
    assert(r@ =~= slots(before, ids@));
    r
}

/// Writes rows to their slots.
fn store_slots<B: UnifiedBuffer>(
    kv: &mut AienKvManager<B>,
    places: &Vec<Option<(usize, usize)>>,
    layer: usize,
    k: &Vec<Vec<u32>>,
    v: &Vec<Vec<u32>>,
    Ghost(first): Ghost<KvState>,
)
    requires
        old(kv)@.wf(),
        old(kv)@.extends(first),
        forall|i: int| 0 <= i < places@.len() ==> is_clear(old(kv)@, #[trigger] places@[i], first),
        k@.len() == places@.len(),
        v@.len() == places@.len(),
        forall|i: int| 0 <= i < places@.len() ==> is_place(old(kv)@, #[trigger] places@[i]),
        forall|i: int| 0 <= i < places@.len() ==> is_reached(old(kv)@, #[trigger] places@[i]),
        old(kv)@.pool is Some ==> {
            &&& old(kv)@.has_layer(layer as int)
            &&& forall|t: int|
                0 <= t < k@.len() ==> (#[trigger] k@[t])@.len() == old(kv)@.pool->0.kv_dim()
            &&& forall|t: int|
                0 <= t < v@.len() ==> (#[trigger] v@[t])@.len() == old(kv)@.pool->0.kv_dim()
        },
    ensures
        final(kv)@ == write_slots(
            old(kv)@,
            places@,
            layer as int,
            view_all(k@),
            view_all(v@),
            places@.len() as int,
        ),
        final(kv)@.same_but_rows(old(kv)@),
        final(kv)@.extends(first),
{
    let ghost before = kv@;
    let mut i: usize = 0;
    while i < places.len()
        invariant
            i <= places@.len(),
            k@.len() == places@.len(),
            v@.len() == places@.len(),
            forall|j: int| 0 <= j < places@.len() ==> is_place(before, #[trigger] places@[j]),
            forall|j: int| 0 <= j < places@.len() ==> is_reached(before, #[trigger] places@[j]),
            before.pool is Some ==> {
                &&& before.has_layer(layer as int)
                &&& forall|t: int|
                    0 <= t < k@.len() ==> (#[trigger] k@[t])@.len() == before.pool->0.kv_dim()
                &&& forall|t: int|
                    0 <= t < v@.len() ==> (#[trigger] v@[t])@.len() == before.pool->0.kv_dim()
            },
            kv@ == write_slots(
                before,
                places@,
                layer as int,
                view_all(k@),
                view_all(v@),
                i as int,
            ),
            kv@.same_but_rows(before),
            kv@.extends(first),
            forall|j: int| 0 <= j < places@.len() ==> is_clear(before, #[trigger] places@[j], first),
        decreases places@.len() - i,
    {
        assert(is_place(before, places@[i as int]));
        assert(is_reached(before, places@[i as int]));
        assert(k@[i as int]@.len() == k@[i as int]@.len());
        assert(v@[i as int]@.len() == v@[i as int]@.len());
        match places[i] {
            Some(place) => {
                proof {
                    assert(is_clear(before, places@[i as int], first));
                    if kv@.block_size > 0 {
                        before.lemma_clear_frame(kv@, place, first);
                    }
                    kv@.lemma_write_extends(
                        place,
                        layer as int,
                        k@[i as int]@,
                        v@[i as int]@,
                        first,
                    );
                }
                let _ = kv.write_explicit_token_kv(
                    place.0,
                    layer,
                    place.1,
                    k[i].as_slice(),
                    v[i].as_slice(),
                );
            },
            None => {},
        }
        i = i + 1;
    }
}

/// Every listed sequence is there and has this many layers of its own.
pub open spec fn all_have(seqs: Map<u64, TokensState>, ids: Seq<u64>, layers: int) -> bool {
    forall|i: int|
        0 <= i < ids.len() ==> seqs.contains_key(#[trigger] ids[i]) && seqs[ids[i]].layers.len()
            >= layers
}

/// Adds rows to the sequences' own caches.
fn cache_own(
    sequences: &mut HashMap<u64, SequenceState>,
    ids: &[u64],
    layer: usize,
    k: &Vec<Vec<u32>>,
    v: &Vec<Vec<u32>>,
    layers: usize,
)
    requires
        all_have(view_values(old(sequences)@), ids@, layers as int),
        layer < layers,
        k@.len() == ids@.len(),
        v@.len() == ids@.len(),
    ensures
        view_values(final(sequences)@) == cache_slots(
            view_values(old(sequences)@),
            ids@,
            layer as int,
            view_all(k@),
            view_all(v@),
            ids@.len() as int,
        ),
        all_have(view_values(final(sequences)@), ids@, layers as int),
{
    let ghost before = view_values(sequences@);
    let mut i: usize = 0;
    while i < ids.len()
        invariant
            i <= ids@.len(),
            k@.len() == ids@.len(),
            v@.len() == ids@.len(),
            layer < layers,
            all_have(view_values(sequences@), ids@, layers as int),
            view_values(sequences@) == cache_slots(
                before,
                ids@,
                layer as int,
                view_all(k@),
                view_all(v@),
                i as int,
            ),
        decreases ids@.len() - i,
    {
        let id: u64 = ids[i];
        let ghost here = view_values(sequences@);
        assert(here.contains_key(ids@[i as int]) && here[ids@[i as int]].layers.len() >= layers);
        match value_mut(sequences, id) {
            Some(s) => {
                s.push_row(layer, k[i].as_slice(), v[i].as_slice());
            },
            None => {
                assert(false);
            },
        }
        assert forall|j: int| 0 <= j < ids@.len() implies view_values(sequences@).contains_key(
            #[trigger] ids@[j],
        ) && view_values(sequences@)[ids@[j]].layers.len() >= layers by {
            assert(here.contains_key(ids@[j]) && here[ids@[j]].layers.len() >= layers);
        }
        i = i + 1;
    }
}

/// Attention of each row over its own sequence's cache.
fn attend_caches<T: TensorBackend>(
    weights: &TransformerWeights,
    backend: &T,
    widths: Widths,
    layer: usize,
    q: &Vec<Vec<u32>>,
    sequences: &HashMap<u64, SequenceState>,
    ids: &[u64],
) -> (r: Vec<u32>)
    requires
        widths.of(weights@.config),
        all_have(view_values(sequences@), ids@, layer + 1),
        q@.len() == ids@.len(),
        forall|i: int| 0 <= i < q@.len() ==> (#[trigger] q@[i])@.len() == widths.q,
    ensures
        r@ == flat(
            attend_own(
                *backend,
                weights@,
                layer as int,
                view_all(q@),
                view_values(sequences@),
                ids@,
            ),
        ),
        r@.len() == ids@.len() * widths.q,
{
    let ghost w = weights@;
    let ghost seqs = view_values(sequences@);
    let ghost all = attend_own(*backend, w, layer as int, view_all(q@), seqs, ids@);
    let mut r: Vec<u32> = Vec::new();
    let mut i: usize = 0;
    assert(all.take(0) =~= Seq::<Seq<u32>>::empty());
    while i < ids.len()
        invariant
            i <= ids@.len(),
            widths.of(w.config),
            seqs == view_values(sequences@),
            all_have(seqs, ids@, layer + 1),
            q@.len() == ids@.len(),
            forall|j: int| 0 <= j < q@.len() ==> (#[trigger] q@[j])@.len() == widths.q,
            all == attend_own(*backend, w, layer as int, view_all(q@), seqs, ids@),
            forall|j: int| 0 <= j < i ==> (#[trigger] all[j]).len() == widths.q,
            r@ == flat(all.take(i as int)),
        decreases ids@.len() - i,
    {
        let id: u64 = ids[i];
        assert(seqs.contains_key(ids@[i as int]) && seqs[ids@[i as int]].layers.len() >= layer + 1);
        match sequences.get(&id) {
            Some(s) => {
                assert(s@.layers.len() == s.layers@.len());
                let cache = &s.layers[layer];
                assert(cache@ == s@.layers[layer as int]);
                let row = backend.gqa_attention(
                    q[i].as_slice(),
                    cache.flat_k.as_slice(),
                    cache.flat_v.as_slice(),
                    cache.cached_k.len(),
                    widths.heads,
                );
                append_row(&mut r, row.as_slice());
                proof {
                    assert(row@ == all[i as int]);
                    lemma_flat_push(all.take(i as int), row@);
                    assert(all.take(i as int).push(row@) =~= all.take(i + 1));
                }
            },
            None => {
                assert(false);
            },
        }
        i = i + 1;
    }
    proof {
        assert(all.take(ids@.len() as int) =~= all);
        lemma_flat_len(all, widths.q as int);
    }
    r
}

/// The block tables of the sequences, filled up to one length, their token counts, and
/// that length.
fn tables_for_backend<B: UnifiedBuffer>(kv: &AienKvManager<B>, ids: &[u64]) -> (r: (
    Vec<i32>,
    Vec<i32>,
    usize,
))
    requires
        ids@.len() * widest(tables_of(kv@, ids@)) <= usize::MAX,
        ids@.len() > 0,
    ensures
        r.0@ == padded_all(tables_of(kv@, ids@), widest(tables_of(kv@, ids@)) as int),
        r.0@.len() == ids@.len() * r.2,
        r.1@ == lens_of(kv@, ids@),
        r.2 == widest(tables_of(kv@, ids@)),
{
    let ghost tables = tables_of(kv@, ids@);
    let mut rows: Vec<Vec<usize>> = Vec::new();
    let mut lens: Vec<i32> = Vec::new();
    let mut max_blocks: usize = 1;
    let mut i: usize = 0;
    proof {
        assert(tables.take(0) =~= Seq::<Seq<usize>>::empty());
        assert(view_all(rows@) =~= tables.take(0));
    }
    while i < ids.len()
        invariant
            i <= ids@.len(),
            tables == tables_of(kv@, ids@),
            rows@.len() == i,
            view_all(rows@) == tables.take(i as int),
            lens@ == lens_of(kv@, ids@).take(i as int),
            max_blocks == widest(tables.take(i as int)),
        decreases ids@.len() - i,
    {
        match kv.get_block_table(ids[i]) {
            Some(table) => {
                if table.block_ids.len() > max_blocks {
                    max_blocks = table.block_ids.len();
                }
                rows.push(slice_to_vec(table.block_ids.as_slice()));
                lens.push(to_i32(table.total_tokens));
            },
            None => {
                rows.push(Vec::new());
                lens.push(0);
            },
        }
        proof {
            assert(tables.take(i + 1).drop_last() =~= tables.take(i as int));
            assert(tables.take(i + 1).last() == tables[i as int]);
            assert(rows@[i as int]@ =~= tables[i as int]);
            assert(view_all(rows@) =~= tables.take(i + 1));
            assert(lens@ =~= lens_of(kv@, ids@).take(i + 1));
        }
        i = i + 1;
    }
    proof {
        assert(tables.take(ids@.len() as int) =~= tables);
        assert(lens@ =~= lens_of(kv@, ids@));
    }
    let flat_tables = pad_all(&rows, max_blocks);
    (flat_tables, lens, max_blocks)
}

/// Tables filled up to one length, one behind the other.
fn pad_all(rows: &Vec<Vec<usize>>, width: usize) -> (r: Vec<i32>)
    ensures
        r@ == padded_all(view_all(rows@), width as int),
        r@.len() == rows@.len() * width,
{
    let ghost all = view_all(rows@);
    let mut r: Vec<i32> = Vec::new();
    let mut i: usize = 0;
    proof {
        assert(all.take(0) =~= Seq::<Seq<usize>>::empty());
        assert(0 * width == 0);
    }
    while i < rows.len()
        invariant
            i <= rows@.len(),
            all == view_all(rows@),
            r@ == padded_all(all.take(i as int), width as int),
            r@.len() == i * width,
        decreases rows@.len() - i,
    {
        let ghost before = r@;
        let ghost row = padded(all[i as int], width as int);
        let mut j: usize = 0;
        assert(r@ =~= before + row.take(0));
        while j < width
            invariant
                j <= width,
                i < rows@.len(),
                all == view_all(rows@),
                row == padded(all[i as int], width as int),
                r@ == before + row.take(j as int),
            decreases width - j,
        {
            if j < rows[i].len() {
                r.push(to_i32(rows[i][j]));
            } else {
                r.push(-1);
            }
            assert(r@ =~= before + row.take(j + 1));
            j = j + 1;
        }
        proof {
            assert(row.take(width as int) =~= row);
            assert(all.take(i + 1).drop_last() =~= all.take(i as int));
            assert(i * width + width == (i + 1) * width) by (nonlinear_arith);
        }
        i = i + 1;
    }
    assert(all.take(rows@.len() as int) =~= all);
    r
}

/// No table is longer than the longest.
pub proof fn lemma_widest_is_most(tables: Seq<Seq<usize>>, i: int)
    requires
        0 <= i < tables.len(),
    ensures
        tables[i].len() <= widest(tables),
    decreases tables.len(),
{
    if i < tables.len() - 1 {
        lemma_widest_is_most(tables.drop_last(), i);
        assert(tables.drop_last()[i] == tables[i]);
    }
}

/// Where entry `j` of table `i` stands among padded tables.
pub proof fn lemma_entry(tables: Seq<Seq<usize>>, width: int, i: int, j: int)
    requires
        0 <= i < tables.len(),
        0 <= j < tables[i].len(),
        j < width,
    ensures
        padded_all(tables, width).len() == tables.len() * width,
        0 <= i * width + j < tables.len() * width,
        padded_all(tables, width)[i * width + j] == low_i32(tables[i][j]),
    decreases tables.len(),
{
    let n = tables.len() as int;
    let rest = tables.drop_last();
    lemma_padded_len(tables, width);
    lemma_padded_len(rest, width);
    assert((n - 1) * width + width == n * width) by (nonlinear_arith);
    if i < n - 1 {
        assert(rest[i] == tables[i]);
        lemma_entry(rest, width, i, j);
    } else {
        assert(0 <= (n - 1) * width) by (nonlinear_arith)
            requires
                n >= 1,
                width >= 0,
        ;
        assert(padded_all(tables, width)[i * width + j] == padded(tables.last(), width)[j]);
    }
}

pub proof fn lemma_padded_len(tables: Seq<Seq<usize>>, width: int)
    requires
        0 <= width,
    ensures
        padded_all(tables, width).len() == tables.len() * width,
    decreases tables.len(),
{
    if tables.len() > 0 {
        let n = tables.len() as int;
        lemma_padded_len(tables.drop_last(), width);
        assert((n - 1) * width + width == n * width) by (nonlinear_arith);
    } else {
        assert(0 * width == 0);
    }
}

/// Attention of a decode step.
fn compute_attention<T: TensorBackend, B: UnifiedBuffer>(
    weights: &TransformerWeights,
    backend: &T,
    widths: Widths,
    layer: usize,
    q: &Vec<Vec<u32>>,
    kv: Option<&AienKvManager<B>>,
    sequences: &HashMap<u64, SequenceState>,
    ids: &[u64],
) -> (r: Vec<u32>)
    requires
        widths.of(weights@.config),
        ids@.len() > 0,
        q@.len() == ids@.len(),
        forall|i: int| 0 <= i < q@.len() ==> (#[trigger] q@[i])@.len() == widths.q,
        kv is Some && kv->0@.pool is Some ==> {
            &&& kv->0@.wf()
            &&& kv->0@.has_layer(layer as int)
            &&& ids@.len() * widest(tables_of(kv->0@, ids@)) <= usize::MAX
            &&& all_reached(kv->0@, ids@)
        },
        kv is None || kv->0@.pool is None ==> all_have(
            view_values(sequences@),
            ids@,
            layer + 1,
        ),
    ensures
        r@ == attend_batch(
            *backend,
            weights@,
            layer as int,
            view_all(q@),
            match kv {
                Some(m) => Some(m@),
                None => None,
            },
            view_values(sequences@),
            ids@,
        ),
        r@.len() == ids@.len() * widths.q,
{
    match kv {
        Some(m) => match m.tensor_pool() {
            Some(pool) => {
                let joined = join(q, widths.q);
                let (tables, lens, max_blocks) = tables_for_backend(m, ids);
                proof {
                    let all = tables_of(m@, ids@);
                    let wide = max_blocks as int;
                    assert forall|i: int, t: int|
                        #![trigger lens@[i], block_of(pool@, t)]
                        0 <= i < lens@.len() && 0 <= t < lens@[i] implies {
                        &&& 0 <= block_of(pool@, t) < max_blocks
                        &&& tables@[i * max_blocks + block_of(pool@, t)] < pool@.layout.num_blocks
                    } by {
                        let id = ids@[i];
                        let j = block_of(pool@, t);
                        assert(m@.tables.contains_key(id));
                        m@.lemma_counted_token(id, t);
                        assert(m@.reaches_token(id, t));
                        assert(all[i] == m@.tables[id].block_ids);
                        lemma_widest_is_most(all, i);
                        lemma_entry(all, wide, i, j);
                    }
                }
                return backend.paged_attention_batch(
                    joined.as_slice(),
                    pool,
                    tables.as_slice(),
                    lens.as_slice(),
                    max_blocks,
                    layer,
                    widths.heads,
                );
            },
            None => {},
        },
        None => {},
    }
    attend_caches(weights, backend, widths, layer, q, sequences, ids)
}

/// The second half of a layer for several tokens.
fn apply_batch_mlp<T: TensorBackend>(
    weights: &TransformerWeights,
    backend: &T,
    widths: Widths,
    layer: usize,
    n: usize,
    x: &Vec<u32>,
) -> (r: Vec<u32>)
    requires
        widths.of(weights@.config),
        weights@.config.rows_fit(n as int),
        layer < weights@.layers.len(),
        x@.len() == n * widths.hidden,
    ensures
        r@ == batch_mlp(*backend, weights@, layer as int, n as int, x@),
        r@.len() == n * widths.hidden,
{
    let lw = &weights.layers[layer];
    assert(lw@ == weights@.layers[layer as int]);
    let rows = split(x, n, widths.hidden);
    let post = normalise(
        backend,
        &rows,
        &lw.post_attention_layernorm,
        weights.config.rms_norm_eps,
        widths.hidden,
    );
    let gated = backend.matmul_batch(
        post.as_slice(),
        lw.gate_proj.as_slice(),
        n,
        widths.hidden,
        widths.intermediate,
    );
    let up = backend.matmul_batch(
        post.as_slice(),
        lw.up_proj.as_slice(),
        n,
        widths.hidden,
        widths.intermediate,
    );
    let act = activate(backend, &gated, &up, n, widths.intermediate);
    let out = backend.matmul_batch(
        act.as_slice(),
        lw.down_proj.as_slice(),
        n,
        widths.intermediate,
        widths.hidden,
    );
    backend.residual(x.as_slice(), out.as_slice())
}

/// Samples the next token of each sequence and tells what it gives.
fn sample_all<T: TensorBackend>(
    backend: &T,
    logits: &Vec<u32>,
    vocab: usize,
    sequences: &mut HashMap<u64, SequenceState>,
    ids: &[u64],
) -> (r: Vec<DecodeOutput>)
    requires
        logits@.len() == ids@.len() * vocab,
        forall|i: int|
            0 <= i < ids@.len() ==> view_values(old(sequences)@).contains_key(#[trigger] ids@[i]),
    ensures
        ({
            let tokens = greedy_all(*backend, logits@, ids@.len() as int, vocab as int);
            &&& view_values(final(sequences)@) == sampled_seqs(
                view_values(old(sequences)@),
                ids@,
                tokens,
                ids@.len() as int,
            )
            &&& r@ == Seq::new(
                ids@.len(),
                |i: int| output_for(view_values(old(sequences)@), ids@, tokens, i),
            )
        }),
{
    let ghost before = view_values(sequences@);
    let ghost tokens = greedy_all(*backend, logits@, ids@.len() as int, vocab as int);
    let ghost all = Seq::new(ids@.len(), |i: int| output_for(before, ids@, tokens, i));
    let n: usize = ids.len();
    let mut r: Vec<DecodeOutput> = Vec::new();
    let mut i: usize = 0;
    assert(r@ =~= all.take(0));
    while i < n
        invariant
            i <= n,
            n == ids@.len(),
            logits@.len() == n * vocab,
            tokens == greedy_all(*backend, logits@, n as int, vocab as int),
            all == Seq::new(ids@.len(), |i: int| output_for(before, ids@, tokens, i)),
            view_values(sequences@) == sampled_seqs(before, ids@, tokens, i as int),
            forall|j: int|
                0 <= j < n ==> view_values(sequences@).contains_key(#[trigger] ids@[j]),
            r@ == all.take(i as int),
        decreases n - i,
    {
        let id: u64 = ids[i];
        let ghost here = view_values(sequences@);
        proof {
            lemma_row_in(i as int, n as int, vocab as int);
            assert(here.contains_key(ids@[i as int]));
        }
        let (token, logprob) = backend.sample_argmax(row_slice(logits, i, vocab));
        assert(tokens[i as int] == (token, logprob));
        let total: usize = match value_mut(sequences, id) {
            Some(s) => {
                s.tokens.push(token);
                s.tokens.len()
            },
            None => {
                assert(false);
                0
            },
        };
        assert(view_values(sequences@) == sampled_seqs(before, ids@, tokens, i + 1));
        if token <= 2 {
            r.push(
                DecodeOutput::Finished {
                    request_id: id,
                    reason: FinishReason::StopToken,
                    total_tokens: total,
                },
            );
        } else {
            r.push(
                DecodeOutput::Token { request_id: id, token_id: token, logprob: Some(logprob) },
            );
        }
        proof {
            assert(r@ =~= all.take(i + 1));
            assert forall|j: int| 0 <= j < n implies view_values(sequences@).contains_key(
                #[trigger] ids@[j],
            ) by {
                assert(here.contains_key(ids@[j]));
            }
        }
        i = i + 1;
    }
    assert(all.take(n as int) =~= all);
    r
}

/// No slot for any of `n` sequences.
fn no_places(n: usize) -> (r: Vec<Option<(usize, usize)>>)
    ensures
        r@ == Seq::new(n as nat, |i: int| None::<(usize, usize)>),
{
    let mut r: Vec<Option<(usize, usize)>> = Vec::new();
    let mut i: usize = 0;
    while i < n
        invariant
            i <= n,
            r@ == Seq::new(i as nat, |i: int| None::<(usize, usize)>),
        decreases n - i,
    {
        r.push(None);
        assert(r@ =~= Seq::new((i + 1) as nat, |i: int| None::<(usize, usize)>));
        i = i + 1;
    }
    r
}

/// An opened sequence is there, and has the layers it had or those of a new one.
proof fn lemma_opened(
    seqs: Map<u64, TokensState>,
    ids: Seq<u64>,
    n: int,
    num_layers: int,
    id: u64,
)
    requires
        0 <= n <= ids.len(),
    ensures
        seqs.contains_key(id) ==> opened(seqs, ids, n, num_layers).contains_key(id) && opened(
            seqs,
            ids,
            n,
            num_layers,
        )[id] == seqs[id],
        !seqs.contains_key(id) && opened(seqs, ids, n, num_layers).contains_key(id) ==> opened(
            seqs,
            ids,
            n,
            num_layers,
        )[id] == TokensState::empty(num_layers),
    decreases n,
{
    if n > 0 {
        lemma_opened(seqs, ids, n - 1, num_layers, id);
    }
}

/// One decode step of the listed sequences, together.
pub fn forward_decode_batch<T: TensorBackend, B: UnifiedBuffer>(
    weights: &TransformerWeights,
    backend: &T,
    sequences: &mut HashMap<u64, SequenceState>,
    kv: Option<&mut AienKvManager<B>>,
    ids: &[u64],
) -> (r: Vec<DecodeOutput>)
    requires
        decode_fits(weights@, ids@, held(kv), view_values(old(sequences)@)),
    ensures
        ({
            let done = decode_pass(
                *backend,
                weights@,
                ids@,
                held(kv),
                view_values(old(sequences)@),
            );
            &&& r@ == done.outputs
            &&& view_values(final(sequences)@) == done.seqs
            &&& kv is Some ==> done.kv == Some(final(kv->0)@)
            &&& kv is None ==> done.kv is None
            &&& kv is Some && held(kv)->0.wf() ==> final(kv->0)@.wf()
            &&& kv is Some ==> final(kv->0)@.extends_only(held(kv)->0, ids@)
        }),
{
    let n: usize = ids.len();
    if n == 0 {
        return Vec::new();
    }
    let ghost w = weights@;
    let ghost before = held(kv);
    let ghost seqs = view_values(sequences@);
    let widths = weights.widths();
    let vocab: usize = weights.config.vocab_size();
    let (tokens, at) = open_all(sequences, ids, weights.config.num_layers);
    let ghost open = view_values(sequences@);
    let rows = embed(weights, tokens.as_slice());
    let mut x = join(&rows, widths.hidden);
    let mut mgr = kv;
    proof {
        if before is Some && before->0.append_room(n as int) {
            lemma_reserves_fit(before->0, ids@);
        }
    }
    let places: Vec<Option<(usize, usize)>> = match &mut mgr {
        Some(m) => reserve_slots(&mut **m, ids),
        None => no_places(n),
    };
    let ghost kv1 = held(mgr);
    let ghost start = DecodeState { x: x@, kv: kv1, seqs: open };
    proof {
        if mgr is Some && w.layers.len() > 0 {
            assert forall|i: int| 0 <= i < places@.len() implies is_reached(
                kv1->0,
                #[trigger] places@[i],
            ) by {
                let id = ids@[i];
                assert(places@[i] == slots(before->0, ids@)[i]);
            }
        }
        if !(before is Some && before->0.pool is Some) {
            assert forall|i: int| 0 <= i < ids@.len() implies open.contains_key(
                #[trigger] ids@[i],
            ) && open[ids@[i]].layers.len() >= w.layers.len() by {
                lemma_opened(seqs, ids@, n as int, w.config.num_layers as int, ids@[i]);
            }
        }
    }
    let mut layer: usize = 0;
    while layer < weights.layers.len()
        invariant
            layer <= w.layers.len(),
            w == weights@,
            w.layers == view_all(weights.layers@),
            n == ids@.len(),
            n > 0,
            w.config.rows_fit(n as int),
            widths.of(w.config),
            at@.len() == n,
            places@.len() == n,
            kv is Some == mgr is Some,
            mgr is Some ==> *final(mgr->0) == *final(kv->0),
            kv1 is Some == mgr is Some,
            mgr is Some ==> mgr->0@.same_but_rows(kv1->0),
            mgr is Some ==> mgr->0@.extends_only(before->0, ids@),
            mgr is Some ==> forall|i: int|
                0 <= i < places@.len() ==> is_clear(kv1->0, #[trigger] places@[i], before->0),
            mgr is Some ==> kv1->0.takes_rows(w.layers.len() as int, w.config.kv_dim()),
            mgr is Some ==> n * widest(tables_of(kv1->0, ids@)) <= usize::MAX,
            mgr is Some ==> forall|i: int|
                0 <= i < places@.len() ==> is_place(kv1->0, #[trigger] places@[i]),
            mgr is Some && w.layers.len() > 0 ==> all_reached(kv1->0, ids@) && forall|i: int|
                0 <= i < places@.len() ==> is_reached(kv1->0, #[trigger] places@[i]),
            mgr is None || kv1->0.pool is None ==> all_have(
                view_values(sequences@),
                ids@,
                w.layers.len() as int,
            ),
            forall|i: int|
                0 <= i < n ==> view_values(sequences@).contains_key(#[trigger] ids@[i]),
            x@.len() == n * widths.hidden,
            (DecodeState { x: x@, kv: held(mgr), seqs: view_values(sequences@) }) == batch_layers(
                *backend,
                w,
                layer as int,
                ids@,
                at@,
                places@,
                start,
            ),
        decreases w.layers.len() - layer,
    {
        let x_rows = split(&x, n, widths.hidden);
        let (q, k, v) = compute_qkv_rows(weights, backend, widths, layer, &x_rows, &at);
        match &mut mgr {
            Some(m) => {
                proof {
                    assert forall|i: int| 0 <= i < places@.len() implies is_clear(
                        m@,
                        #[trigger] places@[i],
                        before->0,
                    ) by {
                        if places@[i] is Some && m@.block_size > 0 {
                            kv1->0.lemma_clear_frame(m@, places@[i]->0, before->0);
                        }
                    }
                }
                store_slots(&mut **m, &places, layer, &k, &v, Ghost(before->0));
            },
            None => {
                cache_own(sequences, ids, layer, &k, &v, weights.layers.len());
                assert forall|i: int| 0 <= i < n implies view_values(sequences@).contains_key(
                    #[trigger] ids@[i],
                ) by {}
            },
        }
        let kv_now: Option<&AienKvManager<B>> = match &mgr {
            Some(m) => Some(&**m),
            None => None,
        };
        proof {
            if kv_now is Some {
                assert(kv_now->0@ == mgr->0@);
                assert(tables_of(mgr->0@, ids@) =~= tables_of(kv1->0, ids@));
                assert forall|i: int| #![trigger ids@[i]] 0 <= i < ids@.len()
                    && mgr->0@.tables.contains_key(ids@[i]) implies mgr->0@.reached(ids@[i]) by {
                    assert(kv1->0.reached(ids@[i]));
                    kv1->0.lemma_reached_frame(mgr->0@, ids@[i]);
                }
            }
            if kv_now is None || kv_now->0@.pool is None {
                assert forall|i: int| 0 <= i < ids@.len() implies view_values(
                    sequences@,
                ).contains_key(#[trigger] ids@[i]) && view_values(
                    sequences@,
                )[ids@[i]].layers.len() >= layer + 1 by {}
            }
        }
        let attn = compute_attention(
            weights,
            backend,
            widths,
            layer,
            &q,
            kv_now,
            sequences,
            ids,
        );
        let lw = &weights.layers[layer];
        assert(lw@ == w.layers[layer as int]);
        let proj = backend.matmul_batch(
            attn.as_slice(),
            lw.o_proj.as_slice(),
            n,
            widths.q,
            widths.hidden,
        );
        let sum = backend.residual(x.as_slice(), proj.as_slice());
        x = apply_batch_mlp(weights, backend, widths, layer, n, &sum);
        layer = layer + 1;
    }
    let rows = split(&x, n, widths.hidden);
    let hidden = normalise(
        backend,
        &rows,
        &weights.final_norm,
        weights.config.rms_norm_eps,
        widths.hidden,
    );
    let logits = backend.matmul_batch(
        hidden.as_slice(),
        weights.lm_head.as_slice(),
        n,
        widths.hidden,
        vocab,
    );
    sample_all(backend, &logits, vocab, sequences, ids)
}

} // verus!
