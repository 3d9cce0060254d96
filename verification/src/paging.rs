//! That passes and prompts over the pages of a KV cache give what the text gives.

use crate::agreement::{
    keeps_sizes, lemma_qkv_row, lemma_rows_in_step, one_by_one, reads_counted_rows, row_by_row,
    rows_of_width,
};
use crate::batching::lemma_widths;
use crate::forward::{qkv, through_layer, through_layers, token_pass, zeros, PassState};
use crate::kv_state::KvState;
use crate::layout::KvDType;
use crate::model::{
    key, keys, law_empty_caches_hold_nothing, law_later_tokens_do_not_matter,
    lemma_layers_read_text, lemma_one_by_one_reads_text, meaning, rows_of_text, value, values,
};
use crate::pool::{as_stored, PoolState};
use crate::prefill::{
    counted, embeddings, place_of, prefill_pass, prompt_layer, prompt_layers, qkv_rows, table_for,
    write_rows, PromptState,
};
use crate::tensor::{attendable, block_of, flat, lemma_flat_push, HeadShape, TensorBackend};
use crate::weights::{CacheState, TokensState, WeightsState};
use vstd::prelude::*;

verus! {

/// Attention over the pages of a table is attention over the rows that they hold, one behind
/// the other.
pub open spec fn reads_pages<T: TensorBackend>(b: T) -> bool {
    forall|
        q: Seq<u32>,
        pool: PoolState,
        blocks: Seq<usize>,
        total: usize,
        layer: usize,
        heads: HeadShape,
    |
        attendable(pool, blocks, total, layer as int) ==> #[trigger] b.page_attended(
            q,
            pool,
            blocks,
            total,
            layer,
            heads,
        ) == b.attended(
            q,
            pool.gathered(blocks, total as int, layer as int, false),
            pool.gathered(blocks, total as int, layer as int, true),
            total,
            heads,
        )
}

/// The pages hold, for token `i` of a sequence in a layer, its key and its value in the text.
pub open spec fn row_is_of_text<T: TensorBackend>(
    b: T,
    w: WeightsState,
    text: Seq<u32>,
    kv: KvState,
    seq: u64,
    l: int,
    i: int,
) -> bool {
    let blocks = kv.tables[seq].block_ids;
    let x = rows_of_text(b, w, text, l)[i];
    &&& kv.pool->0.token_row(blocks, i, l, false) == key(b, w, l, x, i)
    &&& kv.pool->0.token_row(blocks, i, l, true) == value(b, w, l, x)
}

/// The KV cache counts `n` tokens of a sequence, without a gap, in blocks that its pool has,
/// and the pool keeps rows of the model's width for all its layers, exactly.
pub open spec fn pages_ready(w: WeightsState, n: int, kv: KvState, seq: u64) -> bool {
    &&& kv.wf()
    &&& kv.tables.contains_key(seq)
    &&& kv.tables[seq].total_tokens == n
    &&& kv.packed(seq)
    &&& kv.reached(seq)
    &&& kv.block_size > 0
    &&& kv.pool is Some
    &&& kv.pool->0.config.dtype == KvDType::Fp32
    &&& kv.pool->0.config.block_size == kv.block_size
    &&& kv.pool->0.kv_dim() == w.config.num_kv_heads * w.config.head_dim
    &&& w.layers.len() <= kv.pool->0.layout.num_layers
}

/// The pages of a sequence hold, in every layer, the keys and values of the first `n` tokens of
/// a text.
pub open spec fn pages_hold<T: TensorBackend>(
    b: T,
    w: WeightsState,
    text: Seq<u32>,
    n: int,
    kv: KvState,
    seq: u64,
) -> bool {
    &&& pages_ready(w, n, kv, seq)
    &&& forall|l: int, i: int|
        0 <= l < w.layers.len() && 0 <= i < n ==> #[trigger] row_is_of_text(
            b,
            w,
            text,
            kv,
            seq,
            l,
            i,
        )
}

/// Pages that hold a text hold every text that goes on from it.
pub proof fn law_pages_hold_on<T: TensorBackend>(
    b: T,
    w: WeightsState,
    text: Seq<u32>,
    more: Seq<u32>,
    n: int,
    kv: KvState,
    seq: u64,
)
    requires
        0 <= n <= text.len(),
        text.is_prefix_of(more),
        pages_hold(b, w, text, n, kv, seq),
    ensures
        pages_hold(b, w, more, n, kv, seq),
{
    assert forall|l: int, i: int|
        0 <= l < w.layers.len() && 0 <= i < n implies #[trigger] row_is_of_text(
        b,
        w,
        more,
        kv,
        seq,
        l,
        i,
    ) by {
        assert(row_is_of_text(b, w, text, kv, seq, l, i));
        law_later_tokens_do_not_matter(b, w, text, more, l, i);
    }
}

/// Rows that are those of a text gather to its keys and values.
proof fn lemma_gathers_text<T: TensorBackend>(
    b: T,
    w: WeightsState,
    text: Seq<u32>,
    kv: KvState,
    seq: u64,
    l: int,
    n: int,
)
    requires
        0 <= n,
        forall|i: int| 0 <= i < n ==> #[trigger] row_is_of_text(b, w, text, kv, seq, l, i),
    ensures
        kv.pool->0.gathered(kv.tables[seq].block_ids, n, l, false) == flat(
            keys(b, w, l, rows_of_text(b, w, text, l), n),
        ),
        kv.pool->0.gathered(kv.tables[seq].block_ids, n, l, true) == flat(
            values(b, w, l, rows_of_text(b, w, text, l), n),
        ),
    decreases n,
{
    let x = rows_of_text(b, w, text, l);
    if n > 0 {
        lemma_gathers_text(b, w, text, kv, seq, l, n - 1);
        assert(row_is_of_text(b, w, text, kv, seq, l, n - 1));
        let k = key(b, w, l, x[n - 1], n - 1);
        let v = value(b, w, l, x[n - 1]);
        assert(keys(b, w, l, x, n) =~= keys(b, w, l, x, n - 1).push(k));
        assert(values(b, w, l, x, n) =~= values(b, w, l, x, n - 1).push(v));
        lemma_flat_push(keys(b, w, l, x, n - 1), k);
        lemma_flat_push(values(b, w, l, x, n - 1), v);
    } else {
        assert(keys(b, w, l, x, 0) =~= Seq::<Seq<u32>>::empty());
        assert(values(b, w, l, x, 0) =~= Seq::<Seq<u32>>::empty());
    }
}

/// Writing the rows of token `t` in a layer: they read back, and no other row of the sequence
/// changes.
pub proof fn lemma_writes_row(
    w: WeightsState,
    n: int,
    kv: KvState,
    seq: u64,
    l: int,
    t: int,
    place: (usize, usize),
    k: Seq<u32>,
    v: Seq<u32>,
)
    requires
        pages_ready(w, n, kv, seq),
        0 <= l < w.layers.len(),
        0 <= t < n,
        place.0 == kv.tables[seq].block_ids[t / kv.block_size as int],
        place.1 == t % kv.block_size as int,
        k.len() == w.config.num_kv_heads * w.config.head_dim,
        v.len() == w.config.num_kv_heads * w.config.head_dim,
    ensures
        ({
            let after = kv.write_slot(place, l, k, v);
            let blocks = kv.tables[seq].block_ids;
            &&& pages_ready(w, n, after, seq)
            &&& after.tables == kv.tables
            &&& after.pool->0.token_row(blocks, t, l, false) == k
            &&& after.pool->0.token_row(blocks, t, l, true) == v
            &&& forall|j: int, i: int, is_value: bool|
                0 <= j < w.layers.len() && 0 <= i < n && (j != l || i != t)
                    ==> #[trigger] after.pool->0.token_row(blocks, i, j, is_value)
                    == kv.pool->0.token_row(blocks, i, j, is_value)
        }),
{
    let bs = kv.block_size as int;
    let pool = kv.pool->0;
    let blocks = kv.tables[seq].block_ids;
    let after = kv.write_slot(place, l, k, v);
    let done = pool.write_token(place.0 as int, l, place.1 as int, k, v);
    kv.lemma_with_pool_wf(done);
    kv.lemma_counted_token(seq, t);
    assert(kv.reaches_token(seq, t));
    kv.lemma_reached_frame(after, seq);
    pool.law_read_after_write(place.0 as int, l, place.1 as int, k, v);
    assert(k.map_values(|e: u32| as_stored(pool.config.dtype, e)) =~= k);
    assert(v.map_values(|e: u32| as_stored(pool.config.dtype, e)) =~= v);
    assert(kv.table_wf(seq, kv.tables[seq]));
    assert forall|j: int, i: int, is_value: bool|
        0 <= j < w.layers.len() && 0 <= i < n && (j != l || i != t) implies
        #[trigger] after.pool->0.token_row(blocks, i, j, is_value) == pool.token_row(
        blocks,
        i,
        j,
        is_value,
    ) by {
        kv.lemma_counted_token(seq, i);
        assert(kv.reaches_token(seq, i));
        if i != t {
            if i / bs == t / bs {
                vstd::arithmetic::div_mod::lemma_fundamental_div_mod(i, bs);
                vstd::arithmetic::div_mod::lemma_fundamental_div_mod(t, bs);
            } else {
                assert(blocks[i / bs] != blocks[t / bs]);
            }
        }
        pool.law_write_keeps_other_rows(
            place.0 as int,
            l,
            place.1 as int,
            k,
            v,
            blocks[i / bs] as int,
            j,
            is_value,
            i % bs,
        );
    }
}

/// After the first layers of the pass of token `t`: those have its rows too, the others those
/// of the tokens before it.
pub open spec fn pages_half_hold<T: TensorBackend>(
    b: T,
    w: WeightsState,
    text: Seq<u32>,
    t: int,
    done: int,
    kv: KvState,
    seq: u64,
) -> bool {
    &&& pages_ready(w, t + 1, kv, seq)
    &&& forall|l: int, i: int|
        0 <= l < w.layers.len() && 0 <= i < t + 1 && (l < done || i < t)
            ==> #[trigger] row_is_of_text(b, w, text, kv, seq, l, i)
}

/// Attention over pages that hold the tokens up to `t`.
pub proof fn lemma_attends_text<T: TensorBackend>(
    b: T,
    w: WeightsState,
    text: Seq<u32>,
    t: int,
    l: int,
    kv: KvState,
    seq: u64,
    q: Seq<u32>,
    heads: HeadShape,
)
    requires
        reads_pages(b),
        0 <= t < usize::MAX,
        0 <= l < w.layers.len(),
        pages_ready(w, t + 1, kv, seq),
        forall|i: int| 0 <= i < t + 1 ==> #[trigger] row_is_of_text(b, w, text, kv, seq, l, i),
    ensures
        b.page_attended(
            q,
            kv.pool->0,
            kv.tables[seq].block_ids,
            kv.tables[seq].total_tokens,
            l as usize,
            heads,
        ) == b.attended(
            q,
            flat(keys(b, w, l, rows_of_text(b, w, text, l), t + 1)),
            flat(values(b, w, l, rows_of_text(b, w, text, l), t + 1)),
            (t + 1) as usize,
            heads,
        ),
{
    let blocks = kv.tables[seq].block_ids;
    let pool = kv.pool->0;
    assert(attendable(pool, blocks, (t + 1) as usize, l)) by {
        assert forall|i: int| 0 <= i < t + 1 implies {
            &&& 0 <= #[trigger] block_of(pool, i) < blocks.len()
            &&& blocks[block_of(pool, i)] < pool.layout.num_blocks
        } by {
            kv.lemma_counted_token(seq, i);
            assert(kv.reaches_token(seq, i));
        }
    }
    lemma_gathers_text(b, w, text, kv, seq, l, t + 1);
}

proof fn lemma_paged_layer<T: TensorBackend>(
    b: T,
    w: WeightsState,
    text: Seq<u32>,
    t: int,
    l: int,
    place: (usize, usize),
    seq: u64,
    s: PassState,
)
    requires
        keeps_sizes(b),
        reads_pages(b),
        w.config.widths_fit(),
        0 <= t < text.len() <= usize::MAX,
        0 <= l < w.layers.len(),
        s.x == rows_of_text(b, w, text, l)[t],
        s.kv is Some,
        pages_half_hold(b, w, text, t, l, s.kv->0, seq),
        place.0 == s.kv->0.tables[seq].block_ids[t / s.kv->0.block_size as int],
        place.1 == t % s.kv->0.block_size as int,
    ensures
        ({
            let next = through_layer(b, w, l, t as usize, Some(place), seq, s);
            &&& next.x == rows_of_text(b, w, text, l + 1)[t]
            &&& next.kv is Some
            &&& pages_half_hold(b, w, text, t, l + 1, next.kv->0, seq)
            &&& next.kv->0.tables == s.kv->0.tables
            &&& next.kv->0.block_size == s.kv->0.block_size
            &&& next.layers == s.layers
        }),
{
    lemma_widths(w);
    let kv = s.kv->0;
    let (q, k, v) = qkv(b, w, l, t as usize, s.x);
    let after = kv.write_slot(place, l, k, v);
    lemma_writes_row(w, t + 1, kv, seq, l, t, place, k, v);
    let blocks = kv.tables[seq].block_ids;
    assert forall|j: int, i: int|
        0 <= j < w.layers.len() && 0 <= i < t + 1 && (j < l + 1 || i < t) implies
        #[trigger] row_is_of_text(b, w, text, after, seq, j, i) by {
        if j != l || i != t {
            assert(row_is_of_text(b, w, text, kv, seq, j, i));
            assert(after.pool->0.token_row(blocks, i, j, false) == kv.pool->0.token_row(
                blocks,
                i,
                j,
                false,
            ));
            assert(after.pool->0.token_row(blocks, i, j, true) == kv.pool->0.token_row(
                blocks,
                i,
                j,
                true,
            ));
        }
    }
    lemma_attends_text(b, w, text, t, l, after, seq, q, w.config.heads());
}

proof fn lemma_paged_layers<T: TensorBackend>(
    b: T,
    w: WeightsState,
    text: Seq<u32>,
    t: int,
    n: int,
    place: (usize, usize),
    seq: u64,
    s: PassState,
)
    requires
        keeps_sizes(b),
        reads_pages(b),
        w.config.widths_fit(),
        0 <= t < text.len() <= usize::MAX,
        0 <= n <= w.layers.len(),
        s.x == rows_of_text(b, w, text, 0)[t],
        s.kv is Some,
        pages_half_hold(b, w, text, t, 0, s.kv->0, seq),
        place.0 == s.kv->0.tables[seq].block_ids[t / s.kv->0.block_size as int],
        place.1 == t % s.kv->0.block_size as int,
    ensures
        ({
            let done = through_layers(b, w, n, t as usize, Some(place), seq, s);
            &&& done.x == rows_of_text(b, w, text, n)[t]
            &&& done.kv is Some
            &&& pages_half_hold(b, w, text, t, n, done.kv->0, seq)
            &&& done.kv->0.tables == s.kv->0.tables
            &&& done.kv->0.block_size == s.kv->0.block_size
            &&& done.layers == s.layers
        }),
    decreases n,
{
    if n > 0 {
        lemma_paged_layers(b, w, text, t, n - 1, place, seq, s);
        lemma_paged_layer(
            b,
            w,
            text,
            t,
            n - 1,
            place,
            seq,
            through_layers(b, w, n - 1, t as usize, Some(place), seq, s),
        );
    }
}

/// A further slot for a sequence whose pages hold the tokens before it.
pub proof fn lemma_slot_for_text<T: TensorBackend>(
    b: T,
    w: WeightsState,
    text: Seq<u32>,
    t: int,
    kv: KvState,
    seq: u64,
)
    requires
        0 <= t < usize::MAX,
        pages_hold(b, w, text, t, kv, seq),
        kv.append_possible(seq),
        kv.append_fits(seq),
    ensures
        pages_half_hold(b, w, text, t, 0, kv.append(seq), seq),
        kv.append_slot(seq).0 == kv.append(seq).tables[seq].block_ids[t / kv.block_size as int],
        kv.append_slot(seq).1 == t % kv.block_size as int,
{
    let after = kv.append(seq);
    let bs = kv.block_size as int;
    let ids = kv.tables[seq].block_ids;
    let ids2 = after.tables[seq].block_ids;
    kv.lemma_append_wf(seq);
    kv.law_append_packs(seq);
    kv.lemma_append_reached(seq);
    if kv.append_takes_block(seq) {
        kv.lemma_take_block_wf();
    }
    assert forall|l: int, i: int| 0 <= l < w.layers.len() && 0 <= i < t + 1 && i < t implies
        #[trigger] row_is_of_text(b, w, text, after, seq, l, i) by {
        assert(row_is_of_text(b, w, text, kv, seq, l, i));
        kv.lemma_counted_token(seq, i);
        assert(kv.reaches_token(seq, i));
        assert(ids.contains(ids[i / bs]));
        kv.lemma_append_rows(seq, ids[i / bs] as int, l, false, i % bs);
        kv.lemma_append_rows(seq, ids[i / bs] as int, l, true, i % bs);
        if kv.append_copies(seq) && i / bs == ids.len() - 1 {
            assert(ids2[i / bs] == kv.next_free());
        } else {
            assert(ids2[i / bs] == ids[i / bs]);
        }
    }
}

/// A token's pass over the pages of its sequence gives what the whole text up to that token
/// gives, and leaves pages that hold the text up to and with it. The sequence's own caches are
/// not touched.
pub proof fn law_paged_pass_reads_text<T: TensorBackend>(
    b: T,
    w: WeightsState,
    text: Seq<u32>,
    t: int,
    seq: u64,
    kv: KvState,
    layers: Seq<CacheState>,
)
    requires
        keeps_sizes(b),
        reads_pages(b),
        w.config.widths_fit(),
        0 <= t < text.len() <= usize::MAX,
        pages_hold(b, w, text, t, kv, seq),
        kv.append_possible(seq),
        kv.append_fits(seq),
    ensures
        ({
            let done = token_pass(b, w, text[t], t as usize, seq, Some(kv), layers);
            &&& done.x == rows_of_text(b, w, text, w.layers.len() as int)[t]
            &&& done.kv is Some
            &&& pages_hold(b, w, text, t + 1, done.kv->0, seq)
            &&& done.layers == layers
        }),
{
    lemma_slot_for_text(b, w, text, t, kv, seq);
    let start = PassState {
        x: w.embedding(text[t]),
        attn: zeros(w.config.q_dim()),
        kv: Some(kv.append(seq)),
        layers,
    };
    assert(start.x =~= rows_of_text(b, w, text, 0)[t]);
    lemma_paged_layers(
        b,
        w,
        text,
        t,
        w.layers.len() as int,
        kv.append_slot(seq),
        seq,
        start,
    );
}

// ---- Prompts ----
/// Where the rows of a prompt go makes no difference to them.
proof fn lemma_prompt_without_pages<T: TensorBackend>(
    b: T,
    w: WeightsState,
    n: int,
    table: Option<Seq<usize>>,
    s: PromptState,
)
    ensures
        prompt_layers(b, w, n, table, s).rows == prompt_layers(
            b,
            w,
            n,
            None,
            PromptState { kv: None, ..s },
        ).rows,
        prompt_layers(b, w, n, table, s).layers == prompt_layers(
            b,
            w,
            n,
            None,
            PromptState { kv: None, ..s },
        ).layers,
    decreases n,
{
    if n > 0 {
        lemma_prompt_without_pages(b, w, n - 1, table, s);
    }
}

/// The rows of a prompt after some layers are those of the text.
proof fn lemma_prompt_is_text<T: TensorBackend>(
    b: T,
    w: WeightsState,
    prompt: Seq<u32>,
    layers: Seq<CacheState>,
    l: int,
)
    requires
        keeps_sizes(b),
        row_by_row(b),
        reads_counted_rows(b),
        w.takes_all(prompt),
        0 < prompt.len() <= usize::MAX,
        layers.len() >= w.layers.len(),
        forall|i: int| 0 <= i < w.layers.len() ==> #[trigger] layers[i] == CacheState::empty(),
        0 <= l <= w.layers.len(),
    ensures
        ({
            let start = PromptState { rows: embeddings(w, prompt), kv: None, layers };
            let rows = prompt_layers(b, w, l, None, start).rows;
            &&& rows == rows_of_text(b, w, prompt, l)
            &&& rows_of_width(rows, w.config.hidden())
        }),
{
    let start = PromptState { rows: embeddings(w, prompt), kv: None, layers };
    let rows = prompt_layers(b, w, l, None, start).rows;
    law_empty_caches_hold_nothing(b, w, prompt, layers);
    lemma_rows_in_step(b, w, prompt, 0, layers, l, 0);
    assert forall|t: int| 0 <= t < prompt.len() implies #[trigger] rows[t] == rows_of_text(
        b,
        w,
        prompt,
        l,
    )[t] by {
        lemma_rows_in_step(b, w, prompt, 0, layers, l, t);
        lemma_one_by_one_reads_text(b, w, prompt, 0, layers, t);
        let first = PassState {
            x: w.embedding(prompt[t]),
            attn: zeros(w.config.q_dim()),
            kv: None,
            layers: one_by_one(b, w, prompt, 0, layers, t).layers,
        };
        assert(first.x =~= rows_of_text(b, w, prompt, 0)[t]);
        lemma_layers_read_text(b, w, prompt, t, l, 0, first);
    }
    assert(rows =~= rows_of_text(b, w, prompt, l));
}

/// Writing the first `m` rows of a prompt in a layer.
proof fn lemma_writes_rows(
    w: WeightsState,
    n: int,
    kv: KvState,
    seq: u64,
    l: int,
    k: Seq<Seq<u32>>,
    v: Seq<Seq<u32>>,
    m: int,
)
    requires
        pages_ready(w, n, kv, seq),
        kv.block_size == w.config.block_size,
        0 <= l < w.layers.len(),
        0 <= m <= n,
        k.len() == n,
        v.len() == n,
        rows_of_width(k, w.config.num_kv_heads * w.config.head_dim),
        rows_of_width(v, w.config.num_kv_heads * w.config.head_dim),
    ensures
        ({
            let blocks = kv.tables[seq].block_ids;
            let after = write_rows(kv, blocks, w.config.block_size, l, k, v, m);
            &&& pages_ready(w, n, after, seq)
            &&& after.tables == kv.tables
            &&& after.block_size == kv.block_size
            &&& forall|i: int|
                #![trigger k[i]]
                #![trigger v[i]]
                0 <= i < m ==> {
                    &&& after.pool->0.token_row(blocks, i, l, false) == k[i]
                    &&& after.pool->0.token_row(blocks, i, l, true) == v[i]
                }
            &&& forall|j: int, i: int, is_value: bool|
                0 <= j < w.layers.len() && 0 <= i < n && j != l
                    ==> #[trigger] after.pool->0.token_row(blocks, i, j, is_value)
                    == kv.pool->0.token_row(blocks, i, j, is_value)
        }),
    decreases m,
{
    if m > 0 {
        lemma_writes_rows(w, n, kv, seq, l, k, v, m - 1);
        let blocks = kv.tables[seq].block_ids;
        let before = write_rows(kv, blocks, w.config.block_size, l, k, v, m - 1);
        let after = write_rows(kv, blocks, w.config.block_size, l, k, v, m);
        let place = place_of(blocks, w.config.block_size, m - 1);
        before.lemma_counted_token(seq, m - 1);
        lemma_writes_row(w, n, before, seq, l, m - 1, place, k[m - 1], v[m - 1]);
        assert forall|i: int|
            #![trigger k[i]]
            #![trigger v[i]]
            0 <= i < m implies {
            &&& after.pool->0.token_row(blocks, i, l, false) == k[i]
            &&& after.pool->0.token_row(blocks, i, l, true) == v[i]
        } by {
            if i < m - 1 {
                assert(k[i] == before.pool->0.token_row(blocks, i, l, false));
                assert(after.pool->0.token_row(blocks, i, l, false)
                    == before.pool->0.token_row(blocks, i, l, false));
                assert(after.pool->0.token_row(blocks, i, l, true)
                    == before.pool->0.token_row(blocks, i, l, true));
            }
        }
        assert forall|j: int, i: int, is_value: bool|
            0 <= j < w.layers.len() && 0 <= i < n && j != l implies
            #[trigger] after.pool->0.token_row(blocks, i, j, is_value)
            == kv.pool->0.token_row(blocks, i, j, is_value) by {
            assert(before.pool->0.token_row(blocks, i, j, is_value) == kv.pool->0.token_row(
                blocks,
                i,
                j,
                is_value,
            ));
        }
    }
}

/// After the first `l` layers of a prompt, the pages hold its rows in those.
proof fn lemma_prompt_fills_pages<T: TensorBackend>(
    b: T,
    w: WeightsState,
    prompt: Seq<u32>,
    layers: Seq<CacheState>,
    kv: KvState,
    seq: u64,
    l: int,
)
    requires
        keeps_sizes(b),
        row_by_row(b),
        reads_counted_rows(b),
        w.takes_all(prompt),
        0 < prompt.len() <= usize::MAX,
        layers.len() >= w.layers.len(),
        forall|i: int| 0 <= i < w.layers.len() ==> #[trigger] layers[i] == CacheState::empty(),
        pages_ready(w, prompt.len() as int, kv, seq),
        kv.block_size == w.config.block_size,
        0 <= l <= w.layers.len(),
    ensures
        ({
            let start = PromptState { rows: embeddings(w, prompt), kv: Some(kv), layers };
            let done = prompt_layers(b, w, l, Some(kv.tables[seq].block_ids), start);
            &&& done.kv is Some
            &&& done.kv->0.tables == kv.tables
            &&& done.kv->0.block_size == kv.block_size
            &&& pages_ready(w, prompt.len() as int, done.kv->0, seq)
            &&& forall|j: int, i: int|
                0 <= j < l && 0 <= i < prompt.len() ==> #[trigger] row_is_of_text(
                    b,
                    w,
                    prompt,
                    done.kv->0,
                    seq,
                    j,
                    i,
                )
        }),
    decreases l,
{
    if l > 0 {
        lemma_widths(w);
        lemma_prompt_fills_pages(b, w, prompt, layers, kv, seq, l - 1);
        let n = prompt.len();
        let blocks = kv.tables[seq].block_ids;
        let start = PromptState { rows: embeddings(w, prompt), kv: Some(kv), layers };
        let before = prompt_layers(b, w, l - 1, Some(blocks), start);
        lemma_prompt_without_pages(b, w, l - 1, Some(blocks), start);
        lemma_prompt_is_text(b, w, prompt, layers, l - 1);
        let x = rows_of_text(b, w, prompt, l - 1);
        assert(before.rows == x);
        let (q, k, v) = qkv_rows(b, w, l - 1, x, counted(n));
        assert forall|i: int| 0 <= i < n implies (#[trigger] k[i]).len() == w.config.kv_dim() by {
            lemma_qkv_row(b, w, l - 1, x, counted(n), i);
        }
        assert forall|i: int| 0 <= i < n implies (#[trigger] v[i]).len() == w.config.kv_dim() by {
            lemma_qkv_row(b, w, l - 1, x, counted(n), i);
        }
        lemma_writes_rows(w, n as int, before.kv->0, seq, l - 1, k, v, n as int);
        let done = prompt_layers(b, w, l, Some(blocks), start);
        let after = done.kv->0;
        assert(done == prompt_layer(b, w, l - 1, Some(blocks), before));
        assert(after == write_rows(
            before.kv->0,
            blocks,
            w.config.block_size,
            l - 1,
            k,
            v,
            n as int,
        ));
        assert forall|j: int, i: int| 0 <= j < l && 0 <= i < n implies
            #[trigger] row_is_of_text(b, w, prompt, after, seq, j, i) by {
            if j == l - 1 {
                lemma_qkv_row(b, w, l - 1, x, counted(n), i);
                assert(k[i] == key(b, w, j, x[i], i));
                assert(v[i] == value(b, w, j, x[i]));
            } else {
                assert(row_is_of_text(b, w, prompt, before.kv->0, seq, j, i));
                assert(after.pool->0.token_row(blocks, i, j, false)
                    == before.kv->0.pool->0.token_row(blocks, i, j, false));
                assert(after.pool->0.token_row(blocks, i, j, true)
                    == before.kv->0.pool->0.token_row(blocks, i, j, true));
            }
        }
    }
}

/// Prefilling a prompt of several tokens into the blocks that were counted for it gives the
/// hidden state that the prompt ends with, and pages that hold the prompt.
pub proof fn law_paged_prefill_reads_text<T: TensorBackend>(
    b: T,
    w: WeightsState,
    prompt: Seq<u32>,
    seq: u64,
    kv: KvState,
    s: TokensState,
)
    requires
        keeps_sizes(b),
        row_by_row(b),
        reads_counted_rows(b),
        w.takes_all(prompt),
        2 <= prompt.len() <= usize::MAX,
        s.layers.len() >= w.layers.len(),
        forall|i: int| 0 <= i < w.layers.len() ==> #[trigger] s.layers[i] == CacheState::empty(),
        pages_ready(w, prompt.len() as int, kv, seq),
        kv.block_size == w.config.block_size,
    ensures
        ({
            let done = prefill_pass(b, w, prompt, seq, Some(kv), s);
            &&& done.hidden == meaning(b, w, prompt)
            &&& done.kv is Some
            &&& pages_hold(b, w, prompt, prompt.len() as int, done.kv->0, seq)
            &&& done.kv->0.tables == kv.tables
            &&& done.seq.tokens == s.tokens + prompt
            &&& done.seq.layers.len() == 0
        }),
{
    let n = w.layers.len() as int;
    let blocks = kv.tables[seq].block_ids;
    let start = PromptState { rows: embeddings(w, prompt), kv: Some(kv), layers: s.layers };
    lemma_prompt_fills_pages(b, w, prompt, s.layers, kv, seq, n);
    lemma_prompt_without_pages(b, w, n, Some(blocks), start);
    lemma_prompt_is_text(b, w, prompt, s.layers, n);
    assert(table_for(Some(kv), seq) == Some(blocks));
}

} // verus!
