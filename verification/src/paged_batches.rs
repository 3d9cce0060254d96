//! That decoding sequences together over the pages of a KV cache gives each of them what its
//! own text gives.

use crate::agreement::{lemma_projected, lemma_qkv_row, rows_of_width};
use crate::batching::{
    lemma_batch_mlp_row, lemma_flat_row, lemma_logits_row, lemma_opened, lemma_sampled,
    lemma_widths, works_row_by_row,
};
use crate::decode::{
    batch_layer, batch_layers, decode_fits, decode_pass, greedy_all, last_tokens, lemma_entry,
    lemma_padded_len, lemma_widest_is_most, lens_of, normed_flat, output_for,
    padded_all, positions, reserve_all, slots, tables_of, widest, write_slots, DecodeState,
};
use crate::kv_state::KvState;
use crate::model::{key, rows_of_text, value};
use crate::paging::{
    lemma_attends_text, lemma_slot_for_text, lemma_writes_row, pages_half_hold, pages_hold,
    pages_ready, reads_pages, row_is_of_text,
};
use crate::pool::PoolState;
use crate::prefill::{embeddings, qkv_rows, split_rows};
use crate::tensor::{
    all_attendable, block_of, flat, lemma_flat_len, lemma_row_in, row_of, HeadShape,
    TensorBackend,
};
use crate::weights::{TokensState, WeightsState};
use crate::writing::{answer, likeliest};
use vstd::prelude::*;

verus! {

/// A table stands at place `i` among tables of `max_blocks` entries each.
pub open spec fn stands_at(tables: Seq<i32>, max_blocks: usize, i: int, blocks: Seq<usize>) -> bool {
    &&& blocks.len() <= max_blocks
    &&& forall|j: int|
        0 <= j < blocks.len() ==> tables[i * max_blocks + j] == (#[trigger] blocks[j]) as int
}

/// Attention of several rows over pages is, row by row, attention of each over its own table.
pub open spec fn reads_pages_row_by_row<T: TensorBackend>(b: T) -> bool {
    &&& forall|
        q: Seq<u32>,
        pool: PoolState,
        tables: Seq<i32>,
        lens: Seq<i32>,
        max_blocks: usize,
        layer: usize,
        heads: HeadShape,
    |
        (#[trigger] b.batch_page_attended(q, pool, tables, lens, max_blocks, layer, heads)).len()
            == q.len()
    &&& forall|
        q: Seq<Seq<u32>>,
        pool: PoolState,
        tables: Seq<i32>,
        lens: Seq<i32>,
        max_blocks: usize,
        layer: usize,
        heads: HeadShape,
        i: int,
        blocks: Seq<usize>,
        total: usize,
    |
        #![trigger
            row_of(
                b.batch_page_attended(flat(q), pool, tables, lens, max_blocks, layer, heads),
                i,
                heads.num_heads * heads.head_dim,
            ),
            b.page_attended(q[i], pool, blocks, total, layer, heads)]
        {
            &&& rows_of_width(q, heads.num_heads * heads.head_dim)
            &&& q.len() == lens.len()
            &&& all_attendable(pool, tables, lens, max_blocks, layer as int)
            &&& 0 <= i < q.len()
            &&& lens[i] == total as int
            &&& stands_at(tables, max_blocks, i, blocks)
        } ==> row_of(
            b.batch_page_attended(flat(q), pool, tables, lens, max_blocks, layer, heads),
            i,
            heads.num_heads * heads.head_dim,
        ) == b.page_attended(q[i], pool, blocks, total, layer, heads)
}

/// Where the slot of token `t` of a sequence is.
pub open spec fn is_place(kv: KvState, seq: u64, t: int, place: (usize, usize)) -> bool {
    &&& place.0 == kv.tables[seq].block_ids[t / kv.block_size as int]
    &&& place.1 == t % kv.block_size as int
}

/// A further token of one sequence leaves another as it was.
proof fn lemma_append_frame(w: WeightsState, n: int, kv: KvState, seq: u64, other: u64)
    requires
        pages_ready(w, n, kv, other),
        other != seq,
        kv.append_possible(seq),
        kv.append_fits(seq),
    ensures
        pages_ready(w, n, kv.append(seq), other),
        kv.append(seq).tables[other] == kv.tables[other],
        forall|l: int, i: int, is_value: bool|
            0 <= l < w.layers.len() && 0 <= i < n ==> #[trigger] kv.append(seq).pool->0.token_row(
                kv.tables[other].block_ids,
                i,
                l,
                is_value,
            ) == kv.pool->0.token_row(kv.tables[other].block_ids, i, l, is_value),
{
    let after = kv.append(seq);
    let ids = kv.tables[other].block_ids;
    let bs = kv.block_size as int;
    kv.lemma_append_wf(seq);
    if kv.append_takes_block(seq) {
        kv.lemma_take_block_wf();
    }
    kv.lemma_reached_frame(after, other);
    assert(after.packed(other)) by {
        assert(kv.table_wf(other, kv.tables[other]));
        assert(after.tables.contains_key(other));
        assert(after.table_wf(other, after.tables[other]));
        if ids.len() > 0 {
            let last = ids.last();
            assert(ids[ids.len() - 1] == last);
            kv.lemma_held_is_counted(other, ids.len() - 1);
            assert(ids.contains(last));
            let own = kv.tables[seq].block_ids;
            if own.len() > 0 && own.last() == last {
                assert(own[own.len() - 1] == last);
                assert(own.contains(last));
                kv.lemma_two_holders_share(seq, other, last);
            }
            if kv.append_takes_block(seq) {
                assert(kv.free[kv.free.len() - 1] == kv.next_free());
                assert(kv.free.contains(kv.next_free()));
            }
            assert(after.blocks[last as int].num_tokens == kv.blocks[last as int].num_tokens);
        }
    }
    assert forall|l: int, i: int, is_value: bool| 0 <= l < w.layers.len() && 0 <= i < n implies
        #[trigger] after.pool->0.token_row(ids, i, l, is_value) == kv.pool->0.token_row(
        ids,
        i,
        l,
        is_value,
    ) by {
        kv.lemma_counted_token(other, i);
        assert(kv.reaches_token(other, i));
        assert(ids.contains(ids[i / bs]));
        kv.lemma_held_is_counted(other, i / bs);
        if kv.append_takes_block(seq) {
            assert(kv.free[kv.free.len() - 1] == kv.next_free());
            assert(kv.free.contains(kv.next_free()));
        }
        kv.lemma_append_rows(seq, ids[i / bs] as int, l, is_value, i % bs);
    }
}

/// The blocks of a sequence after a further token are those before, or one that was free.
proof fn lemma_appended_blocks(kv: KvState, seq: u64, block: usize)
    requires
        kv.wf(),
        kv.append_possible(seq),
        kv.append(seq).tables[seq].block_ids.contains(block),
    ensures
        kv.tables[seq].block_ids.contains(block) || kv.free.contains(block),
{
    let before = kv.tables[seq].block_ids;
    let after = kv.append(seq).tables[seq].block_ids;
    let i = choose|i: int| 0 <= i < after.len() && after[i] == block;
    if kv.append_takes_block(seq) && i == after.len() - 1 {
        assert(kv.free[kv.free.len() - 1] == block);
    } else {
        assert(before[i] == block);
    }
}

/// Rows that go to a block that a sequence does not hold leave its rows as they were.
proof fn lemma_write_frame(
    w: WeightsState,
    n: int,
    kv: KvState,
    other: u64,
    place: (usize, usize),
    l: int,
    k: Seq<u32>,
    v: Seq<u32>,
)
    requires
        pages_ready(w, n, kv, other),
        !kv.tables[other].block_ids.contains(place.0),
        kv.pool_reaches(place.0 as int),
        place.1 < kv.block_size,
        0 <= l < w.layers.len(),
        k.len() == w.config.num_kv_heads * w.config.head_dim,
        v.len() == w.config.num_kv_heads * w.config.head_dim,
    ensures
        pages_ready(w, n, kv.write_slot(place, l, k, v), other),
        kv.write_slot(place, l, k, v).tables == kv.tables,
        forall|j: int, i: int, is_value: bool|
            0 <= j < w.layers.len() && 0 <= i < n ==> #[trigger] kv.write_slot(
                place,
                l,
                k,
                v,
            ).pool->0.token_row(kv.tables[other].block_ids, i, j, is_value)
                == kv.pool->0.token_row(kv.tables[other].block_ids, i, j, is_value),
{
    let bs = kv.block_size as int;
    let pool = kv.pool->0;
    let ids = kv.tables[other].block_ids;
    let done = pool.write_token(place.0 as int, l, place.1 as int, k, v);
    let after = kv.write_slot(place, l, k, v);
    kv.lemma_with_pool_wf(done);
    kv.lemma_reached_frame(after, other);
    assert forall|j: int, i: int, is_value: bool|
        0 <= j < w.layers.len() && 0 <= i < n implies #[trigger] after.pool->0.token_row(
        ids,
        i,
        j,
        is_value,
    ) == pool.token_row(ids, i, j, is_value) by {
        kv.lemma_counted_token(other, i);
        assert(kv.reaches_token(other, i));
        assert(ids.contains(ids[i / bs]));
        pool.law_write_keeps_other_rows(
            place.0 as int,
            l,
            place.1 as int,
            k,
            v,
            ids[i / bs] as int,
            j,
            is_value,
            i % bs,
        );
    }
}

/// What a sequence has half of, it still has where its table and rows are the same.
proof fn lemma_half_hold_frame<T: TensorBackend>(
    b: T,
    w: WeightsState,
    text: Seq<u32>,
    t: int,
    done: int,
    kv: KvState,
    after: KvState,
    seq: u64,
)
    requires
        pages_half_hold(b, w, text, t, done, kv, seq),
        pages_ready(w, t + 1, after, seq),
        after.tables[seq] == kv.tables[seq],
        forall|l: int, i: int, is_value: bool|
            0 <= l < w.layers.len() && 0 <= i < t + 1 ==> #[trigger] after.pool->0.token_row(
                kv.tables[seq].block_ids,
                i,
                l,
                is_value,
            ) == kv.pool->0.token_row(kv.tables[seq].block_ids, i, l, is_value),
    ensures
        pages_half_hold(b, w, text, t, done, after, seq),
{
    let ids = kv.tables[seq].block_ids;
    assert forall|l: int, i: int|
        0 <= l < w.layers.len() && 0 <= i < t + 1 && (l < done || i < t) implies
        #[trigger] row_is_of_text(b, w, text, after, seq, l, i) by {
        assert(row_is_of_text(b, w, text, kv, seq, l, i));
        assert(after.pool->0.token_row(ids, i, l, false) == kv.pool->0.token_row(ids, i, l, false));
        assert(after.pool->0.token_row(ids, i, l, true) == kv.pool->0.token_row(ids, i, l, true));
    }
}

/// A further token, and its rows, of one sequence leave the pages of another holding what they
/// held.
pub proof fn law_others_keep_their_text<T: TensorBackend>(
    b: T,
    w: WeightsState,
    text: Seq<u32>,
    n: int,
    kv: KvState,
    seq: u64,
    other: u64,
)
    requires
        pages_hold(b, w, text, n, kv, other),
        other != seq,
        kv.append_possible(seq),
        kv.append_fits(seq),
    ensures
        pages_hold(b, w, text, n, kv.append(seq), other),
{
    lemma_append_frame(w, n, kv, seq, other);
    let ids = kv.tables[other].block_ids;
    let after = kv.append(seq);
    assert forall|l: int, i: int| 0 <= l < w.layers.len() && 0 <= i < n implies
        #[trigger] row_is_of_text(b, w, text, after, other, l, i) by {
        assert(row_is_of_text(b, w, text, kv, other, l, i));
        assert(after.pool->0.token_row(ids, i, l, false) == kv.pool->0.token_row(ids, i, l, false));
        assert(after.pool->0.token_row(ids, i, l, true) == kv.pool->0.token_row(ids, i, l, true));
    }
}

/// A branch holds what its parent holds, and the parent still holds it.
pub proof fn law_branch_holds_text<T: TensorBackend>(
    b: T,
    w: WeightsState,
    text: Seq<u32>,
    n: int,
    kv: KvState,
    parent: u64,
    child: u64,
)
    requires
        pages_hold(b, w, text, n, kv, parent),
        kv.fork(parent, child).wf(),
        parent != child,
    ensures
        pages_hold(b, w, text, n, kv.fork(parent, child), child),
        pages_hold(b, w, text, n, kv.fork(parent, child), parent),
{
    let after = kv.fork(parent, child);
    let ids = kv.tables[parent].block_ids;
    assert forall|seq: u64| seq == parent || seq == child implies #[trigger] pages_hold(
        b,
        w,
        text,
        n,
        after,
        seq,
    ) by {
        assert(after.tables[seq].block_ids == ids);
        assert(after.packed(seq)) by {
            if ids.len() > 0 {
                assert(kv.table_wf(parent, kv.tables[parent]));
                assert(ids[ids.len() - 1] == ids.last());
            }
        }
        assert forall|i: int| 0 <= i < after.tables[seq].total_tokens implies
            #[trigger] after.reaches_token(seq, i) by {
            assert(kv.reaches_token(parent, i));
        }
        assert forall|l: int, i: int| 0 <= l < w.layers.len() && 0 <= i < n implies
            #[trigger] row_is_of_text(b, w, text, after, seq, l, i) by {
            assert(row_is_of_text(b, w, text, kv, parent, l, i));
        }
    }
    assert(pages_hold(b, w, text, n, after, child));
    assert(pages_hold(b, w, text, n, after, parent));
}

// ---- Slots ----
/// The texts that the sequences of a batch stand at the end of.
pub open spec fn texts_fit(texts: Seq<Seq<u32>>, ids: Seq<u64>) -> bool {
    &&& texts.len() == ids.len()
    &&& forall|i: int|
        0 <= i < texts.len() ==> 1 <= (#[trigger] texts[i]).len() <= 0x7fff_ffff
}

/// An entry of a batch has a slot for its last token, and pages that hold its text: with that
/// token in the layers that are done, without it in the others.
spec fn entry_holds<T: TensorBackend>(
    b: T,
    w: WeightsState,
    ids: Seq<u64>,
    texts: Seq<Seq<u32>>,
    places: Seq<Option<(usize, usize)>>,
    done: int,
    kv: KvState,
    i: int,
) -> bool {
    &&& places[i] is Some
    &&& is_place(kv, ids[i], texts[i].len() - 1, places[i]->0)
    &&& pages_half_hold(b, w, texts[i], texts[i].len() - 1, done, kv, ids[i])
}

/// The pages of an entry hold its text but for the last token.
pub open spec fn entry_waits<T: TensorBackend>(
    b: T,
    w: WeightsState,
    ids: Seq<u64>,
    texts: Seq<Seq<u32>>,
    kv: KvState,
    i: int,
) -> bool {
    pages_hold(b, w, texts[i], texts[i].len() - 1, kv, ids[i])
}

/// The slot of one entry is in no block of another.
spec fn is_apart(
    ids: Seq<u64>,
    places: Seq<Option<(usize, usize)>>,
    kv: KvState,
    i: int,
    j: int,
) -> bool {
    !kv.tables[ids[j]].block_ids.contains((places[i]->0).0)
}

/// The rows of an entry are those of its text.
spec fn rows_are_of_text<T: TensorBackend>(
    b: T,
    w: WeightsState,
    texts: Seq<Seq<u32>>,
    l: int,
    k: Seq<Seq<u32>>,
    v: Seq<Seq<u32>>,
    i: int,
) -> bool {
    let x = rows_of_text(b, w, texts[i], l)[texts[i].len() - 1];
    &&& k[i] == key(b, w, l, x, texts[i].len() - 1)
    &&& v[i] == value(b, w, l, x)
    &&& k[i].len() == w.config.num_kv_heads * w.config.head_dim
    &&& v[i].len() == w.config.num_kv_heads * w.config.head_dim
}

/// Every sequence of a batch has a slot of its own for its last token, and pages that hold its
/// text: with that token in the layers that are done, without it in the others.
spec fn batch_holds<T: TensorBackend>(
    b: T,
    w: WeightsState,
    ids: Seq<u64>,
    texts: Seq<Seq<u32>>,
    places: Seq<Option<(usize, usize)>>,
    from: int,
    done: int,
    kv: KvState,
) -> bool {
    &&& places.len() == ids.len()
    &&& forall|i: int|
        0 <= i < from ==> #[trigger] entry_holds(b, w, ids, texts, places, done + 1, kv, i)
    &&& forall|i: int|
        from <= i < ids.len() ==> #[trigger] entry_holds(b, w, ids, texts, places, done, kv, i)
    &&& forall|i: int, j: int|
        0 <= i < ids.len() && 0 <= j < ids.len() && i != j ==> #[trigger] is_apart(
            ids,
            places,
            kv,
            i,
            j,
        )
}

/// The slots are given out one after the other.
spec fn reserved_so_far<T: TensorBackend>(
    b: T,
    w: WeightsState,
    ids: Seq<u64>,
    texts: Seq<Seq<u32>>,
    places: Seq<Option<(usize, usize)>>,
    m: int,
    kv: KvState,
) -> bool {
    &&& forall|i: int|
        0 <= i < m ==> #[trigger] entry_holds(b, w, ids, texts, places, 0, kv, i)
    &&& forall|i: int|
        m <= i < ids.len() ==> #[trigger] entry_waits(b, w, ids, texts, kv, i)
    &&& forall|i: int, j: int|
        0 <= i < m && 0 <= j < ids.len() && i != j ==> #[trigger] is_apart(ids, places, kv, i, j)
}

proof fn lemma_reserve_one<T: TensorBackend>(
    b: T,
    w: WeightsState,
    ids: Seq<u64>,
    texts: Seq<Seq<u32>>,
    places: Seq<Option<(usize, usize)>>,
    m: int,
    kv: KvState,
)
    requires
        ids.no_duplicates(),
        texts_fit(texts, ids),
        places.len() == ids.len(),
        0 <= m < ids.len(),
        reserved_so_far(b, w, ids, texts, places, m, kv),
        kv.append_possible(ids[m]),
        kv.append_fits(ids[m]),
        places[m] == Some(kv.append_slot(ids[m])),
    ensures
        reserved_so_far(b, w, ids, texts, places, m + 1, kv.append(ids[m])),
{
    let id = ids[m];
    let after = kv.append(id);
    assert(1 <= texts[m].len());
    assert(entry_waits(b, w, ids, texts, kv, m));
    lemma_slot_for_text(b, w, texts[m], texts[m].len() - 1, kv, id);
    assert forall|i: int| 0 <= i < m + 1 implies #[trigger] entry_holds(
        b,
        w,
        ids,
        texts,
        places,
        0,
        after,
        i,
    ) by {
        if i < m {
            assert(ids[i] != ids[m]);
            assert(entry_holds(b, w, ids, texts, places, 0, kv, i));
            lemma_append_frame(w, texts[i].len() as int, kv, id, ids[i]);
            lemma_half_hold_frame(b, w, texts[i], texts[i].len() - 1, 0, kv, after, ids[i]);
        }
    }
    assert forall|i: int| m + 1 <= i < ids.len() implies #[trigger] entry_waits(
        b,
        w,
        ids,
        texts,
        after,
        i,
    ) by {
        assert(ids[i] != ids[m]);
        assert(entry_waits(b, w, ids, texts, kv, i));
        law_others_keep_their_text(b, w, texts[i], texts[i].len() - 1, kv, id, ids[i]);
    }
    assert forall|i: int, j: int| 0 <= i < m + 1 && 0 <= j < ids.len() && i != j implies
        #[trigger] is_apart(ids, places, after, i, j) by {
        if j != m {
            assert(ids[j] != ids[m]);
            assert(kv.tables.contains_key(ids[j])) by {
                if j < m {
                    assert(entry_holds(b, w, ids, texts, places, 0, kv, j));
                } else {
                    assert(entry_waits(b, w, ids, texts, kv, j));
                }
            }
            if i == m {
                kv.law_append_slot_is_private(id, ids[j]);
            } else {
                assert(is_apart(ids, places, kv, i, j));
            }
        } else {
            assert(is_apart(ids, places, kv, i, j));
            let block = (places[i]->0).0;
            if after.tables[id].block_ids.contains(block) {
                lemma_appended_blocks(kv, id, block);
                let t = texts[i].len() - 1;
                assert(1 <= texts[i].len());
                assert(entry_holds(b, w, ids, texts, places, 0, kv, i));
                kv.lemma_counted_token(ids[i], t);
                kv.lemma_held_is_counted(ids[i], t / kv.block_size as int);
            }
        }
    }
}

/// Entry `i` is given its slot.
pub open spec fn entry_gets_slot(kv: KvState, ids: Seq<u64>, i: int) -> bool {
    &&& reserve_all(kv, ids, i).append_possible(ids[i])
    &&& reserve_all(kv, ids, i).append_fits(ids[i])
}

proof fn lemma_reserves<T: TensorBackend>(
    b: T,
    w: WeightsState,
    ids: Seq<u64>,
    texts: Seq<Seq<u32>>,
    kv: KvState,
    m: int,
)
    requires
        ids.no_duplicates(),
        texts_fit(texts, ids),
        0 <= m <= ids.len(),
        forall|i: int| 0 <= i < ids.len() ==> #[trigger] entry_waits(b, w, ids, texts, kv, i),
        forall|i: int| 0 <= i < ids.len() ==> #[trigger] entry_gets_slot(kv, ids, i),
    ensures
        reserved_so_far(b, w, ids, texts, slots(kv, ids), m, reserve_all(kv, ids, m)),
        reserve_all(kv, ids, m).total_blocks == kv.total_blocks,
        reserve_all(kv, ids, m).block_size == kv.block_size,
    decreases m,
{
    if m > 0 {
        lemma_reserves(b, w, ids, texts, kv, m - 1);
        let before = reserve_all(kv, ids, m - 1);
        assert(entry_gets_slot(kv, ids, m - 1));
        lemma_reserve_one(b, w, ids, texts, slots(kv, ids), m - 1, before);
    }
}

// ---- Layers ----
proof fn lemma_write_one<T: TensorBackend>(
    b: T,
    w: WeightsState,
    ids: Seq<u64>,
    texts: Seq<Seq<u32>>,
    places: Seq<Option<(usize, usize)>>,
    m: int,
    l: int,
    kv: KvState,
    k: Seq<u32>,
    v: Seq<u32>,
)
    requires
        ids.no_duplicates(),
        texts_fit(texts, ids),
        0 <= m < ids.len(),
        0 <= l < w.layers.len(),
        batch_holds(b, w, ids, texts, places, m, l, kv),
        k == key(b, w, l, rows_of_text(b, w, texts[m], l)[texts[m].len() - 1], texts[m].len() - 1),
        v == value(b, w, l, rows_of_text(b, w, texts[m], l)[texts[m].len() - 1]),
        k.len() == w.config.num_kv_heads * w.config.head_dim,
        v.len() == w.config.num_kv_heads * w.config.head_dim,
    ensures
        batch_holds(
            b,
            w,
            ids,
            texts,
            places,
            m + 1,
            l,
            kv.write_slot(places[m]->0, l, k, v),
        ),
        kv.write_slot(places[m]->0, l, k, v).tables == kv.tables,
{
    let id = ids[m];
    let place = places[m]->0;
    let text = texts[m];
    let t = text.len() - 1;
    let after = kv.write_slot(place, l, k, v);
    let blocks = kv.tables[id].block_ids;
    assert(1 <= text.len());
    assert(entry_holds(b, w, ids, texts, places, l, kv, m));
    lemma_writes_row(w, t + 1, kv, id, l, t, place, k, v);
    kv.lemma_counted_token(id, t);
    assert(kv.reaches_token(id, t));
    assert forall|j: int, s: int|
        0 <= j < w.layers.len() && 0 <= s < t + 1 && (j < l + 1 || s < t) implies
        #[trigger] row_is_of_text(b, w, text, after, id, j, s) by {
        if j != l || s != t {
            assert(row_is_of_text(b, w, text, kv, id, j, s));
            assert(after.pool->0.token_row(blocks, s, j, false) == kv.pool->0.token_row(
                blocks,
                s,
                j,
                false,
            ));
            assert(after.pool->0.token_row(blocks, s, j, true) == kv.pool->0.token_row(
                blocks,
                s,
                j,
                true,
            ));
        }
    }
    assert(entry_holds(b, w, ids, texts, places, l + 1, after, m));
    assert forall|i: int, upto: int|
        0 <= i < ids.len() && i != m && entry_holds(
            b,
            w,
            ids,
            texts,
            places,
            upto,
            kv,
            i,
        ) implies #[trigger] entry_holds(b, w, ids, texts, places, upto, after, i) by {
        assert(is_apart(ids, places, kv, m, i));
        assert(1 <= texts[i].len());
        lemma_write_frame(w, texts[i].len() as int, kv, ids[i], place, l, k, v);
        lemma_half_hold_frame(b, w, texts[i], texts[i].len() - 1, upto, kv, after, ids[i]);
    }
    assert forall|i: int| 0 <= i < m + 1 implies #[trigger] entry_holds(
        b,
        w,
        ids,
        texts,
        places,
        l + 1,
        after,
        i,
    ) by {
        if i < m {
            assert(entry_holds(b, w, ids, texts, places, l + 1, kv, i));
        }
    }
    assert forall|i: int| m + 1 <= i < ids.len() implies #[trigger] entry_holds(
        b,
        w,
        ids,
        texts,
        places,
        l,
        after,
        i,
    ) by {
        assert(entry_holds(b, w, ids, texts, places, l, kv, i));
    }
    assert forall|i: int, j: int| 0 <= i < ids.len() && 0 <= j < ids.len() && i != j implies
        #[trigger] is_apart(ids, places, after, i, j) by {
        assert(is_apart(ids, places, kv, i, j));
    }
}

proof fn lemma_writes_all<T: TensorBackend>(
    b: T,
    w: WeightsState,
    ids: Seq<u64>,
    texts: Seq<Seq<u32>>,
    places: Seq<Option<(usize, usize)>>,
    m: int,
    l: int,
    kv: KvState,
    k: Seq<Seq<u32>>,
    v: Seq<Seq<u32>>,
)
    requires
        ids.no_duplicates(),
        texts_fit(texts, ids),
        0 <= m <= ids.len(),
        0 <= l < w.layers.len(),
        batch_holds(b, w, ids, texts, places, 0, l, kv),
        forall|i: int|
            0 <= i < ids.len() ==> #[trigger] rows_are_of_text(b, w, texts, l, k, v, i),
    ensures
        batch_holds(b, w, ids, texts, places, m, l, write_slots(kv, places, l, k, v, m)),
        write_slots(kv, places, l, k, v, m).tables == kv.tables,
        write_slots(kv, places, l, k, v, m).total_blocks == kv.total_blocks,
    decreases m,
{
    if m > 0 {
        lemma_writes_all(b, w, ids, texts, places, m - 1, l, kv, k, v);
        let before = write_slots(kv, places, l, k, v, m - 1);
        assert(entry_holds(b, w, ids, texts, places, l, before, m - 1));
        assert(rows_are_of_text(b, w, texts, l, k, v, m - 1));
        lemma_write_one(b, w, ids, texts, places, m - 1, l, before, k[m - 1], v[m - 1]);
    }
}

/// A flat tensor is its rows one behind the other.
proof fn lemma_split_flat(x: Seq<u32>, n: int, width: int)
    requires
        0 <= n,
        0 <= width,
        x.len() == n * width,
    ensures
        flat(split_rows(x, n, width)) == x,
        rows_of_width(split_rows(x, n, width), width),
    decreases n,
{
    let rows = split_rows(x, n, width);
    if n > 0 {
        lemma_row_in(n - 1, n, width);
        let front = x.take((n - 1) * width);
        lemma_split_flat(front, n - 1, width);
        assert(split_rows(front, n - 1, width) =~= rows.drop_last()) by {
            assert forall|t: int| 0 <= t < n - 1 implies split_rows(front, n - 1, width)[t]
                == #[trigger] rows.drop_last()[t] by {
                lemma_row_in(t, n - 1, width);
                assert(row_of(front, t, width) =~= row_of(x, t, width));
            }
        }
        assert(front + rows.last() =~= x);
        assert forall|t: int| 0 <= t < rows.len() implies (#[trigger] rows[t]).len() == width by {
            lemma_row_in(t, n, width);
        }
    } else {
        assert(0 * width == 0);
        assert(x =~= Seq::<u32>::empty());
    }
}

/// Attention of a batch whose pages hold its texts.
proof fn lemma_batch_attends<T: TensorBackend>(
    b: T,
    w: WeightsState,
    ids: Seq<u64>,
    texts: Seq<Seq<u32>>,
    places: Seq<Option<(usize, usize)>>,
    l: int,
    kv: KvState,
    q: Seq<Seq<u32>>,
    i: int,
)
    requires
        reads_pages(b),
        reads_pages_row_by_row(b),
        texts_fit(texts, ids),
        0 <= i < ids.len(),
        0 <= l < w.layers.len(),
        batch_holds(b, w, ids, texts, places, ids.len() as int, l, kv),
        kv.total_blocks <= 0x7fff_ffff,
        widest(tables_of(kv, ids)) <= usize::MAX,
        q.len() == ids.len(),
        rows_of_width(q, w.config.num_heads * w.config.head_dim),
    ensures
        ({
            let tables = tables_of(kv, ids);
            let found = b.batch_page_attended(
                flat(q),
                kv.pool->0,
                padded_all(tables, widest(tables) as int),
                lens_of(kv, ids),
                widest(tables) as usize,
                l as usize,
                w.config.heads(),
            );
            let x = rows_of_text(b, w, texts[i], l);
            row_of(found, i, w.config.q_dim()) == b.attended(
                q[i],
                flat(crate::model::keys(b, w, l, x, texts[i].len() as int)),
                flat(crate::model::values(b, w, l, x, texts[i].len() as int)),
                texts[i].len() as usize,
                w.config.heads(),
            )
        }),
{
    let pool = kv.pool->0;
    let tables = tables_of(kv, ids);
    let wide = widest(tables) as int;
    let most = widest(tables) as usize;
    let all = padded_all(tables, wide);
    let lens = lens_of(kv, ids);
    let heads = w.config.heads();
    lemma_padded_len(tables, wide);
    assert(entry_holds(b, w, ids, texts, places, l + 1, kv, i));
    assert(all_attendable(pool, all, lens, most, l)) by {
        assert forall|e: int, t: int|
            #![trigger lens[e], block_of(pool, t)]
            0 <= e < lens.len() && 0 <= t < lens[e] implies {
            &&& 0 <= block_of(pool, t) < most
            &&& all[e * most + block_of(pool, t)] < pool.layout.num_blocks
        } by {
            let id = ids[e];
            let j = block_of(pool, t);
            assert(1 <= texts[e].len() <= 0x7fff_ffff);
            assert(entry_holds(b, w, ids, texts, places, l + 1, kv, e));
            kv.lemma_counted_token(id, t);
            assert(kv.reaches_token(id, t));
            assert(tables[e] == kv.tables[id].block_ids);
            lemma_widest_is_most(tables, e);
            lemma_entry(tables, wide, e, j);
        }
    }
    let id = ids[i];
    let blocks = kv.tables[id].block_ids;
    let total = kv.tables[id].total_tokens;
    assert(1 <= texts[i].len() <= 0x7fff_ffff);
    assert(tables[i] == blocks);
    lemma_widest_is_most(tables, i);
    assert(stands_at(all, most, i, blocks)) by {
        assert forall|j: int| 0 <= j < blocks.len() implies all[i * most + j]
            == (#[trigger] blocks[j]) as int by {
            lemma_entry(tables, wide, i, j);
            assert(kv.table_wf(id, kv.tables[id]));
            assert(blocks[j] < kv.total_blocks);
        }
    }
    assert(lens[i] == total as int);
    let found = b.batch_page_attended(flat(q), pool, all, lens, most, l as usize, heads);
    assert(row_of(found, i, heads.num_heads * heads.head_dim) == b.page_attended(
        q[i],
        pool,
        blocks,
        total,
        l as usize,
        heads,
    ));
    assert forall|s: int| 0 <= s < texts[i].len() implies #[trigger] row_is_of_text(
        b,
        w,
        texts[i],
        kv,
        id,
        l,
        s,
    ) by {}
    lemma_attends_text(b, w, texts[i], texts[i].len() - 1, l, kv, id, q[i], heads);
}

/// After some layers of a batch over pages, every row is that of its text.
spec fn batch_in_step<T: TensorBackend>(
    b: T,
    w: WeightsState,
    ids: Seq<u64>,
    texts: Seq<Seq<u32>>,
    places: Seq<Option<(usize, usize)>>,
    l: int,
    s: DecodeState,
) -> bool {
    &&& s.kv is Some
    &&& s.kv->0.total_blocks <= 0x7fff_ffff
    &&& widest(tables_of(s.kv->0, ids)) <= usize::MAX
    &&& batch_holds(b, w, ids, texts, places, 0, l, s.kv->0)
    &&& s.x.len() == ids.len() * w.config.hidden()
    &&& forall|i: int|
        0 <= i < ids.len() ==> #[trigger] row_of(s.x, i, w.config.hidden()) == rows_of_text(
            b,
            w,
            texts[i],
            l,
        )[texts[i].len() - 1]
}

spec fn can_batch_pages<T: TensorBackend>(
    b: T,
    w: WeightsState,
    ids: Seq<u64>,
    texts: Seq<Seq<u32>>,
    at: Seq<usize>,
) -> bool {
    &&& works_row_by_row(b)
    &&& reads_pages(b)
    &&& reads_pages_row_by_row(b)
    &&& w.config.rows_fit(ids.len() as int)
    &&& 0 < ids.len() <= usize::MAX
    &&& ids.no_duplicates()
    &&& texts_fit(texts, ids)
    &&& at.len() == ids.len()
    &&& forall|i: int| 0 <= i < ids.len() ==> #[trigger] at[i] == texts[i].len() - 1
}

#[verifier::spinoff_prover]
#[verifier::rlimit(40)]
proof fn lemma_batch_layer_in_step<T: TensorBackend>(
    b: T,
    w: WeightsState,
    ids: Seq<u64>,
    texts: Seq<Seq<u32>>,
    at: Seq<usize>,
    places: Seq<Option<(usize, usize)>>,
    l: int,
    s: DecodeState,
)
    requires
        can_batch_pages(b, w, ids, texts, at),
        0 <= l < w.layers.len(),
        batch_in_step(b, w, ids, texts, places, l, s),
    ensures
        batch_in_step(b, w, ids, texts, places, l + 1, batch_layer(b, w, l, ids, at, places, s)),
        batch_layer(b, w, l, ids, at, places, s).seqs == s.seqs,
{
    lemma_widths(w);
    let n = ids.len() as int;
    let hidden = w.config.hidden();
    let q_dim = w.config.q_dim();
    let lw = w.layers[l];
    let rows = split_rows(s.x, n, hidden);
    assert forall|t: int| 0 <= t < n implies (#[trigger] rows[t]).len() == hidden by {
        lemma_row_in(t, n, hidden);
    }
    let (q, k, v) = qkv_rows(b, w, l, rows, at);
    assert forall|i: int| 0 <= i < ids.len() implies #[trigger] rows_are_of_text(
        b,
        w,
        texts,
        l,
        k,
        v,
        i,
    ) by {
        lemma_qkv_row(b, w, l, rows, at, i);
        assert(at[i] == texts[i].len() - 1);
        assert(rows[i] == row_of(s.x, i, hidden));
    }
    assert forall|i: int| 0 <= i < n implies (#[trigger] q[i]).len() == q_dim by {
        lemma_qkv_row(b, w, l, rows, at, i);
    }
    let before = s.kv->0;
    lemma_writes_all(b, w, ids, texts, places, n, l, before, k, v);
    let kv = write_slots(before, places, l, k, v, n);
    assert(tables_of(kv, ids) =~= tables_of(before, ids));
    let tables = tables_of(kv, ids);
    assert(entry_holds(b, w, ids, texts, places, l + 1, kv, 0));
    let found = b.batch_page_attended(
        flat(q),
        kv.pool->0,
        padded_all(tables, widest(tables) as int),
        lens_of(kv, ids),
        widest(tables) as usize,
        l as usize,
        w.config.heads(),
    );
    lemma_flat_len(q, q_dim);
    lemma_split_flat(found, n, q_dim);
    let seen = split_rows(found, n, q_dim);
    let proj = b.batch_projected(found, lw.o_proj, n as usize, q_dim as usize, hidden as usize);
    let sums = b.summed(s.x, proj);
    let next = batch_layer(b, w, l, ids, at, places, s);
    assert(next.kv == Some(kv));
    assert forall|i: int| 0 <= i < ids.len() implies #[trigger] row_of(next.x, i, hidden)
        == rows_of_text(b, w, texts[i], l + 1)[texts[i].len() - 1] by {
        let x = rows_of_text(b, w, texts[i], l);
        assert(1 <= texts[i].len());
        lemma_qkv_row(b, w, l, rows, at, i);
        assert(at[i] == texts[i].len() - 1);
        assert(rows[i] == x[texts[i].len() - 1]);
        lemma_batch_attends(b, w, ids, texts, places, l, kv, q, i);
        lemma_projected(b, seen, lw.o_proj, q_dim as usize, hidden as usize, i);
        lemma_row_in(i, n, hidden);
        assert(row_of(sums, i, hidden) == b.summed(
            row_of(s.x, i, hidden),
            row_of(proj, i, hidden),
        ));
        lemma_batch_mlp_row(b, w, l, n, sums, i);
    }
    lemma_batch_mlp_row(b, w, l, n, sums, 0);
    assert(batch_holds(b, w, ids, texts, places, 0, l + 1, kv));
}

proof fn lemma_batch_layers_in_step<T: TensorBackend>(
    b: T,
    w: WeightsState,
    ids: Seq<u64>,
    texts: Seq<Seq<u32>>,
    at: Seq<usize>,
    places: Seq<Option<(usize, usize)>>,
    l: int,
    s: DecodeState,
)
    requires
        can_batch_pages(b, w, ids, texts, at),
        0 <= l <= w.layers.len(),
        batch_in_step(b, w, ids, texts, places, 0, s),
    ensures
        batch_in_step(b, w, ids, texts, places, l, batch_layers(b, w, l, ids, at, places, s)),
        batch_layers(b, w, l, ids, at, places, s).seqs == s.seqs,
    decreases l,
{
    if l > 0 {
        lemma_batch_layers_in_step(b, w, ids, texts, at, places, l - 1, s);
        lemma_batch_layer_in_step(
            b,
            w,
            ids,
            texts,
            at,
            places,
            l - 1,
            batch_layers(b, w, l - 1, ids, at, places, s),
        );
    }
}

/// A decode step over pages answers each sequence that stands at the end of a text, with pages
/// that hold the text but for its last token, with the most likely token after that text. Its
/// pages then hold the whole text, and the token joins its sequence and no other.
#[verifier::spinoff_prover]
#[verifier::rlimit(40)]
pub proof fn law_paged_decode_follows_texts<T: TensorBackend>(
    b: T,
    w: WeightsState,
    ids: Seq<u64>,
    texts: Seq<Seq<u32>>,
    kv: KvState,
    seqs: Map<u64, TokensState>,
    i: int,
)
    requires
        works_row_by_row(b),
        reads_pages(b),
        reads_pages_row_by_row(b),
        ids.no_duplicates(),
        ids.len() <= usize::MAX,
        texts_fit(texts, ids),
        decode_fits(w, ids, Some(kv), seqs),
        kv.total_blocks <= 0x7fff_ffff,
        forall|j: int|
            0 <= j < ids.len() ==> seqs.contains_key(#[trigger] ids[j]) && seqs[ids[j]].tokens
                == texts[j],
        forall|j: int| 0 <= j < ids.len() ==> #[trigger] entry_waits(b, w, ids, texts, kv, j),
        forall|j: int| 0 <= j < ids.len() ==> #[trigger] entry_gets_slot(kv, ids, j),
        0 <= i < ids.len(),
    ensures
        ({
            let done = decode_pass(b, w, ids, Some(kv), seqs);
            let (token, logprob) = likeliest(b, w, texts[i]);
            &&& done.outputs.len() == ids.len()
            &&& done.outputs[i] == answer(ids[i], texts[i].len(), token, logprob)
            &&& done.seqs.contains_key(ids[i])
            &&& done.seqs[ids[i]].tokens == texts[i].push(token)
            &&& done.seqs[ids[i]].layers == seqs[ids[i]].layers
            &&& done.seqs.dom() == seqs.dom()
            &&& forall|id: u64| !ids.contains(id) ==> #[trigger] done.seqs[id] == seqs[id]
            &&& done.kv is Some
            &&& pages_hold(b, w, texts[i], texts[i].len() as int, done.kv->0, ids[i])
        }),
{
    lemma_widths(w);
    let n = ids.len() as int;
    let hidden = w.config.hidden();
    let layers = w.layers.len() as int;
    assert forall|j: int| 0 <= j < ids.len() implies seqs.contains_key(#[trigger] ids[j]) by {}
    lemma_opened(seqs, ids, n, w.config.num_layers as int);
    let at = positions(seqs, ids);
    let places = slots(kv, ids);
    let kv1 = reserve_all(kv, ids, n);
    lemma_reserves(b, w, ids, texts, kv, n);
    let x = embeddings(w, last_tokens(seqs, ids));
    assert forall|j: int| 0 <= j < n implies (#[trigger] x[j]).len() == hidden by {
        let all = last_tokens(seqs, ids);
        assert(w.takes(all[j]));
        let vocab = w.config.vocab() as int;
        let row = all[j] as int % vocab;
        assert(0 <= row * hidden && row * hidden + hidden <= vocab * hidden) by (nonlinear_arith)
            requires
                0 <= row < vocab,
                0 <= hidden,
        ;
    }
    lemma_flat_len(x, hidden);
    let start = DecodeState { x: flat(x), kv: Some(kv1), seqs };
    assert forall|j: int| 0 <= j < ids.len() implies #[trigger] row_of(start.x, j, hidden)
        == rows_of_text(b, w, texts[j], 0)[texts[j].len() - 1] by {
        assert(1 <= texts[j].len());
        lemma_flat_row(x, hidden, j);
        assert(seqs[ids[j]].tokens == texts[j]);
        assert(x[j] =~= rows_of_text(b, w, texts[j], 0)[texts[j].len() - 1]);
    }
    assert(can_batch_pages(b, w, ids, texts, at)) by {
        assert forall|j: int| 0 <= j < ids.len() implies #[trigger] at[j]
            == texts[j].len() - 1 by {
            assert(1 <= texts[j].len() <= 0x7fff_ffff);
            assert(seqs[ids[j]].tokens == texts[j]);
        }
    }
    assert(widest(tables_of(kv1, ids)) <= usize::MAX) by {
        let most = widest(tables_of(kv1, ids)) as int;
        assert(most <= n * most) by (nonlinear_arith)
            requires
                n >= 1,
                most >= 0,
        ;
    }
    assert(batch_holds(b, w, ids, texts, places, 0, 0, kv1));
    lemma_batch_layers_in_step(b, w, ids, texts, at, places, layers, start);
    let passed = batch_layers(b, w, layers, ids, at, places, start);
    let logits = b.batch_projected(
        normed_flat(b, passed.x, n, hidden, w.final_norm, w.config.rms_norm_eps),
        w.lm_head,
        n as usize,
        hidden as usize,
        w.config.vocab(),
    );
    let tokens = greedy_all(b, logits, n, w.config.vocab() as int);
    lemma_logits_row(b, w, n, passed.x, i);
    lemma_sampled(seqs, ids, tokens, n);
    lemma_sampled(seqs, ids, tokens, i + 1);
    let id = ids[i];
    assert(row_of(passed.x, i, hidden) == rows_of_text(b, w, texts[i], layers)[texts[i].len() - 1]);
    assert(tokens[i] == likeliest(b, w, texts[i]));
    let done = decode_pass(b, w, ids, Some(kv), seqs);
    assert(done.outputs[i] == output_for(seqs, ids, tokens, i));
    assert(done.kv == passed.kv);
    assert(entry_holds(b, w, ids, texts, places, layers, passed.kv->0, i));
    assert(seqs.dom().contains(id));
    assert(done.seqs.dom().contains(id));
}

} // verus!
