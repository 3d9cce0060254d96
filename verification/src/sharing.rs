//! What sharing blocks and copying them on write promises.
//!
//! A branch costs no block when it is made, sees the rows of its parent, and from then on
//! neither can change what the other reads. Every block that is handed out comes back.

use crate::kv_laws::{lemma_holders_insert, lemma_holders_remove};
use crate::kv_state::{holders, KvState};
use crate::pool::{as_stored, PoolState};
use vstd::prelude::*;

verus! {

impl PoolState {
    /// The row of token `i` of a block table.
    pub open spec fn token_row(self, table: Seq<usize>, i: int, layer: int, is_value: bool) -> Seq<
        u32,
    > {
        self.row(
            table[i / self.config.block_size as int] as int,
            layer,
            is_value,
            i % self.config.block_size as int,
        )
    }

    /// Two tables whose tokens have the same rows gather the same.
    pub proof fn lemma_gathered_frame(
        self,
        table: Seq<usize>,
        after: PoolState,
        table2: Seq<usize>,
        n: int,
        layer: int,
        is_value: bool,
    )
        requires
            after.config == self.config,
            forall|i: int|
                0 <= i < n ==> #[trigger] after.token_row(table2, i, layer, is_value)
                    == self.token_row(table, i, layer, is_value),
        ensures
            after.gathered(table2, n, layer, is_value) == self.gathered(table, n, layer, is_value),
        decreases n,
    {
        if n > 0 {
            self.lemma_gathered_frame(table, after, table2, n - 1, layer, is_value);
            assert(after.token_row(table2, n - 1, layer, is_value) == self.token_row(
                table,
                n - 1,
                layer,
                is_value,
            ));
        }
    }
}

impl KvState {
    /// There is a tensor pool with this layer, and a row in it for every slot of each of its
    /// blocks.
    pub open spec fn has_layer(self, layer: int) -> bool {
        &&& self.block_size > 0
        &&& self.pool is Some
        &&& self.pool->0.has_element_access()
        &&& self.pool->0.config.block_size == self.block_size
        &&& 0 <= layer < self.pool->0.layout.num_layers
    }

    /// All tokens that a table counts are in its blocks.
    pub proof fn lemma_all_held(self, seq: u64)
        requires
            self.wf(),
            self.tables.contains_key(seq),
            self.block_size > 0,
            self.pool is Some,
            self.pool->0.config.block_size == self.block_size,
        ensures
            self.tables[seq].total_tokens <= self.tables[seq].block_ids.len() * self.block_size,
            self.pool->0.held_tokens(
                self.tables[seq].block_ids.len() as int,
                self.tables[seq].total_tokens as int,
            ) == self.tables[seq].total_tokens,
    {
        let t = self.tables[seq];
        let n = t.block_ids.len() as int;
        let bs = self.block_size as int;
        assert(self.table_wf(seq, t));
        if n > 0 {
            assert(t.block_ids[n - 1] == t.block_ids.last());
            assert(self.block_wf(t.block_ids.last() as int));
            assert((n - 1) * bs + bs == n * bs) by (nonlinear_arith);
        }
    }

    /// Where token `i` of a sequence lies.
    pub proof fn lemma_token_place(self, seq: u64, i: int)
        requires
            self.wf(),
            self.tables.contains_key(seq),
            self.block_size > 0,
            0 <= i < self.tables[seq].block_ids.len() * self.block_size,
        ensures
            0 <= i / (self.block_size as int) < self.tables[seq].block_ids.len(),
            0 <= i % (self.block_size as int) < self.block_size,
            self.tables[seq].block_ids[i / (self.block_size as int)] < self.total_blocks,
    {
        let n = self.tables[seq].block_ids.len() as int;
        let bs = self.block_size as int;
        assert(0 <= i / bs < n) by (nonlinear_arith)
            requires
                0 <= i < n * bs,
                bs > 0,
        ;
        assert(self.table_wf(seq, self.tables[seq]));
        let ids = self.tables[seq].block_ids;
        assert(ids[i / bs] < self.total_blocks);
    }

    /// Where the tensor pool has every block, it has those of a sequence.
    pub proof fn lemma_covered(self, seq: u64)
        requires
            self.wf(),
            self.block_size > 0,
            self.pool_covers_blocks(),
            self.tables.contains_key(seq),
        ensures
            self.reached(seq),
    {
        assert forall|i: int| 0 <= i < self.tables[seq].total_tokens implies
            #[trigger] self.reaches_token(seq, i) by {
            self.lemma_counted_token(seq, i);
        }
    }

    /// A counted token lies in a block of its table.
    pub proof fn lemma_counted_token(self, seq: u64, i: int)
        requires
            self.wf(),
            self.block_size > 0,
            self.tables.contains_key(seq),
            0 <= i < self.tables[seq].total_tokens,
        ensures
            0 <= i / (self.block_size as int) < self.tables[seq].block_ids.len(),
            0 <= i % (self.block_size as int) < self.block_size,
            self.place_at(seq, i).0 < self.total_blocks,
    {
        let t = self.tables[seq];
        let n = t.block_ids.len() as int;
        let bs = self.block_size as int;
        assert(self.table_wf(seq, t));
        if n > 0 {
            assert(t.block_ids[n - 1] == t.block_ids.last());
            assert(self.block_wf(t.block_ids.last() as int));
            assert((n - 1) * bs + bs == n * bs) by (nonlinear_arith);
        }
        self.lemma_token_place(seq, i);
    }

    /// Which blocks exist in the tensor pool depends on its shape and the tables alone.
    pub proof fn lemma_reached_frame(self, after: KvState, seq: u64)
        requires
            self.reached(seq),
            after.tables[seq] == self.tables[seq],
            after.block_size == self.block_size,
            after.pool is Some == self.pool is Some,
            after.pool is Some ==> after.pool->0.layout == self.pool->0.layout,
        ensures
            after.reached(seq),
    {
        assert forall|i: int| 0 <= i < after.tables[seq].total_tokens implies
            #[trigger] after.reaches_token(seq, i) by {
            assert(self.reaches_token(seq, i));
        }
    }

    /// The slot of a further token, and the blocks of its sequence, as touched.
    pub proof fn lemma_append_touches(self, seq: u64)
        requires
            self.wf(),
            self.block_size > 0,
            self.append_possible(seq),
            self.append_fits(seq),
            self.append_reached(seq),
        ensures
            self.append(seq).reached(seq),
            self.pool_reaches(self.append_slot(seq).0 as int),
    {
        if self.pool_covers_blocks() {
            self.lemma_append_wf(seq);
            self.law_append_slot_is_private(seq, seq);
            self.append(seq).lemma_covered(seq);
        }
    }

    /// Where the blocks of its counted tokens exist in the tensor pool, and these fill the
    /// blocks of a sequence from the front, so does the block of a further token.
    pub proof fn lemma_append_reached(self, seq: u64)
        requires
            self.wf(),
            self.block_size > 0,
            self.append_possible(seq),
            self.append_fits(seq),
            self.packed(seq),
            self.reached(seq),
        ensures
            self.append(seq).reached(seq),
            self.pool_reaches(self.append_slot(seq).0 as int),
    {
        let t = self.tables[seq];
        let ids = t.block_ids;
        let n = ids.len() as int;
        let bs = self.block_size as int;
        let total = t.total_tokens as int;
        let after = self.append(seq);
        let ids2 = after.tables[seq].block_ids;
        self.law_append_packs(seq);
        assert(self.table_wf(seq, t));
        if !self.append_takes_block(seq) {
            let last = self.blocks[ids.last() as int].num_tokens as int;
            assert(ids[n - 1] == ids.last());
            vstd::arithmetic::div_mod::lemma_fundamental_div_mod_converse(
                total - 1,
                bs,
                n - 1,
                last - 1,
            );
            assert(self.reaches_token(seq, total - 1));
        }
        assert forall|i: int| 0 <= i < after.tables[seq].total_tokens implies
            #[trigger] after.reaches_token(seq, i) by {
            if i < total {
                self.lemma_counted_token(seq, i);
                assert(self.reaches_token(seq, i));
                if !(self.append_copies(seq) && i / bs == n - 1) {
                    assert(ids2[i / bs] == ids[i / bs]);
                }
            }
        }
    }

    /// A further token changes the rows of a block in use in no way, and a copied block
    /// has the rows of its source.
    pub proof fn lemma_append_rows(self, seq: u64, block: int, layer: int, is_value: bool, token: int)
        requires
            self.wf(),
            self.append_possible(seq),
            self.append_fits(seq),
            self.has_layer(layer),
            0 <= block < self.total_blocks,
            self.pool_reaches(block),
            0 <= token < self.block_size,
            self.append_takes_block(seq) ==> block != self.next_free(),
        ensures
            self.append(seq).pool is Some,
            self.append(seq).pool->0.wf(),
            self.append(seq).pool->0.config == self.pool->0.config,
            self.append(seq).pool->0.row(block, layer, is_value, token) == self.pool->0.row(
                block,
                layer,
                is_value,
                token,
            ),
            self.append_copies(seq) && block == self.last_block(seq) ==> self.append(
                seq,
            ).pool->0.row(self.next_free() as int, layer, is_value, token) == self.pool->0.row(
                block,
                layer,
                is_value,
                token,
            ),
    {
        self.lemma_append_wf(seq);
        let pool = self.pool->0;
        if self.append_takes_block(seq) {
            let new = self.next_free() as int;
            self.lemma_take_block_wf();
            pool.law_zero_block_rows(new, block, layer, is_value, token);
            let cleared = pool.zero_block(new);
            if self.append_copies(seq) {
                let ids = self.tables[seq].block_ids;
                let last = self.last_block(seq) as int;
                self.lemma_held_is_counted(seq, ids.len() - 1);
                cleared.law_copy_block_rows(last, new, block, layer, is_value, token);
                cleared.law_copy_block_rows(last, new, new, layer, is_value, token);
            }
        }
    }

    /// A branch shares every block of its parent: no block is taken, none is copied, the
    /// branch reads the parent's rows, and no other sequence changes.
    pub proof fn law_fork_shares(
        self,
        parent: u64,
        child: u64,
        other: u64,
        layer: int,
        is_value: bool,
    )
        requires
            self.wf(),
            self.tables.contains_key(parent),
            self.fork_fits(parent),
            other != child,
        ensures
            self.fork(parent, child).free == self.free,
            self.fork(parent, child).pool == self.pool,
            self.fork(parent, child).tables.contains_key(child),
            self.fork(parent, child).tables[child].block_ids == self.tables[parent].block_ids,
            self.fork(parent, child).tables[child].total_tokens
                == self.tables[parent].total_tokens,
            self.fork(parent, child).sequence_rows(child, layer, is_value) == self.sequence_rows(
                parent,
                layer,
                is_value,
            ),
            self.fork(parent, child).tables.contains_key(other) == self.tables.contains_key(other),
            self.tables.contains_key(other) ==> self.fork(parent, child).tables[other]
                == self.tables[other],
            forall|b: usize| #[trigger]
                self.tables[parent].block_ids.contains(b) ==> self.fork(
                    parent,
                    child,
                ).blocks[b as int].is_shared,
    {
        assert(self.table_wf(parent, self.tables[parent]));
        assert forall|b: usize| #[trigger]
            self.tables[parent].block_ids.contains(b) implies self.fork(
            parent,
            child,
        ).blocks[b as int].is_shared by {
            let ids = self.tables[parent].block_ids;
            let i = choose|i: int| 0 <= i < ids.len() && ids[i] == b;
            assert(ids[i] < self.total_blocks);
        }
    }

    /// A further token of one sequence leaves the table and the rows of every other
    /// sequence as they were.
    pub proof fn law_append_isolates(self, seq: u64, other: u64, layer: int, is_value: bool)
        requires
            self.wf(),
            self.append_possible(seq),
            self.append_fits(seq),
            self.has_layer(layer),
            self.tables.contains_key(other),
            self.reached(other),
            other != seq,
        ensures
            self.append(seq).tables.contains_key(other),
            self.append(seq).tables[other] == self.tables[other],
            self.append(seq).sequence_rows(other, layer, is_value) == self.sequence_rows(
                other,
                layer,
                is_value,
            ),
    {
        let after = self.append(seq);
        let ids = self.tables[other].block_ids;
        let bs = self.block_size as int;
        self.lemma_append_wf(seq);
        self.lemma_all_held(other);
        if self.append_takes_block(seq) {
            self.lemma_take_block_wf();
        }
        self.lemma_append_pool(seq, layer);
        let n = self.tables[other].total_tokens as int;
        assert forall|i: int| 0 <= i < n implies #[trigger] after.pool->0.token_row(
            ids,
            i,
            layer,
            is_value,
        ) == self.pool->0.token_row(ids, i, layer, is_value) by {
            self.lemma_token_place(other, i);
            assert(self.reaches_token(other, i));
            assert(ids.contains(ids[i / bs]));
            self.lemma_append_rows(seq, ids[i / bs] as int, layer, is_value, i % bs);
        }
        self.pool->0.lemma_gathered_frame(ids, after.pool->0, ids, n, layer, is_value);
    }

    /// The pool after a further token has the shape it had.
    pub proof fn lemma_append_pool(self, seq: u64, layer: int)
        requires
            self.wf(),
            self.append_possible(seq),
            self.append_fits(seq),
            self.has_layer(layer),
        ensures
            self.append(seq).wf(),
            self.append(seq).has_layer(layer),
            self.append(seq).pool->0.config == self.pool->0.config,
    {
        self.lemma_append_wf(seq);
    }

    /// A further token leaves the rows of the tokens before it as they were, also where
    /// their last block was copied.
    pub proof fn law_append_keeps_own_rows(self, seq: u64, layer: int, is_value: bool)
        requires
            self.wf(),
            self.append_possible(seq),
            self.append_fits(seq),
            self.has_layer(layer),
            self.reached(seq),
        ensures
            self.append(seq).tables[seq].total_tokens == self.tables[seq].total_tokens + 1,
            self.append(seq).pool->0.gathered(
                self.append(seq).tables[seq].block_ids,
                self.tables[seq].total_tokens as int,
                layer,
                is_value,
            ) == self.sequence_rows(seq, layer, is_value),
            self.append(seq).sequence_rows(seq, layer, is_value) == self.sequence_rows(
                seq,
                layer,
                is_value,
            ) + self.append(seq).pool->0.token_row(
                self.append(seq).tables[seq].block_ids,
                self.tables[seq].total_tokens as int,
                layer,
                is_value,
            ),
    {
        let after = self.append(seq);
        let ids = self.tables[seq].block_ids;
        let ids2 = after.tables[seq].block_ids;
        let bs = self.block_size as int;
        let n = self.tables[seq].total_tokens as int;
        self.lemma_append_pool(seq, layer);
        self.lemma_all_held(seq);
        if self.append_takes_block(seq) {
            self.lemma_take_block_wf();
        }
        assert forall|i: int| 0 <= i < n implies #[trigger] after.pool->0.token_row(
            ids2,
            i,
            layer,
            is_value,
        ) == self.pool->0.token_row(ids, i, layer, is_value) by {
            self.lemma_token_place(seq, i);
            assert(self.reaches_token(seq, i));
            assert(ids.contains(ids[i / bs]));
            self.lemma_append_rows(seq, ids[i / bs] as int, layer, is_value, i % bs);
            if self.append_copies(seq) && i / bs == ids.len() - 1 {
                assert(ids2[i / bs] == self.next_free());
            } else {
                assert(ids2[i / bs] == ids[i / bs]);
            }
        }
        self.pool->0.lemma_gathered_frame(ids, after.pool->0, ids2, n, layer, is_value);
        after.lemma_all_held(seq);
    }

    /// The slot that a further token gets lies in a block of this sequence alone: the last
    /// of its table, counted once, and filled up to and with that slot.
    pub proof fn law_append_slot_is_private(self, seq: u64, other: u64)
        requires
            self.wf(),
            self.append_possible(seq),
            self.append_fits(seq),
            self.block_size > 0,
        ensures
            self.append_slot(seq).0 < self.total_blocks,
            self.append_slot(seq).1 < self.block_size,
            self.append(seq).last_block(seq) == self.append_slot(seq).0,
            self.append(seq).tables[seq].block_ids.len() > 0,
            self.append(seq).blocks[self.append_slot(seq).0 as int].ref_count == 1,
            !self.append(seq).blocks[self.append_slot(seq).0 as int].is_shared,
            self.append(seq).blocks[self.append_slot(seq).0 as int].num_tokens
                == self.append_slot(seq).1 + 1,
            other != seq && self.tables.contains_key(other) ==> !self.append(
                seq,
            ).tables[other].block_ids.contains(self.append_slot(seq).0),
    {
        self.lemma_append_wf(seq);
        let after = self.append(seq);
        let ids = self.tables[seq].block_ids;
        if ids.len() > 0 {
            assert(self.table_wf(seq, self.tables[seq]));
            self.lemma_held_is_counted(seq, ids.len() - 1);
            assert(self.block_wf(ids.last() as int));
        }
        if self.append_takes_block(seq) {
            self.lemma_take_block_wf();
        }
        let b = self.append_slot(seq).0;
        assert(after.tables[seq].block_ids.last() == b);
        assert(after.tables[seq].block_ids[after.tables[seq].block_ids.len() - 1] == b);
        assert(after.block_wf(b as int));
        if other != seq && self.tables.contains_key(other)
            && after.tables[other].block_ids.contains(b) {
            assert(after.tables.contains_key(other));
            assert(after.tables[seq].block_ids.contains(b));
            after.lemma_two_holders_share(seq, other, b);
        }
    }

    /// Where the tokens of a sequence lie without a gap, so they do after a further one,
    /// and its slot is where its position says.
    pub proof fn law_append_packs(self, seq: u64)
        requires
            self.wf(),
            self.append_possible(seq),
            self.append_fits(seq),
            self.block_size > 0,
            self.packed(seq),
        ensures
            self.append(seq).packed(seq),
            self.append_slot(seq).1 == self.tables[seq].total_tokens as int
                % self.block_size as int,
            self.append(seq).tables[seq].block_ids.len() == self.tables[seq].total_tokens as int
                / self.block_size as int + 1,
            self.append(seq).tables[seq].block_ids[self.tables[seq].total_tokens as int
                / self.block_size as int] == self.append_slot(seq).0,
    {
        let t = self.tables[seq];
        let ids = t.block_ids;
        let n = ids.len() as int;
        let bs = self.block_size as int;
        self.lemma_append_wf(seq);
        self.law_append_slot_is_private(seq, seq);
        assert(self.table_wf(seq, t));
        let after = self.append(seq);
        let slot = self.append_slot(seq).1 as int;
        let at = if self.append_takes_block(seq) && !self.append_copies(seq) {
            n
        } else {
            n - 1
        };
        if n > 0 {
            self.lemma_held_is_counted(seq, n - 1);
            assert(self.block_wf(ids.last() as int));
            assert((n - 1) * bs + bs == n * bs) by (nonlinear_arith);
        }
        assert(t.total_tokens == at * bs + slot);
        vstd::arithmetic::div_mod::lemma_fundamental_div_mod_converse(
            t.total_tokens as int,
            bs,
            at,
            slot,
        );
        let ids2 = after.tables[seq].block_ids;
        assert(ids2.len() == at + 1);
        assert(ids2[at] == ids2.last());
    }

    /// Writing the rows of a further token: the sequence then reads its earlier rows and,
    /// behind them, the new ones as stored.
    pub proof fn law_append_then_write(
        self,
        seq: u64,
        layer: int,
        k: Seq<u32>,
        v: Seq<u32>,
    )
        requires
            self.wf(),
            self.append_possible(seq),
            self.append_fits(seq),
            self.has_layer(layer),
            self.reached(seq),
            self.packed(seq),
            k.len() == self.pool->0.kv_dim(),
            v.len() == self.pool->0.kv_dim(),
        ensures
            self.append_written(seq, layer, k, v).sequence_rows(seq, layer, false)
                == self.sequence_rows(seq, layer, false) + k.map_values(
                |w: u32| as_stored(self.pool->0.config.dtype, w),
            ),
            self.append_written(seq, layer, k, v).sequence_rows(seq, layer, true)
                == self.sequence_rows(seq, layer, true) + v.map_values(
                |w: u32| as_stored(self.pool->0.config.dtype, w),
            ),
    {
        let after = self.append(seq);
        let (b, slot) = self.append_slot(seq);
        let bs = self.block_size as int;
        let n = self.tables[seq].total_tokens as int;
        let ids = after.tables[seq].block_ids;
        let pool = after.pool->0;
        let done = self.append_written(seq, layer, k, v);
        self.lemma_append_pool(seq, layer);
        self.law_append_packs(seq);
        self.law_append_slot_is_private(seq, seq);
        self.lemma_append_reached(seq);
        after.lemma_all_held(seq);
        assert(after.tables.contains_key(seq));
        assert(after.table_wf(seq, after.tables[seq]));
        pool.law_read_after_write(b as int, layer, slot as int, k, v);
        self.law_append_keeps_own_rows(seq, layer, false);
        self.law_append_keeps_own_rows(seq, layer, true);
        assert forall|i: int, is_value: bool| 0 <= i < n implies #[trigger] done.pool->0.token_row(
            ids,
            i,
            layer,
            is_value,
        ) == pool.token_row(ids, i, layer, is_value) by {
            after.lemma_token_place(seq, i);
            assert(after.reaches_token(seq, i));
            if i / bs == n / bs {
                vstd::arithmetic::div_mod::lemma_fundamental_div_mod(i, bs);
                vstd::arithmetic::div_mod::lemma_fundamental_div_mod(n, bs);
            } else {
                assert(ids[i / bs] != ids[n / bs]) by {
                    after.lemma_token_place(seq, n);
                }
            }
            pool.law_write_keeps_other_rows(
                b as int,
                layer,
                slot as int,
                k,
                v,
                ids[i / bs] as int,
                layer,
                is_value,
                i % bs,
            );
        }
        pool.lemma_gathered_frame(ids, done.pool->0, ids, n, layer, false);
        pool.lemma_gathered_frame(ids, done.pool->0, ids, n, layer, true);
        assert(done.pool->0.held_tokens(ids.len() as int, n + 1) == n + 1);
    }

    /// The state after a token was appended to `seq` and its rows were written into the
    /// slot that it got.
    pub open spec fn append_written(self, seq: u64, layer: int, k: Seq<u32>, v: Seq<u32>) -> KvState {
        let (b, slot) = self.append_slot(seq);
        self.append(seq).with_pool(
            self.append(seq).pool->0.write_token(b as int, layer, slot as int, k, v),
        )
    }

    /// Rows that go to a block that a sequence does not hold leave its rows, in every layer,
    /// as they were.
    pub proof fn law_write_isolates(
        self,
        place: (usize, usize),
        layer: int,
        k: Seq<u32>,
        v: Seq<u32>,
        other: u64,
        layer2: int,
        is_value: bool,
    )
        requires
            self.wf(),
            self.has_layer(layer),
            self.has_layer(layer2),
            self.pool_reaches(place.0 as int),
            place.1 < self.block_size,
            k.len() == self.pool->0.kv_dim(),
            v.len() == self.pool->0.kv_dim(),
            self.tables.contains_key(other),
            self.reached(other),
            !self.tables[other].block_ids.contains(place.0),
        ensures
            self.with_pool(
                self.pool->0.write_token(place.0 as int, layer, place.1 as int, k, v),
            ).sequence_rows(other, layer2, is_value) == self.sequence_rows(
                other,
                layer2,
                is_value,
            ),
    {
        let bs = self.block_size as int;
        let ids = self.tables[other].block_ids;
        let n = self.tables[other].total_tokens as int;
        let pool = self.pool->0;
        let done = pool.write_token(place.0 as int, layer, place.1 as int, k, v);
        self.lemma_all_held(other);
        assert forall|i: int| 0 <= i < n implies #[trigger] done.token_row(
            ids,
            i,
            layer2,
            is_value,
        ) == pool.token_row(ids, i, layer2, is_value) by {
            self.lemma_token_place(other, i);
            assert(self.reaches_token(other, i));
            assert(ids.contains(ids[i / bs]));
            pool.law_write_keeps_other_rows(
                place.0 as int,
                layer,
                place.1 as int,
                k,
                v,
                ids[i / bs] as int,
                layer2,
                is_value,
                i % bs,
            );
        }
        pool.lemma_gathered_frame(ids, done, ids, n, layer2, is_value);
    }

    /// Writing the rows of a further token of one sequence, in any layer, leaves the rows
    /// of every other sequence, in every layer, as they were.
    pub proof fn law_append_then_write_isolates(
        self,
        seq: u64,
        layer: int,
        k: Seq<u32>,
        v: Seq<u32>,
        other: u64,
        layer2: int,
        is_value: bool,
    )
        requires
            self.wf(),
            self.append_possible(seq),
            self.append_fits(seq),
            self.has_layer(layer),
            self.has_layer(layer2),
            k.len() == self.pool->0.kv_dim(),
            v.len() == self.pool->0.kv_dim(),
            self.pool_reaches(self.append_slot(seq).0 as int),
            self.tables.contains_key(other),
            self.reached(other),
            other != seq,
        ensures
            self.append_written(seq, layer, k, v).sequence_rows(other, layer2, is_value)
                == self.sequence_rows(other, layer2, is_value),
    {
        self.lemma_append_pool(seq, layer);
        self.law_append_isolates(seq, other, layer2, is_value);
        self.law_append_slot_is_private(seq, other);
        assert(self.append(seq).reached(other)) by {
            assert forall|i: int| 0 <= i < self.append(seq).tables[other].total_tokens implies
                #[trigger] self.append(seq).reaches_token(other, i) by {
                assert(self.reaches_token(other, i));
            }
        }
        self.append(seq).law_write_isolates(
            self.append_slot(seq),
            layer,
            k,
            v,
            other,
            layer2,
            is_value,
        );
    }

    /// Letting go of a branch right after making it gives back the state before.
    pub proof fn law_fork_then_free(self, parent: u64, child: u64)
        requires
            self.wf(),
            self.tables.contains_key(parent),
            self.fork_fits(parent),
            !self.tables.contains_key(child),
        ensures
            self.fork(parent, child).free_sequence(child) == self,
    {
        let forked = self.fork(parent, child);
        let back = forked.free_sequence(child);
        let ids = self.tables[parent].block_ids;
        assert(self.table_wf(parent, self.tables[parent]));
        assert forall|b: int| 0 <= b < self.total_blocks implies back.blocks[b]
            == self.blocks[b] by {
            assert(self.block_wf(b));
            if ids.contains(b as usize) {
                let i = choose|i: int| 0 <= i < ids.len() && ids[i] == b as usize;
                self.lemma_held_is_counted(parent, i);
                assert(self.blocks[ids[i] as int].ref_count < usize::MAX);
            }
        }
        let pred = |b: usize| forked.blocks[b as int].ref_count == 1;
        assert forall|i: int| 0 <= i < ids.len() implies !pred(#[trigger] ids[i]) by {
            self.lemma_held_is_counted(parent, i);
            assert(ids.contains(ids[i]));
        }
        lemma_filter_none(ids, pred);
        assert(back.free =~= self.free);
        assert(back.blocks =~= self.blocks);
        assert(back.tables =~= self.tables);
    }

    /// Letting go of one sequence leaves every other table and all stored rows alone.
    pub proof fn law_free_keeps_others(
        self,
        seq: u64,
        other: u64,
        layer: int,
        is_value: bool,
    )
        requires
            self.wf(),
            other != seq,
        ensures
            !self.free_sequence(seq).tables.contains_key(seq),
            self.free_sequence(seq).tables.contains_key(other) == self.tables.contains_key(other),
            self.tables.contains_key(other) ==> self.free_sequence(seq).tables[other]
                == self.tables[other],
            self.free_sequence(seq).pool == self.pool,
            self.tables.contains_key(other) ==> self.free_sequence(seq).sequence_rows(
                other,
                layer,
                is_value,
            ) == self.sequence_rows(other, layer, is_value),
    {
    }

    /// Letting go of a sequence gives back at once every block that it alone counts, and no
    /// block that another counts.
    pub proof fn law_free_reclaims_private(self, seq: u64, b: usize)
        requires
            self.wf(),
            self.tables.contains_key(seq),
            self.tables[seq].block_ids.contains(b),
        ensures
            self.free_sequence(seq).free.contains(b) == (self.blocks[b as int].ref_count == 1),
            self.blocks[b as int].ref_count > 1 ==> self.free_sequence(
                seq,
            ).blocks[b as int].ref_count == self.blocks[b as int].ref_count - 1,
    {
        let ids = self.tables[seq].block_ids;
        let i = choose|i: int| 0 <= i < ids.len() && ids[i] == b;
        self.lemma_held_is_counted(seq, i);
        self.lemma_free_sequence_wf(seq);
        assert(self.free_sequence(seq).block_wf(b as int));
    }

    /// A further token of a sequence whose last block is shared and has room goes to a copy of
    /// it: one block is taken, the copy takes its place in the table, and the block that was
    /// shared loses a holder.
    pub proof fn law_append_copies_shared_tail(self, seq: u64)
        requires
            self.wf(),
            self.append_possible(seq),
            self.append_fits(seq),
            self.append_copies(seq),
        ensures
            self.append(seq).cow_faults == self.cow_faults + 1,
            self.append(seq).free == self.free.drop_last(),
            self.append(seq).last_block(seq) == self.next_free(),
            self.append(seq).last_block(seq) != self.last_block(seq),
            self.append(seq).tables[seq].block_ids.drop_last()
                == self.tables[seq].block_ids.drop_last(),
            self.append(seq).blocks[self.last_block(seq) as int].ref_count
                == self.blocks[self.last_block(seq) as int].ref_count - 1,
            self.append(seq).blocks[self.last_block(seq) as int].num_tokens
                == self.blocks[self.last_block(seq) as int].num_tokens,
    {
        let ids = self.tables[seq].block_ids;
        self.lemma_take_block_wf();
        self.lemma_held_is_counted(seq, ids.len() - 1);
        assert(ids.contains(ids[ids.len() - 1]));
        assert(self.block_wf(ids.last() as int));
        assert(ids.drop_last().push(self.next_free()).drop_last() =~= ids.drop_last());
    }

    /// The blocks of a new sequence were free, so no other sequence holds them, and
    /// letting go of it gives every one of them back.
    pub proof fn law_allocate_then_free(self, seq: u64, tokens: int)
        requires
            self.wf(),
            self.block_size > 0,
            0 <= tokens <= usize::MAX,
            !self.tables.contains_key(seq),
            self.blocks_needed(tokens) <= self.free.len(),
        ensures
            self.allocate(seq, tokens).free_sequence(seq).free.to_multiset()
                == self.free.to_multiset(),
            self.allocate(seq, tokens).free_sequence(seq).blocks == self.blocks,
            self.allocate(seq, tokens).free_sequence(seq).tables == self.tables,
            self.allocate(seq, tokens).free_sequence(seq).cow_faults == self.cow_faults,
    {
        broadcast use vstd::seq_lib::group_to_multiset_ensures;

        let count = self.blocks_needed(tokens);
        self.lemma_blocks_needed(tokens);
        self.lemma_fill_blocks(tokens, count);
        self.lemma_allocate_wf(seq, tokens);
        let held = self.allocate(seq, tokens);
        let back = held.free_sequence(seq);
        let ids = self.next_blocks(count);
        let m = self.free.len() as int;
        let pred = |b: usize| held.blocks[b as int].ref_count == 1;
        assert forall|i: int| 0 <= i < ids.len() implies pred(#[trigger] ids[i]) by {
            assert(ids[i] == self.next_blocks(count)[i]);
        }
        lemma_filter_all(ids, pred);
        assert(back.free == self.free.take(m - count) + ids);
        let tail = self.free.skip(m - count);
        assert(ids =~= tail.reverse());
        lemma_reverse_multiset(tail);
        vstd::seq_lib::lemma_multiset_commutative(self.free.take(m - count), ids);
        vstd::seq_lib::lemma_multiset_commutative(self.free.take(m - count), tail);
        assert(self.free =~= self.free.take(m - count) + tail);
        assert forall|b: int| 0 <= b < self.total_blocks implies back.blocks[b]
            == self.blocks[b] by {
            assert(self.block_wf(b));
            if ids.contains(b as usize) {
                let i = choose|i: int| 0 <= i < ids.len() && ids[i] == b as usize;
                assert(self.next_blocks(count)[i] == b as usize);
                assert(self.free[m - 1 - i] == b as usize);
                assert(self.free.contains(b as usize));
            }
        }
        assert(back.blocks =~= self.blocks);
        assert(back.tables =~= self.tables);
    }

    /// Taking back a token changes one count only.
    pub proof fn law_rollback_after_append(self, seq: u64)
        requires
            self.wf(),
            self.append_possible(seq),
            self.append_fits(seq),
        ensures
            self.append(seq).rollback(seq).tables[seq].total_tokens
                == self.tables[seq].total_tokens,
            self.append(seq).rollback(seq).tables[seq].block_ids
                == self.append(seq).tables[seq].block_ids,
            self.append(seq).rollback(seq).blocks == self.append(seq).blocks,
            self.append(seq).rollback(seq).free == self.append(seq).free,
            self.append(seq).rollback(seq).pool == self.append(seq).pool,
    {
    }

    /// With no sequence left, and every count that of the tables, all blocks are free.
    pub proof fn law_no_leak(self)
        requires
            self.wf(),
            self.counts_exact(),
            self.tables.dom().is_empty(),
        ensures
            self.free.len() == self.total_blocks,
            self.free.to_set() == Set::new(|b: usize| b < self.total_blocks),
    {
        assert forall|b: usize| b < self.total_blocks implies self.free.contains(b) by {
            assert(holders(self.tables, b) =~= Set::<u64>::empty());
            assert(self.blocks[b as int].ref_count == 0);
            assert(self.block_wf(b as int));
        }
        assert(self.free.to_set() =~= Set::new(|b: usize| b < self.total_blocks));
        let ids = self.free.map_values(|b: usize| b as int);
        assert(ids.no_duplicates());
        ids.unique_seq_to_set();
        vstd::set_lib::lemma_int_range(0, self.total_blocks as int);
        let range = vstd::set_lib::set_int_range(0, self.total_blocks as int);
        assert(ids.to_set() =~= range) by {
            assert forall|x: int| range.contains(x) implies ids.to_set().contains(x) by {
                assert(self.free.contains(x as usize));
                let i = choose|i: int| 0 <= i < self.free.len() && self.free[i] == x as usize;
                assert(ids[i] == x);
            }
            assert forall|x: int| ids.to_set().contains(x) implies range.contains(x) by {
                let i = choose|i: int| 0 <= i < ids.len() && ids[i] == x;
                assert(self.free[i] < self.total_blocks);
            }
        }
    }

    /// Allocating keeps the counts exact.
    pub proof fn law_allocate_counts(self, seq: u64, tokens: int)
        requires
            self.wf(),
            self.counts_exact(),
            self.block_size > 0,
            0 <= tokens <= usize::MAX,
            !self.tables.contains_key(seq),
            self.blocks_needed(tokens) <= self.free.len(),
        ensures
            self.allocate(seq, tokens).counts_exact(),
    {
        let count = self.blocks_needed(tokens);
        self.lemma_blocks_needed(tokens);
        self.lemma_fill_blocks(tokens, count);
        let held = self.allocate(seq, tokens);
        let filled = self.fill_blocks(tokens, count);
        let ids = self.next_blocks(count);
        let m = self.free.len() as int;
        assert(self.tables.remove(seq) =~= self.tables);
        assert forall|b: int| 0 <= b < held.total_blocks implies holders(
            held.tables,
            b as usize,
        ).len() == #[trigger] held.blocks[b].ref_count by {
            lemma_holders_insert(self.tables, seq, held.tables[seq], b as usize);
            assert(holders(self.tables, b as usize).len() == self.blocks[b].ref_count);
            if ids.contains(b as usize) {
                let i = choose|i: int| 0 <= i < ids.len() && ids[i] == b as usize;
                assert(self.next_blocks(count)[i] == b as usize);
                assert(self.free[m - 1 - i] == b as usize);
                assert(self.free.contains(b as usize));
                assert(self.block_wf(b));
            } else {
                assert(filled.blocks[b] == self.blocks[b]);
            }
        }
    }

    /// A branch under a new name keeps the counts exact.
    pub proof fn law_fork_counts(self, parent: u64, child: u64)
        requires
            self.wf(),
            self.counts_exact(),
            self.tables.contains_key(parent),
            self.fork_fits(parent),
            !self.tables.contains_key(child),
        ensures
            self.fork(parent, child).counts_exact(),
    {
        let forked = self.fork(parent, child);
        let ids = self.tables[parent].block_ids;
        assert(self.tables.remove(child) =~= self.tables);
        assert forall|b: int| 0 <= b < forked.total_blocks implies holders(
            forked.tables,
            b as usize,
        ).len() == #[trigger] forked.blocks[b].ref_count by {
            lemma_holders_insert(self.tables, child, forked.tables[child], b as usize);
            assert(holders(self.tables, b as usize).len() == self.blocks[b].ref_count);
            if ids.contains(b as usize) {
                let i = choose|i: int| 0 <= i < ids.len() && ids[i] == b as usize;
                assert(self.blocks[ids[i] as int].ref_count < usize::MAX);
            }
        }
    }

    /// A further token keeps the counts exact.
    pub proof fn law_append_counts(self, seq: u64)
        requires
            self.wf(),
            self.counts_exact(),
            self.append_possible(seq),
            self.append_fits(seq),
        ensures
            self.append(seq).counts_exact(),
    {
        let after = self.append(seq);
        let ids = self.tables[seq].block_ids;
        let ids2 = after.tables[seq].block_ids;
        let n = ids.len() as int;
        assert(self.table_wf(seq, self.tables[seq]));
        if n > 0 {
            self.lemma_held_is_counted(seq, n - 1);
            assert(self.block_wf(ids.last() as int));
        }
        if self.append_takes_block(seq) {
            self.lemma_take_block_wf();
        }
        let new = self.next_free();
        assert forall|b: int| 0 <= b < after.total_blocks implies holders(
            after.tables,
            b as usize,
        ).len() == #[trigger] after.blocks[b].ref_count by {
            lemma_holders_remove(self.tables, seq, b as usize);
            lemma_holders_insert(self.tables, seq, after.tables[seq], b as usize);
            assert(holders(self.tables, b as usize).len() == self.blocks[b].ref_count);
            if self.append_takes_block(seq) {
                if b as usize == new {
                    assert(ids2[ids2.len() - 1] == new);
                } else if self.append_copies(seq) {
                    lemma_replaced_last(ids, new, b as usize);
                } else {
                    vstd::seq_lib::lemma_seq_contains_after_push(ids, new, b as usize);
                }
            }
        }
    }

    /// Letting go of a sequence keeps the counts exact.
    pub proof fn law_free_counts(self, seq: u64)
        requires
            self.wf(),
            self.counts_exact(),
        ensures
            self.free_sequence(seq).counts_exact(),
    {
        if self.tables.contains_key(seq) {
            let after = self.free_sequence(seq);
            let ids = self.tables[seq].block_ids;
            assert forall|b: int| 0 <= b < after.total_blocks implies holders(
                after.tables,
                b as usize,
            ).len() == #[trigger] after.blocks[b].ref_count by {
                lemma_holders_remove(self.tables, seq, b as usize);
                assert(holders(self.tables, b as usize).len() == self.blocks[b].ref_count);
            }
        }
    }
}

/// Where nothing passes, nothing is left.
proof fn lemma_filter_none(s: Seq<usize>, pred: spec_fn(usize) -> bool)
    requires
        forall|i: int| 0 <= i < s.len() ==> !pred(#[trigger] s[i]),
    ensures
        s.filter(pred) == Seq::<usize>::empty(),
    decreases s.len(),
{
    reveal(Seq::filter);
    if s.len() > 0 {
        let rest = s.drop_last();
        assert forall|i: int| 0 <= i < rest.len() implies !pred(#[trigger] rest[i]) by {
            assert(rest[i] == s[i]);
        }
        lemma_filter_none(rest, pred);
        assert(!pred(s[s.len() - 1]));
    }
}

/// Where everything passes, everything is left.
proof fn lemma_filter_all(s: Seq<usize>, pred: spec_fn(usize) -> bool)
    requires
        forall|i: int| 0 <= i < s.len() ==> pred(#[trigger] s[i]),
    ensures
        s.filter(pred) == s,
    decreases s.len(),
{
    reveal(Seq::filter);
    if s.len() > 0 {
        let rest = s.drop_last();
        assert forall|i: int| 0 <= i < rest.len() implies pred(#[trigger] rest[i]) by {
            assert(rest[i] == s[i]);
        }
        lemma_filter_all(rest, pred);
        assert(pred(s[s.len() - 1]));
        assert(s =~= rest.push(s.last()));
    }
}

/// Reversing keeps the members.
proof fn lemma_reverse_multiset(s: Seq<usize>)
    ensures
        s.reverse().to_multiset() == s.to_multiset(),
    decreases s.len(),
{
    broadcast use vstd::seq_lib::group_to_multiset_ensures;

    if s.len() == 0 {
        assert(s.reverse() =~= s);
    } else {
        let rest = s.drop_last();
        lemma_reverse_multiset(rest);
        assert(s =~= rest.push(s.last()));
        assert(s.reverse() =~= seq![s.last()] + rest.reverse());
        vstd::seq_lib::lemma_multiset_commutative(seq![s.last()], rest.reverse());
        assert(seq![s.last()] =~= Seq::<usize>::empty().push(s.last()));
        assert(s.reverse().to_multiset() =~= s.to_multiset());
    }
}

/// What a table holds whose last block was replaced.
proof fn lemma_replaced_last(ids: Seq<usize>, new: usize, b: usize)
    requires
        ids.len() > 0,
        ids.no_duplicates(),
        b != new,
    ensures
        ids.drop_last().push(new).contains(b) == (ids.contains(b) && b != ids.last()),
{
    let ids2 = ids.drop_last().push(new);
    if ids2.contains(b) {
        let i = choose|i: int| 0 <= i < ids2.len() && ids2[i] == b;
        assert(ids[i] == b);
        assert(ids[i] != ids[ids.len() - 1]);
    }
    if ids.contains(b) && b != ids.last() {
        let i = choose|i: int| 0 <= i < ids.len() && ids[i] == b;
        assert(ids2[i] == b);
    }
}

} // verus!
