//! Proofs about the manager's state: the invariant is kept by every operation, and
//! what sharing and copy-on-write promise to the other sequences.

use crate::kv_state::{at_most, div_ceil, holders, KvBlock, KvState, TableState};
use crate::pool::PoolState;
use vstd::prelude::*;

verus! {

broadcast use vstd::set::group_set_axioms;

/// Letting go of a table takes its sequence out of every block's holders.
pub proof fn lemma_holders_remove(tables: Map<u64, TableState>, seq: u64, b: usize)
    requires
        tables.dom().finite(),
    ensures
        holders(tables, b).finite(),
        holders(tables.remove(seq), b) == holders(tables, b).remove(seq),
        holders(tables.remove(seq), b).len() == holders(tables, b).len() - if tables.contains_key(
            seq,
        ) && tables[seq].block_ids.contains(b) {
            1int
        } else {
            0
        },
{
    assert(holders(tables, b).subset_of(tables.dom()));
    vstd::set_lib::lemma_set_subset_finite(tables.dom(), holders(tables, b));
    assert(holders(tables.remove(seq), b) =~= holders(tables, b).remove(seq));
}

/// Giving a sequence a table changes its membership alone.
pub proof fn lemma_holders_insert(tables: Map<u64, TableState>, seq: u64, t: TableState, b: usize)
    requires
        tables.dom().finite(),
    ensures
        holders(tables.insert(seq, t), b).finite(),
        holders(tables.insert(seq, t), b).len() == holders(tables.remove(seq), b).len()
            + if t.block_ids.contains(b) {
            1int
        } else {
            0
        },
{
    lemma_holders_remove(tables, seq, b);
    let rest = holders(tables.remove(seq), b);
    if t.block_ids.contains(b) {
        assert(holders(tables.insert(seq, t), b) =~= rest.insert(seq));
    } else {
        assert(holders(tables.insert(seq, t), b) =~= rest);
    }
}

impl KvState {
    /// A block in some table is counted.
    pub proof fn lemma_held_is_counted(self, seq: u64, i: int)
        requires
            self.wf(),
            self.tables.contains_key(seq),
            0 <= i < self.tables[seq].block_ids.len(),
        ensures
            self.tables[seq].block_ids[i] < self.total_blocks,
            self.blocks[self.tables[seq].block_ids[i] as int].ref_count >= 1,
            !self.free.contains(self.tables[seq].block_ids[i]),
    {
        let b = self.tables[seq].block_ids[i];
        assert(self.table_wf(seq, self.tables[seq]));
        assert(self.block_wf(b as int));
        lemma_holders_remove(self.tables, seq, b);
        assert(self.tables[seq].block_ids.contains(b));
    }

    /// A block held by two sequences is marked shared.
    pub proof fn lemma_two_holders_share(self, s1: u64, s2: u64, b: usize)
        requires
            self.wf(),
            self.tables.contains_key(s1),
            self.tables.contains_key(s2),
            s1 != s2,
            self.tables[s1].block_ids.contains(b),
            self.tables[s2].block_ids.contains(b),
        ensures
            b < self.total_blocks,
            self.blocks[b as int].ref_count >= 2,
            self.blocks[b as int].is_shared,
    {
        let i = choose|i: int|
            0 <= i < self.tables[s1].block_ids.len() && self.tables[s1].block_ids[i] == b;
        self.lemma_held_is_counted(s1, i);
        assert(self.block_wf(b as int));
        lemma_holders_remove(self.tables, s1, b);
        lemma_holders_remove(self.tables.remove(s1), s2, b);
    }

    /// A free block is in no table.
    pub proof fn lemma_free_is_unheld(self, b: usize, seq: u64)
        requires
            self.wf(),
            self.free.contains(b),
        ensures
            b < self.total_blocks,
            self.tables.contains_key(seq) ==> !self.tables[seq].block_ids.contains(b),
    {
        let i = choose|i: int| 0 <= i < self.free.len() && self.free[i] == b;
        assert(self.free[i] < self.total_blocks);
        if self.tables.contains_key(seq) && self.tables[seq].block_ids.contains(b) {
            let j = choose|j: int|
                0 <= j < self.tables[seq].block_ids.len() && self.tables[seq].block_ids[j] == b;
            self.lemma_held_is_counted(seq, j);
        }
    }

    /// A fresh manager meets the invariant.
    pub proof fn lemma_fresh_wf(total_blocks: usize, block_size: usize)
        ensures
            KvState::fresh(total_blocks, block_size).wf(),
            KvState::fresh(total_blocks, block_size).counts_exact(),
    {
        let s = KvState::fresh(total_blocks, block_size);
        assert forall|b: int| 0 <= b < total_blocks implies #[trigger] s.block_wf(b) by {
            assert(s.free[total_blocks - 1 - b] == b as usize);
            assert(holders(s.tables, b as usize) =~= Set::<u64>::empty());
        }
        assert forall|b: int| 0 <= b < total_blocks implies holders(s.tables, b as usize).len()
            == #[trigger] s.blocks[b].ref_count by {
            assert(holders(s.tables, b as usize) =~= Set::<u64>::empty());
        }
    }

    /// Attaching a pool keeps the invariant.
    pub proof fn lemma_with_pool_wf(self, pool: PoolState)
        requires
            pool.wf(),
        ensures
            self.wf() ==> self.with_pool(pool).wf(),
            self.counts_exact() ==> self.with_pool(pool).counts_exact(),
    {
        let after = self.with_pool(pool);
        if self.wf() {
            assert forall|b: int| 0 <= b < after.total_blocks implies #[trigger] after.block_wf(
                b,
            ) by {
                assert(self.block_wf(b));
            }
            assert forall|s: u64| #[trigger] after.tables.contains_key(s) implies after.table_wf(
                s,
                after.tables[s],
            ) by {
                self.lemma_table_frame(after, s);
            }
        }
        if self.counts_exact() {
            assert forall|b: int| 0 <= b < after.total_blocks implies holders(
                after.tables,
                b as usize,
            ).len() == #[trigger] after.blocks[b].ref_count by {
                assert(self.blocks[b] == after.blocks[b]);
            }
        }
    }

    /// There are at most as many free blocks as blocks.
    pub proof fn lemma_free_fits(self)
        requires
            self.wf(),
        ensures
            self.free.len() <= self.total_blocks,
    {
        let ids = self.free.map_values(|b: usize| b as int);
        assert(ids.no_duplicates());
        ids.unique_seq_to_set();
        let range = vstd::set_lib::set_int_range(0, self.total_blocks as int);
        vstd::set_lib::lemma_int_range(0, self.total_blocks as int);
        assert(ids.to_set().subset_of(range)) by {
            assert forall|x: int| ids.to_set().contains(x) implies range.contains(x) by {
                let i = choose|i: int| 0 <= i < ids.len() && ids[i] == x;
                assert(self.free[i] < self.total_blocks);
            }
        }
        vstd::set_lib::lemma_len_subset(ids.to_set(), range);
    }

    /// Taking a free block keeps the invariant.
    pub proof fn lemma_take_block_wf(self)
        requires
            self.wf(),
            self.free.len() > 0,
        ensures
            self.take_block().wf(),
            self.next_free() < self.total_blocks,
            self.blocks[self.next_free() as int].ref_count == 0,
            forall|s: u64| #[trigger]
                self.tables.contains_key(s) ==> !self.tables[s].block_ids.contains(
                    self.next_free(),
                ),
    {
        let b = self.next_free();
        let after = self.take_block();
        assert(self.free[self.free.len() - 1] < self.total_blocks);
        assert(self.free.contains(b));
        assert(self.block_wf(b as int));
        assert forall|s: u64| #[trigger] self.tables.contains_key(s) implies !self.tables[s].block_ids.contains(
            b,
        ) by {
            self.lemma_free_is_unheld(b, s);
        }
        assert(after.free.no_duplicates());
        assert forall|x: int| 0 <= x < self.total_blocks implies #[trigger] after.block_wf(x) by {
            assert(self.block_wf(x));
            if x == b {
                if after.free.contains(b) {
                    let i = choose|i: int| 0 <= i < after.free.len() && after.free[i] == b;
                    assert(self.free[i] == self.free[self.free.len() - 1]);
                }
            } else if self.free.contains(x as usize) {
                let i = choose|i: int| 0 <= i < self.free.len() && self.free[i] == x as usize;
                assert(after.free[i] == x as usize);
            } else if after.free.contains(x as usize) {
                let i = choose|i: int| 0 <= i < after.free.len() && after.free[i] == x as usize;
                assert(self.free[i] == x as usize);
            }
        }
        assert forall|s: u64| #[trigger] after.tables.contains_key(s) implies after.table_wf(
            s,
            after.tables[s],
        ) by {
            self.lemma_table_frame(after, s);
        }
    }

    /// A table stays well-formed where the fill of its blocks stays.
    proof fn lemma_table_frame(self, after: KvState, s: u64)
        requires
            self.wf(),
            self.tables.contains_key(s),
            after.total_blocks == self.total_blocks,
            after.block_size == self.block_size,
            forall|i: int|
                #![trigger self.tables[s].block_ids[i]]
                0 <= i < self.tables[s].block_ids.len()
                    ==> after.blocks[self.tables[s].block_ids[i] as int].num_tokens
                    == self.blocks[self.tables[s].block_ids[i] as int].num_tokens,
        ensures
            after.table_wf(s, self.tables[s]),
    {
        assert(self.table_wf(s, self.tables[s]));
        let ids = self.tables[s].block_ids;
        if ids.len() > 0 {
            assert(ids[ids.len() - 1] == ids.last());
        }
    }

    /// Filling a counted block that no table holds keeps the invariant.
    proof fn lemma_unheld_tokens_wf(self, b: usize, n: usize)
        requires
            self.wf(),
            b < self.total_blocks,
            self.blocks[b as int].ref_count >= 1,
            n <= self.slots(),
            forall|s: u64| #[trigger]
                self.tables.contains_key(s) ==> !self.tables[s].block_ids.contains(b),
        ensures
            self.with_block_tokens(b, n).wf(),
    {
        let after = self.with_block_tokens(b, n);
        assert forall|x: int| 0 <= x < self.total_blocks implies #[trigger] after.block_wf(x) by {
            assert(self.block_wf(x));
        }
        assert forall|s: u64| #[trigger] after.tables.contains_key(s) implies after.table_wf(
            s,
            after.tables[s],
        ) by {
            assert forall|i: int| 0 <= i < self.tables[s].block_ids.len() implies #[trigger] self.tables[s].block_ids[i]
                != b by {
                assert(self.tables[s].block_ids.contains(self.tables[s].block_ids[i]));
            }
            self.lemma_table_frame(after, s);
        }
    }

    /// Giving a sequence a table keeps the invariant, where each block of the table is
    /// counted once more than the other sequences hold it.
    proof fn lemma_with_table_wf(self, seq: u64, t: TableState)
        requires
            self.wf(),
            self.table_wf(seq, t),
            forall|i: int|
                #![trigger t.block_ids[i]]
                0 <= i < t.block_ids.len() ==> holders(
                    self.tables.remove(seq),
                    t.block_ids[i],
                ).len() + 1 <= self.blocks[t.block_ids[i] as int].ref_count,
        ensures
            self.with_table(seq, t).wf(),
    {
        let after = self.with_table(seq, t);
        assert forall|x: int| 0 <= x < self.total_blocks implies #[trigger] after.block_wf(x) by {
            assert(self.block_wf(x));
            lemma_holders_remove(self.tables, seq, x as usize);
            lemma_holders_insert(self.tables, seq, t, x as usize);
            if t.block_ids.contains(x as usize) {
                let i = choose|i: int|
                    0 <= i < t.block_ids.len() && t.block_ids[i] == x as usize;
                assert(t.block_ids[i] == x as usize);
            }
        }
        assert forall|s: u64| #[trigger] after.tables.contains_key(s) implies after.table_wf(
            s,
            after.tables[s],
        ) by {
            if s != seq {
                self.lemma_table_frame(after, s);
            }
        }
        assert(after.tables.dom() =~= self.tables.dom().insert(seq));
    }

    /// Each block of a table is counted once more than the other sequences hold it.
    proof fn lemma_own_share(self, seq: u64, i: int)
        requires
            self.wf(),
            self.tables.contains_key(seq),
            0 <= i < self.tables[seq].block_ids.len(),
        ensures
            holders(self.tables.remove(seq), self.tables[seq].block_ids[i]).len() + 1
                <= self.blocks[self.tables[seq].block_ids[i] as int].ref_count,
    {
        let b = self.tables[seq].block_ids[i];
        assert(self.table_wf(seq, self.tables[seq]));
        assert(self.block_wf(b as int));
        assert(self.tables[seq].block_ids.contains(b));
        lemma_holders_remove(self.tables, seq, b);
    }

    /// What taking and filling blocks leaves: the taken blocks hold the tokens from the
    /// front, and nothing else changes.
    pub proof fn lemma_fill_blocks(self, tokens: int, count: int)
        requires
            self.wf(),
            self.block_size > 0,
            0 <= count <= self.free.len(),
            0 <= tokens <= count * self.block_size,
            count > 0 ==> tokens > (count - 1) * self.block_size,
        ensures
            ({
                let after = self.fill_blocks(tokens, count);
                &&& after.wf()
                &&& after.total_blocks == self.total_blocks
                &&& after.block_size == self.block_size
                &&& after.tables == self.tables
                &&& after.cow_faults == self.cow_faults
                &&& after.free == self.free.take(self.free.len() - count)
                &&& forall|i: int|
                    #![trigger self.next_blocks(count)[i]]
                    0 <= i < count ==> {
                        let b = self.next_blocks(count)[i];
                        &&& b < self.total_blocks
                        &&& after.blocks[b as int] == (KvBlock {
                            block_id: b,
                            ref_count: 1,
                            num_tokens: at_most(
                                tokens - i * self.block_size,
                                self.block_size as int,
                            ) as usize,
                            is_shared: false,
                        })
                    }
                &&& forall|b: int|
                    #![trigger after.blocks[b]]
                    0 <= b < self.total_blocks && !self.next_blocks(count).contains(b as usize)
                        ==> after.blocks[b] == self.blocks[b]
            }),
        decreases count,
    {
        let bs = self.block_size as int;
        if count == 0 {
            assert(self.free.take(self.free.len() as int) =~= self.free);
        } else {
            let here = at_most(tokens, bs);
            let b = self.next_free();
            assert(1 <= here) by (nonlinear_arith)
                requires
                    here == at_most(tokens, bs),
                    bs >= 1,
                    count >= 1,
                    tokens > (count - 1) * bs,
            ;
            assert((count - 1) * bs + bs == count * bs) by (nonlinear_arith);
            assert(count > 1 ==> (count - 2) * bs + bs == (count - 1) * bs && (count - 1) * bs >= bs)
                by (nonlinear_arith)
                requires
                    bs >= 1,
            ;
            self.lemma_take_block_wf();
            let taken = self.take_block();
            taken.lemma_unheld_tokens_wf(b, here as usize);
            let next = taken.with_block_tokens(b, here as usize);
            next.lemma_fill_blocks(tokens - here, count - 1);
            let after = self.fill_blocks(tokens, count);
            assert(after == next.fill_blocks(tokens - here, count - 1));
            let mine = self.next_blocks(count);
            let rest = next.next_blocks(count - 1);
            assert(next.free == self.free.drop_last());
            assert forall|i: int| 0 <= i < count - 1 implies #[trigger] rest[i] == mine[i + 1] by {
            }
            assert(self.free.take(self.free.len() - count) =~= next.free.take(
                next.free.len() - (count - 1),
            ));
            assert(mine[0] == b);
            assert forall|i: int| 0 <= i < count - 1 implies #[trigger] rest[i] != b by {
                assert(self.free[self.free.len() - 2 - i] != self.free[self.free.len() - 1]);
            }
            assert(self.block_wf(b as int));
            assert(!rest.contains(b));
            assert(after.blocks[b as int] == next.blocks[b as int]);
            assert forall|i: int| #![trigger mine[i]] 0 <= i < count implies {
                let c = mine[i];
                &&& c < self.total_blocks
                &&& after.blocks[c as int] == (KvBlock {
                    block_id: c,
                    ref_count: 1,
                    num_tokens: at_most(tokens - i * bs, bs) as usize,
                    is_shared: false,
                })
            } by {
                if i > 0 {
                    assert(rest[i - 1] == mine[i]);
                    assert(count > 1);
                    assert(here == bs);
                    assert((i - 1) * bs + bs == i * bs) by (nonlinear_arith);
                }
            }
            assert forall|x: int|
                #![trigger after.blocks[x]]
                0 <= x < self.total_blocks && !mine.contains(x as usize) implies after.blocks[x]
                == self.blocks[x] by {
                if rest.contains(x as usize) {
                    let j = choose|j: int| 0 <= j < rest.len() && rest[j] == x as usize;
                    assert(mine[j + 1] == x as usize);
                }
                assert(x != b) by {
                    assert(mine[0] == b);
                }
            }
        }
    }

    /// One step of filling blocks keeps the invariant.
    pub proof fn lemma_fill_step_wf(self, tokens: int, count: int)
        requires
            self.wf(),
            self.block_size > 0,
            0 < count <= self.free.len(),
            (count - 1) * self.block_size < tokens,
        ensures
            self.take_block().with_block_tokens(
                self.next_free(),
                at_most(tokens, self.block_size as int) as usize,
            ).wf(),
    {
        assert(0 <= (count - 1) * self.block_size) by (nonlinear_arith)
            requires
                count >= 1,
        ;
        self.lemma_take_block_wf();
        self.take_block().lemma_unheld_tokens_wf(
            self.next_free(),
            at_most(tokens, self.block_size as int) as usize,
        );
    }

    /// The number of blocks that `tokens` tokens need.
    pub proof fn lemma_blocks_needed(self, tokens: int)
        requires
            self.block_size > 0,
            0 <= tokens,
        ensures
            0 <= self.blocks_needed(tokens),
            tokens <= self.blocks_needed(tokens) * self.block_size,
            self.blocks_needed(tokens) > 0 ==> tokens > (self.blocks_needed(tokens) - 1)
                * self.block_size,
            self.blocks_needed(tokens) <= tokens,
    {
        let bs = self.block_size as int;
        let c = div_ceil(tokens, bs);
        vstd::arithmetic::div_mod::lemma_fundamental_div_mod(tokens, bs);
        assert(0 <= tokens / bs <= tokens) by (nonlinear_arith)
            requires
                0 <= tokens,
                bs > 0,
        ;
        assert(tokens % bs == 0 ==> bs * c == c * bs && (c - 1) * bs == bs * c - bs)
            by (nonlinear_arith)
            requires
                bs > 0,
        ;
        assert((tokens / bs + 1) * bs == bs * (tokens / bs) + bs && (tokens / bs) * bs == bs * (
        tokens / bs)) by (nonlinear_arith);
        if tokens / bs == tokens && tokens % bs != 0 {
            assert(bs * tokens >= tokens) by (nonlinear_arith)
                requires
                    bs >= 1,
                    tokens >= 0,
            ;
            assert(false);
        }
    }

    /// Taking and filling blocks keeps the sizes, the tables and the shape of the tensor
    /// pool.
    pub proof fn lemma_fill_shape(self, tokens: int, count: int)
        ensures
            self.fill_blocks(tokens, count).total_blocks == self.total_blocks,
            self.fill_blocks(tokens, count).block_size == self.block_size,
            self.fill_blocks(tokens, count).tables == self.tables,
            self.fill_blocks(tokens, count).pool is Some == self.pool is Some,
            self.pool is Some ==> self.fill_blocks(tokens, count).pool->0.layout
                == self.pool->0.layout,
            self.pool is Some ==> self.fill_blocks(tokens, count).pool->0.config
                == self.pool->0.config,
        decreases count,
    {
        if count > 0 {
            let here = at_most(tokens, self.block_size as int);
            self.take_block().with_block_tokens(self.next_free(), here as usize).lemma_fill_shape(
                tokens - here,
                count - 1,
            );
        }
    }

    /// Allocating a sequence keeps the invariant and packs its tokens.
    pub proof fn lemma_allocate_wf(self, seq: u64, tokens: int)
        requires
            self.wf(),
            self.block_size > 0,
            0 <= tokens <= usize::MAX,
            !self.tables.contains_key(seq),
            self.blocks_needed(tokens) <= self.free.len(),
        ensures
            self.allocate(seq, tokens).wf(),
            self.allocate(seq, tokens).packed(seq),
    {
        let bs = self.block_size as int;
        let count = self.blocks_needed(tokens);
        self.lemma_blocks_needed(tokens);
        self.lemma_fill_blocks(tokens, count);
        let filled = self.fill_blocks(tokens, count);
        let t = TableState {
            sequence_id: seq,
            block_ids: self.next_blocks(count),
            total_tokens: tokens as usize,
        };
        let ids = t.block_ids;
        assert(ids.no_duplicates()) by {
            assert forall|i: int, j: int| 0 <= i < ids.len() && 0 <= j < ids.len() && i != j implies ids[i]
                != ids[j] by {
                assert(self.free[self.free.len() - 1 - i] != self.free[self.free.len() - 1 - j]);
            }
        }
        assert forall|i: int| #![trigger ids[i]] 0 <= i < ids.len() implies {
            &&& ids[i] < filled.total_blocks
            &&& filled.blocks[ids[i] as int].num_tokens >= 1
            &&& i < ids.len() - 1 ==> filled.blocks[ids[i] as int].num_tokens == bs
        } by {
            assert(ids[i] == self.next_blocks(count)[i]);
            assert(i * bs <= (count - 1) * bs) by (nonlinear_arith)
                requires
                    i <= count - 1,
                    bs >= 0,
            ;
            assert(i < count - 1 ==> i * bs + bs <= (count - 1) * bs) by (nonlinear_arith)
                requires
                    bs >= 0,
            ;
        }
        if count > 0 {
            assert(ids.last() == self.next_blocks(count)[count - 1]);
            assert((count - 1) * bs + bs == count * bs) by (nonlinear_arith);
        } else {
            assert(count * bs == 0) by (nonlinear_arith)
                requires
                    count == 0,
            ;
        }
        assert(filled.table_wf(seq, t));
        assert forall|i: int| #![trigger ids[i]] 0 <= i < ids.len() implies holders(
            filled.tables.remove(seq),
            ids[i],
        ).len() + 1 <= filled.blocks[ids[i] as int].ref_count by {
            assert(ids[i] == self.free[self.free.len() - 1 - i]);
            assert(self.free.contains(ids[i]));
            assert(ids[i] == self.next_blocks(count)[i]);
            assert(self.block_wf(ids[i] as int));
            lemma_holders_remove(self.tables, seq, ids[i]);
        }
        filled.lemma_with_table_wf(seq, t);
    }

    /// Forking keeps the invariant.
    pub proof fn lemma_fork_wf(self, parent: u64, child: u64)
        requires
            self.wf(),
            self.tables.contains_key(parent),
            forall|i: int|
                #![trigger self.tables[parent].block_ids[i]]
                0 <= i < self.tables[parent].block_ids.len()
                    ==> self.blocks[self.tables[parent].block_ids[i] as int].ref_count < usize::MAX,
        ensures
            self.fork(parent, child).wf(),
    {
        let after = self.fork(parent, child);
        let t = self.tables[parent];
        assert(self.table_wf(parent, t));
        assert forall|x: int| 0 <= x < self.total_blocks implies #[trigger] after.block_wf(x) by {
            assert(self.block_wf(x));
            lemma_holders_remove(self.tables, child, x as usize);
            lemma_holders_insert(
                self.tables,
                child,
                TableState { sequence_id: child, ..t },
                x as usize,
            );
            if t.block_ids.contains(x as usize) {
                let i = choose|i: int|
                    0 <= i < t.block_ids.len() && t.block_ids[i] == x as usize;
                self.lemma_held_is_counted(parent, i);
            }
        }
        assert forall|s: u64| #[trigger] after.tables.contains_key(s) implies after.table_wf(
            s,
            after.tables[s],
        ) by {
            if s == child {
                self.lemma_table_frame(after, parent);
            } else {
                self.lemma_table_frame(after, s);
            }
        }
        assert(after.tables.dom() =~= self.tables.dom().insert(child));
    }

    /// Taking back a token from a sequence's count keeps the invariant.
    pub proof fn lemma_rollback_wf(self, seq: u64)
        requires
            self.wf(),
            self.tables.contains_key(seq),
        ensures
            self.rollback(seq).wf(),
    {
        let t = self.rollback(seq).tables[seq];
        assert(self.table_wf(seq, self.tables[seq]));
        assert forall|i: int| #![trigger t.block_ids[i]] 0 <= i < t.block_ids.len() implies holders(
            self.tables.remove(seq),
            t.block_ids[i],
        ).len() + 1 <= self.blocks[t.block_ids[i] as int].ref_count by {
            self.lemma_own_share(seq, i);
        }
        self.lemma_with_table_wf(seq, t);
    }

    /// Letting go of a sequence keeps the invariant.
    pub proof fn lemma_free_sequence_wf(self, seq: u64)
        requires
            self.wf(),
        ensures
            self.free_sequence(seq).wf(),
    {
        if self.tables.contains_key(seq) {
            let after = self.free_sequence(seq);
            let ids = self.tables[seq].block_ids;
            let pred = |b: usize| self.blocks[b as int].ref_count == 1;
            let freed = ids.filter(pred);
            assert(self.table_wf(seq, self.tables[seq]));
            broadcast use vstd::seq_lib::group_filter_ensures;

            lemma_filter_keeps_distinct(ids, pred);
            assert forall|b: usize| #[trigger] freed.contains(b) == (ids.contains(b)
                && self.blocks[b as int].ref_count == 1) by {
                if freed.contains(b) {
                    let i = choose|i: int| 0 <= i < freed.len() && freed[i] == b;
                    assert(pred(freed[i]));
                    ids.lemma_filter_contains_rev(pred, b);
                }
                if ids.contains(b) && pred(b) {
                    let i = choose|i: int| 0 <= i < ids.len() && ids[i] == b;
                    assert(freed.contains(ids[i]));
                }
            }
            assert forall|b: usize| #[trigger] after.free.contains(b) == (self.free.contains(b)
                || freed.contains(b)) by {
                vstd::seq_lib::lemma_seq_concat_contains_all_elements(self.free, freed, b);
            }
            assert forall|i: int| 0 <= i < freed.len() implies !self.free.contains(
                #[trigger] freed[i],
            ) by {
                assert(freed.contains(freed[i]));
                let j = choose|j: int| 0 <= j < ids.len() && ids[j] == freed[i];
                self.lemma_held_is_counted(seq, j);
            }
            assert(after.free.no_duplicates()) by {
                assert forall|i: int, j: int|
                    0 <= i < after.free.len() && 0 <= j < after.free.len() && i
                        != j implies after.free[i] != after.free[j] by {
                    let n = self.free.len() as int;
                    if i < n && j >= n {
                        assert(after.free[j] == freed[j - n]);
                        assert(self.free.contains(self.free[i]));
                    } else if j < n && i >= n {
                        assert(after.free[i] == freed[i - n]);
                        assert(self.free.contains(self.free[j]));
                    } else if i >= n && j >= n {
                        assert(freed[i - n] != freed[j - n]);
                    }
                }
            }
            assert forall|i: int| 0 <= i < after.free.len() implies #[trigger] after.free[i]
                < self.total_blocks by {
                let n = self.free.len() as int;
                if i >= n {
                    assert(after.free[i] == freed[i - n]);
                    assert(freed.contains(freed[i - n]));
                    let j = choose|j: int| 0 <= j < ids.len() && ids[j] == freed[i - n];
                    self.lemma_held_is_counted(seq, j);
                } else {
                    assert(after.free[i] == self.free[i]);
                }
            }
            assert forall|x: int| 0 <= x < self.total_blocks implies #[trigger] after.block_wf(
                x,
            ) by {
                assert(self.block_wf(x));
                lemma_holders_remove(self.tables, seq, x as usize);
                if ids.contains(x as usize) {
                    let j = choose|j: int| 0 <= j < ids.len() && ids[j] == x as usize;
                    self.lemma_held_is_counted(seq, j);
                }
            }
            assert forall|s: u64| #[trigger] after.tables.contains_key(s) implies after.table_wf(
                s,
                after.tables[s],
            ) by {
                assert forall|i: int|
                    #![trigger self.tables[s].block_ids[i]]
                    0 <= i < self.tables[s].block_ids.len() implies after.blocks[self.tables[s].block_ids[i] as int].num_tokens
                    == self.blocks[self.tables[s].block_ids[i] as int].num_tokens by {
                    let b = self.tables[s].block_ids[i];
                    self.lemma_held_is_counted(s, i);
                    if ids.contains(b) {
                        assert(self.tables[s].block_ids.contains(b));
                        self.lemma_two_holders_share(s, seq, b);
                    }
                }
                self.lemma_table_frame(after, s);
            }
        }
    }

    /// Appending a token keeps the invariant.
    pub proof fn lemma_append_wf(self, seq: u64)
        requires
            self.wf(),
            self.append_possible(seq),
            self.append_fits(seq),
        ensures
            self.append(seq).wf(),
    {
        let t = self.tables[seq];
        let ids = t.block_ids;
        assert(self.table_wf(seq, t));
        if ids.len() > 0 {
            assert(ids[ids.len() - 1] == ids.last());
            self.lemma_held_is_counted(seq, ids.len() - 1);
            assert(self.block_wf(ids.last() as int));
        }
        if !self.append_takes_block(seq) {
            self.lemma_append_in_place_wf(seq);
        } else if self.append_copies(seq) {
            self.lemma_append_copy_wf(seq);
        } else {
            let new = self.next_free();
            self.lemma_take_block_wf();
            let taken = self.take_block();
            taken.lemma_unheld_tokens_wf(new, 1);
            let filled = taken.with_block_tokens(new, 1);
            let t2 = TableState {
                block_ids: ids.push(new),
                total_tokens: (t.total_tokens + 1) as usize,
                ..t
            };
            assert(!ids.contains(new));
            let n = ids.len() as int;
            assert forall|i: int| #![trigger t2.block_ids[i]] 0 <= i < t2.block_ids.len() implies {
                &&& t2.block_ids[i] < filled.total_blocks
                &&& filled.blocks[t2.block_ids[i] as int].num_tokens >= 1
                &&& i < t2.block_ids.len() - 1
                    ==> filled.blocks[t2.block_ids[i] as int].num_tokens == filled.slots()
                &&& holders(filled.tables.remove(seq), t2.block_ids[i]).len() + 1
                    <= filled.blocks[t2.block_ids[i] as int].ref_count
            } by {
                if i < n {
                    assert(t2.block_ids[i] == ids[i]);
                    assert(ids.contains(ids[i]));
                    self.lemma_own_share(seq, i);
                } else {
                    assert(self.block_wf(new as int)) by {
                        assert(self.free.contains(new)) by {
                            assert(self.free[self.free.len() - 1] == new);
                        }
                    }
                    lemma_holders_remove(self.tables, seq, new);
                }
            }
            assert((n - 1) * self.slots() + self.slots() == n * self.slots()) by (nonlinear_arith);
            assert(t2.block_ids.last() == new);
            assert(filled.table_wf(seq, t2));
            filled.lemma_with_table_wf(seq, t2);
        }
    }

    proof fn lemma_append_in_place_wf(self, seq: u64)
        requires
            self.wf(),
            self.append_possible(seq),
            self.append_fits(seq),
            !self.append_takes_block(seq),
        ensures
            self.append(seq).wf(),
    {
        let t = self.tables[seq];
        let ids = t.block_ids;
        let n = ids.len() as int;
        let last = ids.last();
        assert(self.table_wf(seq, t));
        assert(ids[n - 1] == last);
        self.lemma_held_is_counted(seq, n - 1);
        assert(self.block_wf(last as int));
        let mid = self.with_block_tokens(last, (self.blocks[last as int].num_tokens + 1) as usize);
        assert forall|x: int| 0 <= x < self.total_blocks implies #[trigger] mid.block_wf(x) by {
            assert(self.block_wf(x));
        }
        assert forall|s: u64| #[trigger] mid.tables.contains_key(s) implies mid.table_wf(
            s,
            mid.tables[s],
        ) by {
            if s != seq {
                assert forall|i: int|
                    #![trigger self.tables[s].block_ids[i]]
                    0 <= i < self.tables[s].block_ids.len() implies self.tables[s].block_ids[i]
                    != last by {
                    if self.tables[s].block_ids[i] == last {
                        assert(self.tables[s].block_ids.contains(last));
                        assert(ids.contains(last));
                        self.lemma_two_holders_share(s, seq, last);
                    }
                }
                self.lemma_table_frame(mid, s);
            } else {
                assert forall|i: int| #![trigger ids[i]] 0 <= i < n - 1 implies ids[i] != last by {
                    assert(ids[i] != ids[n - 1]);
                }
            }
        }
        assert(mid.wf());
        let t2 = TableState { total_tokens: (t.total_tokens + 1) as usize, ..t };
        assert(mid.table_wf(seq, t)) by {
            assert(mid.tables.contains_key(seq));
        }
        assert(mid.stored_tokens(t2) == self.stored_tokens(t) + 1);
        assert(mid.table_wf(seq, t2));
        assert forall|i: int| #![trigger t2.block_ids[i]] 0 <= i < t2.block_ids.len() implies holders(
            mid.tables.remove(seq),
            t2.block_ids[i],
        ).len() + 1 <= mid.blocks[t2.block_ids[i] as int].ref_count by {
            self.lemma_own_share(seq, i);
        }
        mid.lemma_with_table_wf(seq, t2);
    }

    proof fn lemma_append_copy_wf(self, seq: u64)
        requires
            self.wf(),
            self.append_possible(seq),
            self.append_fits(seq),
            self.append_copies(seq),
        ensures
            self.append(seq).wf(),
    {
        let t = self.tables[seq];
        let ids = t.block_ids;
        let n = ids.len() as int;
        let last = ids.last();
        let new = self.next_free();
        assert(self.table_wf(seq, t));
        assert(ids[n - 1] == last);
        self.lemma_held_is_counted(seq, n - 1);
        assert(self.block_wf(last as int));
        self.lemma_take_block_wf();
        let tokens = (self.blocks[last as int].num_tokens + 1) as usize;
        let taken = self.take_block();
        taken.lemma_unheld_tokens_wf(new, tokens);
        let filled = taken.with_block_tokens(new, tokens);
        let t2 = TableState {
            block_ids: ids.drop_last().push(new),
            total_tokens: (t.total_tokens + 1) as usize,
            ..t
        };
        assert(!ids.contains(new));
        assert(last != new) by {
            assert(ids.contains(last));
        }
        assert(t2.block_ids.no_duplicates()) by {
            assert forall|i: int, j: int|
                0 <= i < n && 0 <= j < n && i != j implies t2.block_ids[i] != t2.block_ids[j] by {
                if i < n - 1 {
                    assert(t2.block_ids[i] == ids[i]);
                    assert(ids.contains(ids[i]));
                }
                if j < n - 1 {
                    assert(t2.block_ids[j] == ids[j]);
                    assert(ids.contains(ids[j]));
                }
            }
        }
        assert(self.block_wf(new as int)) by {
            assert(self.free[self.free.len() - 1] == new);
            assert(self.free.contains(new));
        }
        assert forall|i: int| #![trigger t2.block_ids[i]] 0 <= i < t2.block_ids.len() implies {
            &&& t2.block_ids[i] < filled.total_blocks
            &&& filled.blocks[t2.block_ids[i] as int].num_tokens >= 1
            &&& i < t2.block_ids.len() - 1 ==> filled.blocks[t2.block_ids[i] as int].num_tokens
                == filled.slots()
            &&& holders(filled.tables.remove(seq), t2.block_ids[i]).len() + 1
                <= filled.blocks[t2.block_ids[i] as int].ref_count
        } by {
            if i < n - 1 {
                assert(t2.block_ids[i] == ids[i]);
                assert(ids.contains(ids[i]));
                self.lemma_own_share(seq, i);
            } else {
                lemma_holders_remove(self.tables, seq, new);
            }
        }
        assert(t2.block_ids.last() == new);
        assert(filled.stored_tokens(t2) == self.stored_tokens(t) + 1);
        assert(filled.table_wf(seq, t2));
        filled.lemma_with_table_wf(seq, t2);
        let tabled = filled.with_table(seq, t2);
        let after = self.append(seq);
        assert(after.tables == tabled.tables);
        assert forall|x: int| 0 <= x < self.total_blocks implies #[trigger] after.block_wf(x) by {
            assert(tabled.block_wf(x));
            if x == last {
                lemma_holders_remove(self.tables, seq, last);
                lemma_holders_insert(self.tables, seq, t2, last);
                assert(ids.contains(last));
                assert(!t2.block_ids.contains(last)) by {
                    if t2.block_ids.contains(last) {
                        let i = choose|i: int| 0 <= i < n && t2.block_ids[i] == last;
                        if i < n - 1 {
                            assert(ids[i] == ids[n - 1]);
                        }
                    }
                }
            } else {
                assert(after.blocks[x] == tabled.blocks[x]);
            }
        }
        assert forall|s: u64| #[trigger] after.tables.contains_key(s) implies after.table_wf(
            s,
            after.tables[s],
        ) by {
            assert(tabled.tables.contains_key(s));
            tabled.lemma_table_frame(after, s);
        }
    }
}

/// Filtering a sequence without repetition leaves one.
pub proof fn lemma_filter_keeps_distinct(s: Seq<usize>, pred: spec_fn(usize) -> bool)
    requires
        s.no_duplicates(),
    ensures
        s.filter(pred).no_duplicates(),
    decreases s.len(),
{
    reveal(Seq::filter);
    if s.len() > 0 {
        let rest = s.drop_last();
        assert(rest.no_duplicates());
        lemma_filter_keeps_distinct(rest, pred);
        let kept = rest.filter(pred);
        if pred(s.last()) {
            assert(s.filter(pred) =~= kept.push(s.last()));
            assert forall|i: int| 0 <= i < kept.len() implies #[trigger] kept[i] != s.last() by {
                assert(kept.contains(kept[i]));
                rest.lemma_filter_contains_rev(pred, kept[i]);
                let j = choose|j: int| 0 <= j < rest.len() && rest[j] == kept[i];
                assert(s[j] != s[s.len() - 1]);
            }
        }
    }
}

/// One more identifier of a prefix passes through a filter.
pub proof fn lemma_id_filter_take(s: Seq<usize>, i: int, pred: spec_fn(usize) -> bool)
    requires
        0 <= i < s.len(),
    ensures
        s.take(i + 1).filter(pred) == if pred(s[i]) {
            s.take(i).filter(pred).push(s[i])
        } else {
            s.take(i).filter(pred)
        },
{
    reveal(Seq::filter);
    assert(s.take(i + 1).drop_last() =~= s.take(i));
}

} // verus!
