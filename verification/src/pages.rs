//! What the page counts promise, and that tokens lie in their pages without a gap.

use crate::kv_laws::lemma_holders_remove;
use crate::kv_state::{holders, KvBlock, KvState, TableState};
use crate::maps::total_len;
use crate::pool::PoolState;
use vstd::prelude::*;

verus! {

/// How many of the numbers below `n` a sequence holds.
spec fn members_below(ids: Seq<usize>, n: int) -> nat
    decreases n,
{
    if n <= 0 {
        0
    } else {
        members_below(ids, n - 1) + if ids.contains((n - 1) as usize) {
            1nat
        } else {
            0
        }
    }
}

/// The holders of all blocks below `n`, added up.
spec fn holders_below(tables: Map<u64, TableState>, n: int) -> nat
    decreases n,
{
    if n <= 0 {
        0
    } else {
        holders_below(tables, n - 1) + holders(tables, (n - 1) as usize).len()
    }
}

/// A further member counts once.
proof fn lemma_members_push(ids: Seq<usize>, x: usize, n: int)
    requires
        !ids.contains(x),
        0 <= n <= usize::MAX,
    ensures
        members_below(ids.push(x), n) == members_below(ids, n) + if x < n {
            1nat
        } else {
            0
        },
    decreases n,
{
    if n > 0 {
        lemma_members_push(ids, x, n - 1);
        let b = (n - 1) as usize;
        vstd::seq_lib::lemma_seq_contains_after_push(ids, x, b);
    }
}

/// Distinct numbers below `n` are as many as the sequence is long.
proof fn lemma_members_all(ids: Seq<usize>, n: int)
    requires
        ids.no_duplicates(),
        forall|i: int| 0 <= i < ids.len() ==> #[trigger] ids[i] < n,
        0 <= n <= usize::MAX,
    ensures
        members_below(ids, n) == ids.len(),
    decreases ids.len(),
{
    if ids.len() == 0 {
        lemma_members_none(ids, n);
    } else {
        let rest = ids.drop_last();
        assert(ids =~= rest.push(ids.last()));
        assert forall|i: int| 0 <= i < rest.len() implies #[trigger] rest[i] < n by {
            assert(rest[i] == ids[i]);
        }
        if rest.contains(ids.last()) {
            let i = choose|i: int| 0 <= i < rest.len() && rest[i] == ids.last();
            assert(ids[i] == ids[ids.len() - 1]);
        }
        lemma_members_all(rest, n);
        lemma_members_push(rest, ids.last(), n);
        assert(ids[ids.len() - 1] < n);
    }
}

proof fn lemma_members_none(ids: Seq<usize>, n: int)
    requires
        ids.len() == 0,
    ensures
        members_below(ids, n) == 0,
    decreases n,
{
    if n > 0 {
        lemma_members_none(ids, n - 1);
    }
}

/// Distinct numbers below `n` are at most `n`.
pub proof fn lemma_distinct_below(ids: Seq<usize>, n: int)
    requires
        ids.no_duplicates(),
        forall|i: int| 0 <= i < ids.len() ==> #[trigger] ids[i] < n,
        0 <= n <= usize::MAX,
    ensures
        ids.len() <= n,
{
    lemma_members_all(ids, n);
    lemma_members_few(ids, n);
}

proof fn lemma_members_few(ids: Seq<usize>, n: int)
    requires
        0 <= n,
    ensures
        members_below(ids, n) <= n,
    decreases n,
{
    if n > 0 {
        lemma_members_few(ids, n - 1);
    }
}

/// Letting go of a table takes away one holder per block that it names.
proof fn lemma_holders_below_remove(tables: Map<u64, TableState>, seq: u64, n: int)
    requires
        tables.dom().finite(),
        tables.contains_key(seq),
    ensures
        holders_below(tables, n) == holders_below(tables.remove(seq), n) + members_below(
            tables[seq].block_ids,
            n,
        ),
    decreases n,
{
    if n > 0 {
        lemma_holders_below_remove(tables, seq, n - 1);
        lemma_holders_remove(tables, seq, (n - 1) as usize);
    }
}

proof fn lemma_holders_below_none(tables: Map<u64, TableState>, n: int)
    requires
        tables.dom().finite(),
        tables.dom().len() == 0,
    ensures
        holders_below(tables, n) == 0,
    decreases n,
{
    if n > 0 {
        lemma_holders_below_none(tables, n - 1);
        assert(holders(tables, (n - 1) as usize) =~= Set::<u64>::empty());
    }
}

/// Blocks counted table by table are as many as holders counted block by block.
proof fn lemma_count_both_ways(tables: Map<u64, TableState>, n: int)
    requires
        tables.dom().finite(),
        0 <= n <= usize::MAX,
        forall|s: u64| #[trigger]
            tables.contains_key(s) ==> tables[s].block_ids.no_duplicates() && forall|i: int|
                0 <= i < tables[s].block_ids.len() ==> #[trigger] tables[s].block_ids[i] < n,
    ensures
        total_len(tables.map_values(|t: TableState| t.block_ids)) == holders_below(tables, n),
    decreases tables.dom().len(),
{
    let ids_of = |t: TableState| t.block_ids;
    let ids = tables.map_values(ids_of);
    assert(ids.dom() =~= tables.dom());
    if tables.dom().len() == 0 {
        lemma_holders_below_none(tables, n);
    } else {
        let k = ids.dom().choose();
        assert(tables.dom().contains(k));
        assert(tables.contains_key(k));
        assert(ids.remove(k) =~= tables.remove(k).map_values(ids_of));
        assert forall|s: u64| #[trigger] tables.remove(k).contains_key(s) implies tables.remove(
            k,
        )[s].block_ids.no_duplicates() && forall|i: int|
            0 <= i < tables.remove(k)[s].block_ids.len() ==> #[trigger] tables.remove(
                k,
            )[s].block_ids[i] < n by {
            assert(tables.contains_key(s));
        }
        lemma_count_both_ways(tables.remove(k), n);
        lemma_holders_below_remove(tables, k, n);
        lemma_members_all(tables[k].block_ids, n);
    }
}

impl KvState {
    /// The page counts over the first `n` blocks.
    proof fn lemma_pages_below(self, n: int)
        requires
            self.wf(),
            0 <= n <= self.total_blocks,
        ensures
            ({
                let some = self.blocks.take(n);
                let counted = some.filter(|b: KvBlock| b.ref_count > 0).len();
                &&& counted == some.filter(|b: KvBlock| b.ref_count > 1).len() + some.filter(
                    |b: KvBlock| b.ref_count == 1,
                ).len()
                &&& counted + members_below(self.free, n) == n
                &&& self.counts_exact() ==> counted <= holders_below(self.tables, n)
            }),
        decreases n,
    {
        reveal(Seq::filter);
        if n > 0 {
            self.lemma_pages_below(n - 1);
            assert(self.blocks.take(n).drop_last() =~= self.blocks.take(n - 1));
            assert(self.blocks.take(n).last() == self.blocks[n - 1]);
            assert(self.block_wf(n - 1));
        }
    }

    /// The pages in use are the shared and the private ones, and they are those that are not
    /// free.
    pub proof fn law_pages_add_up(self)
        requires
            self.wf(),
        ensures
            self.physical_pages() == self.shared_pages() + self.private_pages(),
            self.physical_pages() == self.total_blocks - self.free.len(),
    {
        let n = self.total_blocks as int;
        self.lemma_pages_below(n);
        assert(self.blocks.take(n) =~= self.blocks);
        lemma_members_all(self.free, n);
    }

    /// With every count that of the tables, the tables name at least as many pages as are in
    /// use, and what sharing saves is the bytes of the difference; without a tensor pool
    /// nothing.
    pub proof fn law_logical_covers_physical(self)
        requires
            self.wf(),
            self.counts_exact(),
        ensures
            self.logical_pages() >= self.physical_pages(),
            self.bytes_saved() == (self.logical_pages() - self.physical_pages())
                * self.block_bytes(),
            self.pool is None ==> self.bytes_saved() == 0,
    {
        let n = self.total_blocks as int;
        self.lemma_pages_below(n);
        assert(self.blocks.take(n) =~= self.blocks);
        assert forall|s: u64| #[trigger] self.tables.contains_key(
            s,
        ) implies self.tables[s].block_ids.no_duplicates() && forall|i: int|
            0 <= i < self.tables[s].block_ids.len() ==> #[trigger] self.tables[s].block_ids[i]
                < n by {
            assert(self.table_wf(s, self.tables[s]));
        }
        lemma_count_both_ways(self.tables, n);
        if self.logical_pages() == self.physical_pages() {
            assert((self.logical_pages() - self.physical_pages()) * self.block_bytes() == 0)
                by (nonlinear_arith)
                requires
                    self.logical_pages() == self.physical_pages(),
            ;
        }
        if self.pool is None {
            assert((self.logical_pages() - self.physical_pages()) * self.block_bytes() == 0)
                by (nonlinear_arith)
                requires
                    self.block_bytes() == 0,
            ;
        }
    }

    /// The tokens of every sequence fill its blocks from the front without a gap.
    pub open spec fn all_packed(self) -> bool {
        forall|s: u64| #[trigger] self.tables.contains_key(s) ==> self.packed(s)
    }

    /// A table whose last block keeps its fill stays packed.
    proof fn lemma_packed_frame(self, after: KvState, s: u64)
        requires
            self.wf(),
            self.tables.contains_key(s),
            self.packed(s),
            after.tables.contains_key(s),
            after.tables[s].block_ids == self.tables[s].block_ids,
            after.tables[s].total_tokens == self.tables[s].total_tokens,
            after.block_size == self.block_size,
            self.tables[s].block_ids.len() > 0 ==> after.blocks[self.last_block(s) as int].num_tokens
                == self.blocks[self.last_block(s) as int].num_tokens,
        ensures
            after.packed(s),
    {
    }

    /// Allocating a sequence keeps every sequence packed.
    pub proof fn law_allocate_keeps_packed(self, seq: u64, tokens: int)
        requires
            self.wf(),
            self.all_packed(),
            self.block_size > 0,
            0 <= tokens <= usize::MAX,
            !self.tables.contains_key(seq),
            self.blocks_needed(tokens) <= self.free.len(),
        ensures
            self.allocate(seq, tokens).all_packed(),
    {
        let count = self.blocks_needed(tokens);
        let after = self.allocate(seq, tokens);
        self.lemma_blocks_needed(tokens);
        self.lemma_fill_blocks(tokens, count);
        self.lemma_allocate_wf(seq, tokens);
        let filled = self.fill_blocks(tokens, count);
        assert forall|s: u64| #[trigger] after.tables.contains_key(s) implies after.packed(s) by {
            if s != seq {
                assert(self.tables.contains_key(s));
                let ids = self.tables[s].block_ids;
                if ids.len() > 0 {
                    assert(self.table_wf(s, self.tables[s]));
                    let last = ids[ids.len() - 1];
                    let taken = self.next_blocks(count);
                    if taken.contains(last) {
                        let i = choose|i: int| 0 <= i < taken.len() && taken[i] == last;
                        assert(self.free[self.free.len() - 1 - i] == last);
                        assert(self.free.contains(last));
                        self.lemma_free_is_unheld(last, s);
                        assert(ids.contains(last));
                    }
                    assert(filled.blocks[last as int] == self.blocks[last as int]);
                }
                self.lemma_packed_frame(after, s);
            }
        }
    }

    /// Branching off a sequence keeps every sequence packed.
    pub proof fn law_fork_keeps_packed(self, parent: u64, child: u64)
        requires
            self.wf(),
            self.all_packed(),
            self.tables.contains_key(parent),
        ensures
            self.fork(parent, child).all_packed(),
    {
        let after = self.fork(parent, child);
        assert forall|s: u64| #[trigger] after.tables.contains_key(s) implies after.packed(s) by {
            let from = if s == child {
                parent
            } else {
                s
            };
            assert(self.tables.contains_key(from));
            let ids = self.tables[from].block_ids;
            assert(self.packed(from));
            assert(after.tables[s].block_ids == ids);
            if ids.len() > 0 {
                assert(self.table_wf(from, self.tables[from]));
                assert(ids[ids.len() - 1] < self.total_blocks);
            }
        }
    }

    /// A further token of one sequence keeps every sequence packed.
    pub proof fn law_append_keeps_packed(self, seq: u64)
        requires
            self.wf(),
            self.all_packed(),
            self.append_possible(seq),
            self.append_fits(seq),
            self.block_size > 0,
        ensures
            self.append(seq).all_packed(),
    {
        let after = self.append(seq);
        self.law_append_packs(seq);
        assert forall|s: u64| #[trigger] after.tables.contains_key(s) implies after.packed(s) by {
            if s != seq {
                assert(self.tables.contains_key(s));
                self.law_append_slot_is_private(seq, s);
                let ids = self.tables[s].block_ids;
                if ids.len() > 0 {
                    assert(self.table_wf(s, self.tables[s]));
                    let last = ids[ids.len() - 1];
                    assert(ids.contains(last));
                }
                self.lemma_packed_frame(after, s);
            }
        }
    }

    /// Letting go of a sequence keeps every other one packed.
    pub proof fn law_free_keeps_packed(self, seq: u64)
        requires
            self.wf(),
            self.all_packed(),
        ensures
            self.free_sequence(seq).all_packed(),
    {
        let after = self.free_sequence(seq);
        if self.tables.contains_key(seq) {
            assert forall|s: u64| #[trigger] after.tables.contains_key(s) implies after.packed(
                s,
            ) by {
                assert(self.tables.contains_key(s) && s != seq);
                let ids = self.tables[s].block_ids;
                if ids.len() > 0 {
                    assert(self.table_wf(s, self.tables[s]));
                    let last = ids[ids.len() - 1];
                    assert(ids.contains(last));
                    assert(last < self.total_blocks);
                    if self.tables[seq].block_ids.contains(last) {
                        self.lemma_two_holders_share(seq, s, last);
                    }
                }
                self.lemma_packed_frame(after, s);
            }
        }
    }

    /// A new manager has no sequence that is not packed.
    pub proof fn law_fresh_is_packed(total_blocks: usize, block_size: usize)
        ensures
            KvState::fresh(total_blocks, block_size).all_packed(),
    {
    }

    /// Neither another tensor pool, with other rows, nor a block taken by itself changes how
    /// the tokens of a sequence lie.
    pub proof fn law_pool_keeps_packed(self, pool: PoolState)
        requires
            self.wf(),
            self.all_packed(),
        ensures
            self.with_pool(pool).all_packed(),
            self.free.len() > 0 ==> self.take_block().all_packed(),
    {
        assert forall|s: u64| #[trigger] self.with_pool(pool).tables.contains_key(
            s,
        ) implies self.with_pool(pool).packed(s) by {
            assert(self.tables.contains_key(s));
        }
        if self.free.len() > 0 {
            let after = self.take_block();
            self.lemma_take_block_wf();
            assert forall|s: u64| #[trigger] after.tables.contains_key(s) implies after.packed(
                s,
            ) by {
                assert(self.tables.contains_key(s));
                let ids = self.tables[s].block_ids;
                if ids.len() > 0 {
                    assert(self.table_wf(s, self.tables[s]));
                    let last = ids[ids.len() - 1];
                    assert(ids.contains(last));
                }
                self.lemma_packed_frame(after, s);
            }
        }
    }
}

} // verus!
