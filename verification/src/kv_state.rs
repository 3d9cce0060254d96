//! The state of the paged KV manager and what each operation makes of it.
//!
//! Every operation of [`crate::kv_manager::AienKvManager`] is stated as a function on
//! [`KvState`]. The invariant [`KvState::wf`] ties the free list, the reference counts
//! and the block tables together; the laws at the end say what sharing and
//! copy-on-write keep.

use crate::maps::total_len;
use crate::pool::PoolState;
use vstd::prelude::*;

verus! {

/// Bookkeeping of one physical block.
#[derive(Debug, Clone, Copy)]
pub struct KvBlock {
    pub block_id: usize,
    pub ref_count: usize,
    pub num_tokens: usize,
    pub is_shared: bool,
}

/// The blocks of one sequence.
#[verifier::ext_equal]
pub struct TableState {
    pub sequence_id: u64,
    pub block_ids: Seq<usize>,
    pub total_tokens: usize,
}

/// The state of a manager.
#[verifier::ext_equal]
pub struct KvState {
    pub total_blocks: usize,
    pub block_size: usize,
    /// Free blocks; the last is taken first.
    pub free: Seq<usize>,
    pub blocks: Seq<KvBlock>,
    pub tables: Map<u64, TableState>,
    pub pool: Option<PoolState>,
    pub cow_faults: usize,
}

/// `n / d`, rounded up.
pub open spec fn div_ceil(n: int, d: int) -> int {
    if n % d == 0 {
        n / d
    } else {
        n / d + 1
    }
}

pub open spec fn at_most(n: int, cap: int) -> int {
    if n <= cap {
        n
    } else {
        cap
    }
}

/// The sequences whose table holds block `b`.
pub open spec fn holders(tables: Map<u64, TableState>, b: usize) -> Set<u64> {
    tables.dom().filter(|s: u64| tables[s].block_ids.contains(b))
}

impl KvState {
    // ---- Reading the state ----
    /// A manager with all blocks free, lowest identifier next.
    pub open spec fn fresh(total_blocks: usize, block_size: usize) -> KvState {
        KvState {
            total_blocks,
            block_size,
            free: Seq::new(total_blocks as nat, |i: int| (total_blocks - 1 - i) as usize),
            blocks: Seq::new(
                total_blocks as nat,
                |i: int|
                    KvBlock {
                        block_id: i as usize,
                        ref_count: 0,
                        num_tokens: 0,
                        is_shared: false,
                    },
            ),
            tables: Map::empty(),
            pool: None,
            cow_faults: 0,
        }
    }

    /// Tokens that a block takes before the next one is needed.
    pub open spec fn slots(self) -> int {
        if self.block_size == 0 {
            1
        } else {
            self.block_size as int
        }
    }

    /// Block `b` exists in the tensor pool, if there is one.
    pub open spec fn pool_reaches(self, b: int) -> bool {
        self.pool is Some ==> b < self.pool->0.layout.num_blocks
    }

    /// Every block exists in the tensor pool, if there is one.
    pub open spec fn pool_covers_blocks(self) -> bool {
        self.pool is Some ==> self.total_blocks <= self.pool->0.layout.num_blocks
    }

    /// Block and slot of token `i` of a sequence.
    pub open spec fn place_at(self, seq: u64, i: int) -> (usize, int) {
        (
            self.tables[seq].block_ids[i / self.block_size as int],
            i % self.block_size as int,
        )
    }

    /// The block of token `i` of a sequence exists in the tensor pool, if there is one.
    pub open spec fn reaches_token(self, seq: u64, i: int) -> bool {
        self.pool_reaches(self.place_at(seq, i).0 as int)
    }

    /// The blocks of all tokens that a sequence counts exist in the tensor pool, if there is
    /// one.
    pub open spec fn reached(self, seq: u64) -> bool {
        forall|i: int|
            0 <= i < self.tables[seq].total_tokens ==> #[trigger] self.reaches_token(seq, i)
    }

    pub open spec fn last_block(self, seq: u64) -> usize {
        self.tables[seq].block_ids.last()
    }

    /// The tokens that a table's blocks hold: full blocks, then the last.
    pub open spec fn stored_tokens(self, t: TableState) -> int {
        if t.block_ids.len() == 0 {
            0
        } else {
            (t.block_ids.len() - 1) * self.slots() + self.blocks[t.block_ids.last() as int].num_tokens
        }
    }

    /// A table and the blocks it names fit each other.
    pub open spec fn table_wf(self, seq: u64, t: TableState) -> bool {
        &&& t.sequence_id == seq
        &&& t.block_ids.no_duplicates()
        &&& forall|i: int|
            #![trigger t.block_ids[i]]
            0 <= i < t.block_ids.len() ==> {
                &&& t.block_ids[i] < self.total_blocks
                &&& self.blocks[t.block_ids[i] as int].num_tokens >= 1
                &&& i < t.block_ids.len() - 1 ==> self.blocks[t.block_ids[i] as int].num_tokens
                    == self.slots()
            }
        &&& t.total_tokens <= self.stored_tokens(t)
    }

    /// A block's count, sharing mark and fill fit each other and the tables.
    pub open spec fn block_wf(self, b: int) -> bool {
        let block = self.blocks[b];
        &&& block.block_id == b
        &&& block.num_tokens <= self.slots()
        &&& block.ref_count == 0 <==> self.free.contains(b as usize)
        &&& block.ref_count == 0 ==> block.num_tokens == 0
        &&& block.is_shared <==> block.ref_count >= 2
        &&& holders(self.tables, b as usize).len() <= block.ref_count
    }

    /// The invariant of a manager.
    pub open spec fn wf(self) -> bool {
        &&& self.blocks.len() == self.total_blocks
        &&& self.free.no_duplicates()
        &&& forall|i: int| 0 <= i < self.free.len() ==> #[trigger] self.free[i] < self.total_blocks
        &&& forall|b: int| 0 <= b < self.total_blocks ==> #[trigger] self.block_wf(b)
        &&& self.tables.dom().finite()
        &&& forall|s: u64| #[trigger]
            self.tables.contains_key(s) ==> self.table_wf(s, self.tables[s])
        &&& self.pool is Some ==> self.pool->0.wf()
    }

    /// No block is counted that no table holds.
    pub open spec fn counts_exact(self) -> bool {
        forall|b: int|
            0 <= b < self.total_blocks ==> holders(self.tables, b as usize).len()
                == #[trigger] self.blocks[b].ref_count
    }

    /// The tokens of a sequence fill its blocks from the front without a gap.
    pub open spec fn packed(self, seq: u64) -> bool {
        self.tables[seq].total_tokens == self.stored_tokens(self.tables[seq])
    }

    /// The K or V rows of a sequence, as a gather reads them.
    pub open spec fn sequence_rows(self, seq: u64, layer: int, is_value: bool) -> Seq<u32> {
        let pool = self.pool->0;
        let t = self.tables[seq];
        pool.gathered(
            t.block_ids,
            pool.held_tokens(t.block_ids.len() as int, t.total_tokens as int),
            layer,
            is_value,
        )
    }

    // ---- Operations ----
    /// The block that is taken next.
    pub open spec fn next_free(self) -> usize {
        self.free.last()
    }

    /// The state after taking a free block: counted once, empty, and cleared.
    pub open spec fn take_block(self) -> KvState {
        let b = self.next_free();
        KvState {
            free: self.free.drop_last(),
            blocks: self.blocks.update(
                b as int,
                KvBlock { ref_count: 1, num_tokens: 0, is_shared: false, ..self.blocks[b as int] },
            ),
            pool: match self.pool {
                Some(p) => Some(p.zero_block(b as int)),
                None => None,
            },
            ..self
        }
    }

    pub open spec fn with_block_tokens(self, b: usize, n: usize) -> KvState {
        KvState {
            blocks: self.blocks.update(
                b as int,
                KvBlock { num_tokens: n, ..self.blocks[b as int] },
            ),
            ..self
        }
    }

    pub open spec fn with_table(self, seq: u64, t: TableState) -> KvState {
        KvState { tables: self.tables.insert(seq, t), ..self }
    }

    /// The next `count` blocks, in the order in which they are taken.
    pub open spec fn next_blocks(self, count: int) -> Seq<usize> {
        Seq::new(count as nat, |i: int| self.free[self.free.len() - 1 - i])
    }

    /// The state after taking `count` blocks and spreading `tokens` over them.
    pub open spec fn fill_blocks(self, tokens: int, count: int) -> KvState
        decreases count,
    {
        if count <= 0 {
            self
        } else {
            let here = at_most(tokens, self.block_size as int);
            self.take_block().with_block_tokens(self.next_free(), here as usize).fill_blocks(
                tokens - here,
                count - 1,
            )
        }
    }

    pub open spec fn blocks_needed(self, tokens: int) -> int {
        div_ceil(tokens, self.block_size as int)
    }

    /// The state after allocating a new sequence of `tokens` tokens.
    pub open spec fn allocate(self, seq: u64, tokens: int) -> KvState {
        let needed = self.blocks_needed(tokens);
        self.fill_blocks(tokens, needed).with_table(
            seq,
            TableState {
                sequence_id: seq,
                block_ids: self.next_blocks(needed),
                total_tokens: tokens as usize,
            },
        )
    }

    /// The state after a request to allocate: a known sequence keeps its blocks, and a
    /// request beyond the free blocks changes nothing.
    pub open spec fn allocate_or_keep(self, seq: u64, tokens: int) -> KvState {
        if self.tables.contains_key(seq) || self.free.len() < self.blocks_needed(tokens) {
            self
        } else {
            self.allocate(seq, tokens)
        }
    }

    /// Blocks hold tokens, and those that `tokens` tokens would take exist in the tensor
    /// pool.
    pub open spec fn allocate_fits(self, tokens: int) -> bool {
        &&& self.block_size > 0
        &&& self.blocks_needed(tokens) <= self.free.len() ==> forall|i: int|
            #![trigger self.free[i]]
            self.free.len() - self.blocks_needed(tokens) <= i < self.free.len()
                ==> self.pool_reaches(self.free[i] as int)
    }

    /// The state after `child` shares all blocks of `parent`.
    pub open spec fn fork(self, parent: u64, child: u64) -> KvState {
        let t = self.tables[parent];
        KvState {
            blocks: Seq::new(
                self.blocks.len(),
                |b: int|
                    if t.block_ids.contains(b as usize) {
                        KvBlock {
                            ref_count: (self.blocks[b].ref_count + 1) as usize,
                            is_shared: true,
                            ..self.blocks[b]
                        }
                    } else {
                        self.blocks[b]
                    },
            ),
            tables: self.tables.insert(child, TableState { sequence_id: child, ..t }),
            ..self
        }
    }

    /// A further token of `seq` does not fit into a block of its own.
    pub open spec fn append_takes_block(self, seq: u64) -> bool {
        let ids = self.tables[seq].block_ids;
        ||| ids.len() == 0
        ||| self.blocks[ids.last() as int].num_tokens >= self.block_size
        ||| self.blocks[ids.last() as int].is_shared
    }

    /// A further token of `seq` goes into a shared, partly filled block.
    pub open spec fn append_copies(self, seq: u64) -> bool {
        let ids = self.tables[seq].block_ids;
        &&& ids.len() > 0
        &&& self.blocks[ids.last() as int].num_tokens < self.block_size
        &&& self.blocks[ids.last() as int].is_shared
    }

    /// A token can be appended to `seq`.
    pub open spec fn append_possible(self, seq: u64) -> bool {
        &&& self.tables.contains_key(seq)
        &&& self.append_takes_block(seq) ==> self.free.len() > 0
    }

    /// The block and the slot in it that the next token of `seq` gets.
    pub open spec fn append_slot(self, seq: u64) -> (usize, usize) {
        let ids = self.tables[seq].block_ids;
        if !self.append_takes_block(seq) {
            (ids.last(), self.blocks[ids.last() as int].num_tokens)
        } else if self.append_copies(seq) {
            (self.next_free(), self.blocks[ids.last() as int].num_tokens)
        } else {
            (self.next_free(), 0)
        }
    }

    /// The state after appending a token to `seq`: in place in a private block, in a
    /// private copy of a shared block, or in a further block.
    pub open spec fn append(self, seq: u64) -> KvState {
        let t = self.tables[seq];
        if !self.append_takes_block(seq) {
            let last = t.block_ids.last();
            self.with_block_tokens(
                last,
                (self.blocks[last as int].num_tokens + 1) as usize,
            ).with_table(seq, TableState { total_tokens: (t.total_tokens + 1) as usize, ..t })
        } else if self.append_copies(seq) {
            let last = t.block_ids.last();
            let new = self.next_free();
            let old_block = self.blocks[last as int];
            let taken = self.take_block();
            KvState {
                blocks: taken.blocks.update(
                    last as int,
                    KvBlock {
                        ref_count: (old_block.ref_count - 1) as usize,
                        is_shared: old_block.ref_count - 1 != 1,
                        ..old_block
                    },
                ).update(
                    new as int,
                    KvBlock {
                        num_tokens: (old_block.num_tokens + 1) as usize,
                        ..taken.blocks[new as int]
                    },
                ),
                pool: match taken.pool {
                    Some(p) => Some(p.copy_block(last as int, new as int)),
                    None => None,
                },
                cow_faults: (self.cow_faults + 1) as usize,
                ..taken
            }.with_table(
                seq,
                TableState {
                    block_ids: t.block_ids.drop_last().push(new),
                    total_tokens: (t.total_tokens + 1) as usize,
                    ..t
                },
            )
        } else {
            let new = self.next_free();
            self.take_block().with_block_tokens(new, 1).with_table(
                seq,
                TableState {
                    block_ids: t.block_ids.push(new),
                    total_tokens: (t.total_tokens + 1) as usize,
                    ..t
                },
            )
        }
    }

    /// The state after a request to append: nothing changes where it is not possible.
    pub open spec fn append_or_keep(self, seq: u64) -> KvState {
        if self.append_possible(seq) {
            self.append(seq)
        } else {
            self
        }
    }

    /// The slot of a further token, and then the blocks of all tokens of its sequence, exist in
    /// the tensor pool, if there is one: all its blocks do, or at least these.
    pub open spec fn append_reached(self, seq: u64) -> bool {
        self.pool_covers_blocks() || {
            &&& self.pool_reaches(self.append_slot(seq).0 as int)
            &&& self.append(seq).reached(seq)
        }
    }

    /// The counters that an append advances have room, and the blocks it touches exist
    /// in the tensor pool.
    pub open spec fn append_fits(self, seq: u64) -> bool {
        self.append_possible(seq) ==> {
            &&& self.tables[seq].total_tokens < usize::MAX
            &&& self.append_takes_block(seq) ==> self.pool_reaches(self.next_free() as int)
            &&& self.append_copies(seq) ==> self.cow_faults < usize::MAX && self.pool_reaches(
                self.last_block(seq) as int,
            )
        }
    }

    /// A block after one of its holders let go.
    pub open spec fn released(block: KvBlock) -> KvBlock {
        KvBlock {
            ref_count: (block.ref_count - 1) as usize,
            num_tokens: if block.ref_count == 1 {
                0
            } else {
                block.num_tokens
            },
            is_shared: block.is_shared && block.ref_count - 1 != 0 && block.ref_count - 1 != 1,
            ..block
        }
    }

    /// The state after a sequence let go of its blocks; those that nobody else counts
    /// become free, in table order.
    pub open spec fn free_sequence(self, seq: u64) -> KvState {
        if !self.tables.contains_key(seq) {
            self
        } else {
            let ids = self.tables[seq].block_ids;
            KvState {
                blocks: Seq::new(
                    self.blocks.len(),
                    |b: int|
                        if ids.contains(b as usize) {
                            KvState::released(self.blocks[b])
                        } else {
                            self.blocks[b]
                        },
                ),
                free: self.free + ids.filter(|b: usize| self.blocks[b as int].ref_count == 1),
                tables: self.tables.remove(seq),
                ..self
            }
        }
    }

    /// The state after taking back one token of `seq` from its count.
    pub open spec fn rollback(self, seq: u64) -> KvState {
        let t = self.tables[seq];
        self.with_table(
            seq,
            TableState {
                total_tokens: if t.total_tokens == 0 {
                    0
                } else {
                    (t.total_tokens - 1) as usize
                },
                ..t
            },
        )
    }

    pub open spec fn with_pool(self, pool: PoolState) -> KvState {
        KvState { pool: Some(pool), ..self }
    }

    /// The counts of the blocks that a fork of `parent` would share have room.
    pub open spec fn fork_fits(self, parent: u64) -> bool {
        self.tables.contains_key(parent) ==> forall|i: int|
            #![trigger self.tables[parent].block_ids[i]]
            0 <= i < self.tables[parent].block_ids.len()
                ==> self.blocks[self.tables[parent].block_ids[i] as int].ref_count < usize::MAX
    }

    // ---- Counting ----
    pub open spec fn physical_pages(self) -> nat {
        self.blocks.filter(|b: KvBlock| b.ref_count > 0).len()
    }

    pub open spec fn shared_pages(self) -> nat {
        self.blocks.filter(|b: KvBlock| b.ref_count > 1).len()
    }

    pub open spec fn private_pages(self) -> nat {
        self.blocks.filter(|b: KvBlock| b.ref_count == 1).len()
    }

    /// Blocks named by all tables together.
    pub open spec fn logical_pages(self) -> nat {
        total_len(self.tables.map_values(|t: TableState| t.block_ids))
    }

    pub open spec fn block_bytes(self) -> int {
        match self.pool {
            Some(p) => p.layout.block_stride_bytes as int,
            None => 0,
        }
    }

    pub open spec fn bytes_saved(self) -> int {
        if self.logical_pages() <= self.physical_pages() {
            0
        } else {
            (self.logical_pages() - self.physical_pages()) * self.block_bytes()
        }
    }

    /// Index, count and sharing mark of each counted block among the first `n`.
    pub open spec fn active_among(self, n: int) -> Seq<(usize, usize, bool)>
        decreases n,
    {
        if n <= 0 {
            Seq::empty()
        } else if self.blocks[n - 1].ref_count > 0 {
            self.active_among(n - 1).push(
                (
                    (n - 1) as usize,
                    self.blocks[n - 1].ref_count,
                    self.blocks[n - 1].is_shared,
                ),
            )
        } else {
            self.active_among(n - 1)
        }
    }
}

} // verus!
