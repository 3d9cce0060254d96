//! The paged KV manager: reference-counted blocks, copy-on-write branching and access
//! to the tensor pool.

use crate::buffer::{effective_align, valid_request, HeapUnifiedBuffer, UnifiedBuffer};
use crate::kv_laws::lemma_id_filter_take;
use crate::kv_state::{KvBlock, KvState, TableState};
use crate::layout::{KvLayout, KvPoolConfig};
use crate::maps::{
    ascending, lemma_total_len_remove, sorted_keys, total_len, view_values,
};
use crate::pool::{BlockId, PoolState, UnifiedKvTensorPool};
use crate::text::{decimal, numbered, numbered_twice};
use std::collections::HashMap;
use vstd::prelude::*;

verus! {

broadcast use {vstd::std_specs::hash::group_hash_axioms, crate::maps::group_view_values};

/// The blocks of a sequence, and how many tokens they stand for.
#[derive(Debug)]
pub struct BlockTable {
    pub sequence_id: u64,
    pub block_ids: Vec<BlockId>,
    pub total_tokens: usize,
}

impl View for BlockTable {
    type V = TableState;

    open spec fn view(&self) -> TableState {
        TableState {
            sequence_id: self.sequence_id,
            block_ids: self.block_ids@,
            total_tokens: self.total_tokens,
        }
    }
}

impl Clone for BlockTable {
    fn clone(&self) -> (r: Self)
        ensures
            r@ == self@,
    {
        let block_ids = self.block_ids.clone();
        assert(block_ids@ =~= self.block_ids@);
        BlockTable { sequence_id: self.sequence_id, block_ids, total_tokens: self.total_tokens }
    }
}

impl Default for BlockTable {
    fn default() -> (r: Self)
        ensures
            r@ == (TableState { sequence_id: 0, block_ids: Seq::empty(), total_tokens: 0 }),
    {
        BlockTable { sequence_id: 0, block_ids: Vec::new(), total_tokens: 0 }
    }
}

/// A token slot handed out before its contents are known.
#[derive(Debug, Clone, Copy, PartialEq, Eq)]
pub struct TokenReservation {
    pub seq_id: u64,
    pub block_id: BlockId,
    pub slot: usize,
    pub original_block_id: Option<BlockId>,
    pub was_cow: bool,
}

/// Page counts of a manager.
#[derive(Debug, Clone, Copy)]
pub struct KvMetrics {
    pub physical_pages: usize,
    pub logical_pages: usize,
    pub shared_pages: usize,
    pub private_pages: usize,
    pub cow_faults: usize,
    pub bytes_saved_vs_full_copy: usize,
    pub used_blocks: usize,
}

impl Default for KvMetrics {
    fn default() -> (r: Self)
        ensures
            r == (KvMetrics {
                physical_pages: 0,
                logical_pages: 0,
                shared_pages: 0,
                private_pages: 0,
                cow_faults: 0,
                bytes_saved_vs_full_copy: 0,
                used_blocks: 0,
            }),
    {
        KvMetrics {
            physical_pages: 0,
            logical_pages: 0,
            shared_pages: 0,
            private_pages: 0,
            cow_faults: 0,
            bytes_saved_vs_full_copy: 0,
            used_blocks: 0,
        }
    }
}

/// "Sequence N not found".
pub open spec fn sequence_not_found(seq: u64) -> Seq<char> {
    "Sequence "@ + decimal(seq as nat) + " not found"@
}

/// Owns all block bookkeeping and, where one is attached, the tensor pool.
pub struct AienKvManager<B: UnifiedBuffer = HeapUnifiedBuffer> {
    total_blocks: usize,
    block_size: usize,
    free_blocks: Vec<BlockId>,
    blocks: Vec<KvBlock>,
    sequence_tables: HashMap<u64, BlockTable>,
    tensor_pool: Option<UnifiedKvTensorPool<B>>,
    pub cow_faults: usize,
}

impl<B: UnifiedBuffer> View for AienKvManager<B> {
    type V = KvState;

    closed spec fn view(&self) -> KvState {
        KvState {
            total_blocks: self.total_blocks,
            block_size: self.block_size,
            free: self.free_blocks@,
            blocks: self.blocks@,
            tables: view_values(self.sequence_tables@),
            pool: match self.tensor_pool {
                Some(p) => Some(p@),
                None => None,
            },
            cow_faults: self.cow_faults,
        }
    }
}

/// What attaching a heap pool of this shape to `before` gives.
pub open spec fn heap_pool_attached(
    before: KvState,
    config: KvPoolConfig,
    after: KvState,
    r: Result<(), String>,
) -> bool {
    match r {
        Ok(_) => {
            &&& config.dtype !is Fp4
            &&& valid_request(config.pool_bytes() as usize, effective_align(256))
            &&& after.pool is Some
            &&& after == before.with_pool(after.pool->0)
            &&& after.pool->0.wf()
            &&& after.pool->0.config == config
            &&& after.pool->0.bytes == Seq::new(config.pool_bytes() as nat, |i: int| 0u8)
            &&& after.pool->0.address as int % effective_align(256) as int == 0
        },
        Err(e) => {
            &&& after == before
            &&& if config.dtype is Fp4 {
                e@ == "Fp4 sub-byte stride requires packed layout"@
            } else if valid_request(config.pool_bytes() as usize, effective_align(256)) {
                e@ == "Failed to allocate "@ + decimal(config.pool_bytes() as nat)
                    + " bytes on heap"@
            } else {
                e@ == "Invalid layout: invalid parameters to Layout::from_size_align"@
            }
        },
    }
}

/// What attaching a given buffer to `before` gives.
pub open spec fn buffer_attached(
    before: KvState,
    config: KvPoolConfig,
    bytes: Seq<u8>,
    address: u64,
    after: KvState,
    r: Result<(), String>,
) -> bool {
    match r {
        Ok(_) => {
            &&& config.dtype !is Fp4
            &&& config.pool_bytes() <= bytes.len()
            &&& after == before.with_pool(
                PoolState { config, layout: KvLayout::of(config), bytes, address },
            )
            &&& after.pool->0.wf()
        },
        Err(e) => {
            &&& after == before
            &&& if config.dtype is Fp4 {
                e@ == "Fp4 sub-byte stride requires packed layout"@
            } else {
                &&& bytes.len() < config.pool_bytes()
                &&& e@ == "Buffer size "@ + decimal(bytes.len())
                    + " is smaller than required KV tensor pool size "@ + decimal(
                    config.pool_bytes() as nat,
                ) + ""@
            }
        },
    }
}

impl AienKvManager<HeapUnifiedBuffer> {
    /// A manager of `total_blocks` free blocks, without a tensor pool.
    pub fn new(total_blocks: usize, block_size: usize) -> (r: Self)
        ensures
            r@ == KvState::fresh(total_blocks, block_size),
            r@.wf(),
            r@.counts_exact(),
    {
        Self::without_pool(total_blocks, block_size)
    }

    /// A manager with a zeroed tensor pool on the heap.
    pub fn new_with_pool(total_blocks: usize, block_size: usize, config: KvPoolConfig) -> (r:
        Result<Self, String>)
        requires
            config.dtype is Fp4 || config.strides_fit(),
        ensures
            match r {
                Ok(m) => {
                    &&& m@.wf()
                    &&& m@.counts_exact()
                    &&& heap_pool_attached(
                        KvState::fresh(total_blocks, block_size),
                        config,
                        m@,
                        Ok(()),
                    )
                },
                Err(e) => heap_pool_attached(
                    KvState::fresh(total_blocks, block_size),
                    config,
                    KvState::fresh(total_blocks, block_size),
                    Err(e),
                ),
            },
    {
        let mut mgr = Self::new(total_blocks, block_size);
        match mgr.attach_tensor_pool(config) {
            Ok(_) => Ok(mgr),
            Err(e) => Err(e),
        }
    }

    /// A manager with a zeroed tensor pool on the heap.
    pub fn with_tensor_pool(total_blocks: usize, block_size: usize, config: KvPoolConfig) -> (r:
        Result<Self, String>)
        requires
            config.dtype is Fp4 || config.strides_fit(),
        ensures
            match r {
                Ok(m) => {
                    &&& m@.wf()
                    &&& m@.counts_exact()
                    &&& heap_pool_attached(
                        KvState::fresh(total_blocks, block_size),
                        config,
                        m@,
                        Ok(()),
                    )
                },
                Err(e) => heap_pool_attached(
                    KvState::fresh(total_blocks, block_size),
                    config,
                    KvState::fresh(total_blocks, block_size),
                    Err(e),
                ),
            },
    {
        Self::new_with_pool(total_blocks, block_size, config)
    }

    /// Replaces the tensor pool by a zeroed one on the heap.
    pub fn attach_tensor_pool(&mut self, config: KvPoolConfig) -> (r: Result<(), String>)
        requires
            config.dtype is Fp4 || config.strides_fit(),
        ensures
            heap_pool_attached(old(self)@, config, final(self)@, r),
            old(self)@.wf() ==> final(self)@.wf(),
    {
        match UnifiedKvTensorPool::allocate(config) {
            Ok(pool) => {
                self.tensor_pool = Some(pool);
                proof {
                    old(self)@.lemma_with_pool_wf(pool@);
                }
                Ok(())
            },
            Err(e) => Err(e),
        }
    }
}

impl<B: UnifiedBuffer> AienKvManager<B> {
    fn without_pool(total_blocks: usize, block_size: usize) -> (r: Self)
        ensures
            r@ == KvState::fresh(total_blocks, block_size),
            r@.wf(),
            r@.counts_exact(),
    {
        let mut free_blocks: Vec<BlockId> = Vec::new();
        let mut blocks: Vec<KvBlock> = Vec::new();
        let mut id: usize = 0;
        while id < total_blocks
            invariant
                id <= total_blocks,
                free_blocks@.len() == id,
                blocks@.len() == id,
                forall|i: int|
                    0 <= i < id ==> #[trigger] free_blocks@[i] == (total_blocks - 1 - i) as usize,
                forall|i: int|
                    0 <= i < id ==> #[trigger] blocks@[i] == (KvBlock {
                        block_id: i as usize,
                        ref_count: 0,
                        num_tokens: 0,
                        is_shared: false,
                    }),
            decreases total_blocks - id,
        {
            free_blocks.push(total_blocks - 1 - id);
            blocks.push(
                KvBlock { block_id: id, ref_count: 0, num_tokens: 0, is_shared: false },
            );
            id = id + 1;
        }
        let r = Self {
            total_blocks,
            block_size,
            free_blocks,
            blocks,
            sequence_tables: HashMap::new(),
            tensor_pool: None,
            cow_faults: 0,
        };
        proof {
            assert(r@ =~= KvState::fresh(total_blocks, block_size));
            KvState::lemma_fresh_wf(total_blocks, block_size);
        }
        r
    }

    /// A manager whose tensor pool lies over the given buffer.
    pub fn with_buffer(
        total_blocks: usize,
        block_size: usize,
        config: KvPoolConfig,
        buffer: B,
    ) -> (r: Result<Self, String>)
        requires
            config.dtype is Fp4 || config.strides_fit(),
        ensures
            match r {
                Ok(m) => {
                    &&& m@.wf()
                    &&& m@.counts_exact()
                    &&& buffer_attached(
                        KvState::fresh(total_blocks, block_size),
                        config,
                        buffer.contents(),
                        buffer.address(),
                        m@,
                        Ok(()),
                    )
                },
                Err(e) => buffer_attached(
                    KvState::fresh(total_blocks, block_size),
                    config,
                    buffer.contents(),
                    buffer.address(),
                    KvState::fresh(total_blocks, block_size),
                    Err(e),
                ),
            },
    {
        let mut mgr = Self::without_pool(total_blocks, block_size);
        match mgr.attach_buffer(config, buffer) {
            Ok(_) => Ok(mgr),
            Err(e) => Err(e),
        }
    }

    /// Replaces the tensor pool by one that lies over the given buffer.
    pub fn attach_buffer(&mut self, config: KvPoolConfig, buffer: B) -> (r: Result<(), String>)
        requires
            config.dtype is Fp4 || config.strides_fit(),
        ensures
            buffer_attached(
                old(self)@,
                config,
                buffer.contents(),
                buffer.address(),
                final(self)@,
                r,
            ),
            old(self)@.wf() ==> final(self)@.wf(),
    {
        match UnifiedKvTensorPool::new(config, buffer) {
            Ok(pool) => {
                self.tensor_pool = Some(pool);
                proof {
                    old(self)@.lemma_with_pool_wf(pool@);
                }
                Ok(())
            },
            Err(e) => Err(e),
        }
    }

    pub fn available_blocks(&self) -> (r: usize)
        ensures
            r == self@.free.len(),
    {
        self.free_blocks.len()
    }

    /// Index, count and sharing mark of each counted block.
    pub fn debug_active_blocks(&self) -> (r: Vec<(usize, usize, bool)>)
        ensures
            r@ == self@.active_among(self@.blocks.len() as int),
    {
        let mut r: Vec<(usize, usize, bool)> = Vec::new();
        let mut i: usize = 0;
        while i < self.blocks.len()
            invariant
                i <= self.blocks@.len(),
                r@ == self@.active_among(i as int),
            decreases self.blocks@.len() - i,
        {
            if self.blocks[i].ref_count > 0 {
                r.push((i, self.blocks[i].ref_count, self.blocks[i].is_shared));
            }
            i = i + 1;
        }
        r
    }

    pub fn active_sequence_count(&self) -> (r: usize)
        ensures
            r == self@.tables.dom().len(),
    {
        self.sequence_tables.len()
    }

    /// Counted blocks.
    pub fn physical_page_count(&self) -> (r: usize)
        ensures
            r == self@.physical_pages(),
    {
        let ghost pred = |b: KvBlock| b.ref_count > 0;
        let mut n: usize = 0;
        let mut i: usize = 0;
        while i < self.blocks.len()
            invariant
                n <= i <= self.blocks@.len(),
                n == self.blocks@.take(i as int).filter(pred).len(),
                pred == (|b: KvBlock| b.ref_count > 0),
            decreases self.blocks@.len() - i,
        {
            proof {
                lemma_filter_take(self.blocks@, i as int, pred);
            }
            if self.blocks[i].ref_count > 0 {
                n = n + 1;
            }
            i = i + 1;
        }
        assert(self.blocks@.take(self.blocks@.len() as int) =~= self.blocks@);
        n
    }

    /// Blocks counted more than once.
    pub fn shared_page_count(&self) -> (r: usize)
        ensures
            r == self@.shared_pages(),
    {
        let ghost pred = |b: KvBlock| b.ref_count > 1;
        let mut n: usize = 0;
        let mut i: usize = 0;
        while i < self.blocks.len()
            invariant
                n <= i <= self.blocks@.len(),
                n == self.blocks@.take(i as int).filter(pred).len(),
                pred == (|b: KvBlock| b.ref_count > 1),
            decreases self.blocks@.len() - i,
        {
            proof {
                lemma_filter_take(self.blocks@, i as int, pred);
            }
            if self.blocks[i].ref_count > 1 {
                n = n + 1;
            }
            i = i + 1;
        }
        assert(self.blocks@.take(self.blocks@.len() as int) =~= self.blocks@);
        n
    }

    /// Blocks counted once.
    pub fn private_page_count(&self) -> (r: usize)
        ensures
            r == self@.private_pages(),
    {
        let ghost pred = |b: KvBlock| b.ref_count == 1;
        let mut n: usize = 0;
        let mut i: usize = 0;
        while i < self.blocks.len()
            invariant
                n <= i <= self.blocks@.len(),
                n == self.blocks@.take(i as int).filter(pred).len(),
                pred == (|b: KvBlock| b.ref_count == 1),
            decreases self.blocks@.len() - i,
        {
            proof {
                lemma_filter_take(self.blocks@, i as int, pred);
            }
            if self.blocks[i].ref_count == 1 {
                n = n + 1;
            }
            i = i + 1;
        }
        assert(self.blocks@.take(self.blocks@.len() as int) =~= self.blocks@);
        n
    }

    /// Blocks named by all tables together.
    fn logical_page_count(&self) -> (r: usize)
        requires
            self@.logical_pages() <= usize::MAX,
        ensures
            r == self@.logical_pages(),
    {
        let keys = sorted_keys(&self.sequence_tables);
        let ghost all = self@.tables.map_values(|t: TableState| t.block_ids);
        let ghost mut left = all;
        let mut n: usize = 0;
        let mut i: usize = 0;
        proof {
            vstd::seq_lib::seq_to_set_is_finite(keys@);
            assert(all.dom() =~= self.sequence_tables@.dom());
        }
        while i < keys.len()
            invariant
                i <= keys@.len(),
                ascending(keys@),
                keys@.to_set() == self.sequence_tables@.dom(),
                all == self@.tables.map_values(|t: TableState| t.block_ids),
                left.dom().finite(),
                left.submap_of(all),
                forall|s: u64| #[trigger]
                    left.contains_key(s) <==> exists|j: int| i <= j < keys@.len() && keys@[j] == s,
                n + total_len(left) == total_len(all),
                total_len(all) <= usize::MAX,
            decreases keys@.len() - i,
        {
            let key: u64 = keys[i];
            proof {
                assert(keys@.to_set().contains(keys@[i as int]));
                assert(left.contains_key(key));
                lemma_total_len_remove(left, key);
            }
            match self.sequence_tables.get(&key) {
                Some(t) => {
                    assert(all.contains_key(key));
                    assert(all[key] == t.block_ids@);
                    n = n + t.block_ids.len();
                },
                None => {
                    assert(false);
                },
            }
            proof {
                left = left.remove(key);
                assert forall|s: u64| #[trigger] left.contains_key(s) <==> exists|j: int|
                    i + 1 <= j < keys@.len() && keys@[j] == s by {
                    if exists|j: int| i + 1 <= j < keys@.len() && keys@[j] == s {
                        let j = choose|j: int| i + 1 <= j < keys@.len() && keys@[j] == s;
                        assert(keys@[i as int] < keys@[j]);
                    }
                }
            }
            i = i + 1;
        }
        proof {
            assert(left.dom() =~= Set::<u64>::empty());
        }
        n
    }

    /// Page counts, and the bytes that sharing saves over a full copy per sequence.
    pub fn metrics(&self) -> (r: KvMetrics)
        requires
            self@.logical_pages() <= usize::MAX,
            self@.bytes_saved() <= usize::MAX,
        ensures
            r.physical_pages == self@.physical_pages(),
            r.logical_pages == self@.logical_pages(),
            r.shared_pages == self@.shared_pages(),
            r.private_pages == self@.private_pages(),
            r.cow_faults == self@.cow_faults,
            r.bytes_saved_vs_full_copy == self@.bytes_saved(),
            r.used_blocks == self@.physical_pages(),
            self@.wf() ==> r.physical_pages == r.shared_pages + r.private_pages
                && r.used_blocks == self@.total_blocks - self@.free.len(),
            self@.wf() && self@.counts_exact() ==> r.logical_pages >= r.physical_pages
                && r.bytes_saved_vs_full_copy == (r.logical_pages - r.physical_pages)
                * self@.block_bytes(),
    {
        proof {
            if self@.wf() {
                self@.law_pages_add_up();
                if self@.counts_exact() {
                    self@.law_logical_covers_physical();
                }
            }
        }
        let physical_pages: usize = self.physical_page_count();
        let logical_pages: usize = self.logical_page_count();
        let shared_pages: usize = self.shared_page_count();
        let private_pages: usize = self.private_page_count();
        let bytes_per_block: usize = match &self.tensor_pool {
            Some(p) => p.block_bytes(),
            None => 0,
        };
        let extra: usize = logical_pages.saturating_sub(physical_pages);
        assert(extra == 0 ==> extra * bytes_per_block == 0) by (nonlinear_arith);
        assert(0 <= extra * bytes_per_block) by (nonlinear_arith)
            requires
                0 <= extra,
                0 <= bytes_per_block,
        ;
        let bytes_saved_vs_full_copy: usize = extra * bytes_per_block;
        KvMetrics {
            physical_pages,
            logical_pages,
            shared_pages,
            private_pages,
            cow_faults: self.cow_faults,
            bytes_saved_vs_full_copy,
            used_blocks: physical_pages,
        }
    }

    pub fn pool(&self) -> (r: Option<&UnifiedKvTensorPool<B>>)
        ensures
            match r {
                Some(p) => self@.pool == Some(p@),
                None => self@.pool is None,
            },
    {
        self.tensor_pool.as_ref()
    }

    /// The tensor pool; what the borrower leaves in it is the manager's pool.
    pub fn pool_mut(&mut self) -> (r: Option<&mut UnifiedKvTensorPool<B>>)
        ensures
            match r {
                Some(p) => old(self)@.pool == Some(p@) && final(self)@ == old(self)@.with_pool(
                    final(p)@,
                ),
                None => old(self)@.pool is None && final(self)@ == old(self)@,
            },
    {
        self.tensor_pool.as_mut()
    }

    pub fn free_block_count(&self) -> (r: usize)
        ensures
            r == self@.free.len(),
    {
        self.free_blocks.len()
    }

    pub fn allocated_block_count(&self) -> (r: usize)
        requires
            self@.wf(),
        ensures
            r == self@.total_blocks - self@.free.len(),
    {
        proof {
            self@.lemma_free_fits();
        }
        self.total_blocks - self.free_blocks.len()
    }

    /// Takes a free block and clears it.
    pub fn allocate_block(&mut self) -> (r: Result<BlockId, String>)
        requires
            old(self)@.wf(),
            old(self)@.free.len() > 0 ==> old(self)@.pool_reaches(
                old(self)@.next_free() as int,
            ),
        ensures
            final(self)@.wf(),
            match r {
                Ok(b) => {
                    &&& old(self)@.free.len() > 0
                    &&& b == old(self)@.next_free()
                    &&& final(self)@ == old(self)@.take_block()
                },
                Err(e) => {
                    &&& old(self)@.free.len() == 0
                    &&& final(self)@ == old(self)@
                    &&& e@ == "Out of physical KV blocks"@
                },
            },
    {
        let ghost before = self@;
        let blk_id: usize = match self.free_blocks.pop() {
            Some(b) => b,
            None => {
                return Err("Out of physical KV blocks".to_owned());
            },
        };
        proof {
            before.lemma_take_block_wf();
        }
        let old_block = self.blocks[blk_id];
        self.blocks[blk_id] = KvBlock {
            block_id: old_block.block_id,
            ref_count: 1,
            num_tokens: 0,
            is_shared: false,
        };
        match &mut self.tensor_pool {
            Some(pool) => {
                pool.zero_block(blk_id);
            },
            None => {},
        }
        assert(self@ =~= before.take_block());
        Ok(blk_id)
    }
}

/// What a request to allocate `tokens` tokens for `seq` gives.
pub open spec fn allocate_outcome(
    before: KvState,
    seq: u64,
    tokens: int,
    after: KvState,
    r: Result<Vec<BlockId>, String>,
) -> bool {
    &&& after == before.allocate_or_keep(seq, tokens)
    &&& match r {
        Ok(ids) => {
            &&& after.tables.contains_key(seq)
            &&& ids@ == after.tables[seq].block_ids
        },
        Err(e) => {
            &&& !before.tables.contains_key(seq)
            &&& before.free.len() < before.blocks_needed(tokens)
            &&& e@ == "Insufficient blocks: need "@ + decimal(before.blocks_needed(tokens) as nat)
                + ", have "@ + decimal(before.free.len()) + ""@
        },
    }
}

/// What a request to fork gives.
pub open spec fn fork_outcome(
    before: KvState,
    parent: u64,
    child: u64,
    after: KvState,
    r: Result<Vec<BlockId>, String>,
) -> bool {
    match r {
        Ok(ids) => {
            &&& before.tables.contains_key(parent)
            &&& ids@ == before.tables[parent].block_ids
            &&& after == before.fork(parent, child)
        },
        Err(e) => {
            &&& !before.tables.contains_key(parent)
            &&& after == before
            &&& e@ == "Parent sequence "@ + decimal(parent as nat) + " not found"@
        },
    }
}

/// Why a request to append fails.
pub open spec fn append_error(before: KvState, seq: u64) -> Seq<char> {
    if before.tables.contains_key(seq) {
        "Out of physical KV blocks"@
    } else {
        sequence_not_found(seq)
    }
}

impl<B: UnifiedBuffer> AienKvManager<B> {
    /// Branches `child_id` off `parent_id`.
    pub fn fork_context(&mut self, parent_id: u64, child_id: u64) -> (r: Result<
        Vec<BlockId>,
        String,
    >)
        requires
            old(self)@.wf(),
            old(self)@.fork_fits(parent_id),
        ensures
            final(self)@.wf(),
            fork_outcome(old(self)@, parent_id, child_id, final(self)@, r),
    {
        self.fork_sequence(parent_id, child_id)
    }

    /// Lets go of a branch.
    pub fn release_branch(&mut self, seq_id: u64)
        requires
            old(self)@.wf(),
        ensures
            final(self)@.wf(),
            final(self)@ == old(self)@.free_sequence(seq_id),
    {
        self.free_sequence(seq_id);
    }

    /// Gives a new sequence the blocks for its prompt; a known one keeps its own.
    pub fn allocate_sequence(&mut self, seq_id: u64, prompt_tokens: &[u32]) -> (r: Result<
        Vec<BlockId>,
        String,
    >)
        requires
            old(self)@.wf(),
            old(self)@.tables.contains_key(seq_id) || old(self)@.allocate_fits(
                prompt_tokens@.len() as int,
            ),
        ensures
            final(self)@.wf(),
            allocate_outcome(old(self)@, seq_id, prompt_tokens@.len() as int, final(self)@, r),
    {
        let ghost before = self@;
        match self.sequence_tables.get(&seq_id) {
            Some(table) => {
                let ids = table.block_ids.clone();
                assert(ids@ =~= table.block_ids@);
                return Ok(ids);
            },
            None => {},
        }
        let num_tokens: usize = prompt_tokens.len();
        let blocks_needed: usize = if num_tokens % self.block_size == 0 {
            num_tokens / self.block_size
        } else {
            proof {
                before.lemma_blocks_needed(num_tokens as int);
            }
            num_tokens / self.block_size + 1
        };
        if self.free_blocks.len() < blocks_needed {
            return Err(
                numbered_twice(
                    "Insufficient blocks: need ",
                    blocks_needed as u64,
                    ", have ",
                    self.free_blocks.len() as u64,
                    "",
                ),
            );
        }
        let mut assigned: Vec<BlockId> = Vec::new();
        let mut tokens_remaining: usize = num_tokens;
        let mut taken: usize = 0;
        proof {
            before.lemma_blocks_needed(num_tokens as int);
            before.lemma_fill_blocks(num_tokens as int, blocks_needed as int);
        }
        while taken < blocks_needed
            invariant
                taken <= blocks_needed,
                blocks_needed <= before.free.len(),
                before.wf(),
                before.block_size > 0,
                before.allocate_fits(num_tokens as int),
                blocks_needed == before.blocks_needed(num_tokens as int),
                self@.wf(),
                self@.total_blocks == before.total_blocks,
                self@.block_size == before.block_size,
                self@.tables == before.tables,
                self@.free == before.free.take(before.free.len() - taken),
                before.pool is Some <==> self@.pool is Some,
                self@.pool is Some ==> self@.pool->0.layout == before.pool->0.layout,
                0 <= tokens_remaining <= (blocks_needed - taken) * before.block_size,
                blocks_needed > taken ==> tokens_remaining > (blocks_needed - taken - 1)
                    * before.block_size,
                assigned@ == before.next_blocks(taken as int),
                before.fill_blocks(num_tokens as int, blocks_needed as int)
                    == self@.fill_blocks(
                    tokens_remaining as int,
                    blocks_needed - taken,
                ),
            decreases blocks_needed - taken,
        {
            let ghost here = self@;
            let ghost bs = before.block_size as int;
            let ghost left = blocks_needed - taken;
            proof {
                assert(here.next_free() == before.free[before.free.len() - 1 - taken]);
                here.lemma_fill_blocks(tokens_remaining as int, left);
                assert((left - 1) * bs + bs == left * bs) by (nonlinear_arith);
                assert(left > 1 ==> (left - 2) * bs + bs == (left - 1) * bs && (left - 1) * bs
                    >= bs) by (nonlinear_arith)
                    requires
                        bs >= 1,
                ;
            }
            let blk: usize = match self.allocate_block() {
                Ok(b) => b,
                Err(e) => {
                    assert(false);
                    return Err(e);
                },
            };
            let tokens_in_blk: usize = if tokens_remaining < self.block_size {
                tokens_remaining
            } else {
                self.block_size
            };
            let old_block = self.blocks[blk];
            self.blocks[blk] = KvBlock {
                block_id: old_block.block_id,
                ref_count: old_block.ref_count,
                num_tokens: tokens_in_blk,
                is_shared: old_block.is_shared,
            };
            proof {
                let next = here.take_block().with_block_tokens(blk, tokens_in_blk);
                assert(self@ =~= next);
                here.lemma_fill_step_wf(tokens_remaining as int, left);
                assert(self@.free =~= before.free.take(before.free.len() - taken - 1));
            }
            tokens_remaining = tokens_remaining - tokens_in_blk;
            assigned.push(blk);
            taken = taken + 1;
            assert(assigned@ =~= before.next_blocks(taken as int));
        }
        let block_ids = assigned.clone();
        assert(block_ids@ =~= assigned@);
        proof {
            assert(self@ == before.fill_blocks(num_tokens as int, blocks_needed as int));
            before.lemma_allocate_wf(seq_id, num_tokens as int);
        }
        self.sequence_tables.insert(
            seq_id,
            BlockTable { sequence_id: seq_id, block_ids, total_tokens: num_tokens },
        );
        assert(self@ =~= before.allocate(seq_id, num_tokens as int));
        Ok(assigned)
    }

    /// Gives `child_id` the blocks of `parent_id`, shared.
    pub fn fork_sequence(&mut self, parent_id: u64, child_id: u64) -> (r: Result<
        Vec<BlockId>,
        String,
    >)
        requires
            old(self)@.wf(),
            old(self)@.fork_fits(parent_id),
        ensures
            final(self)@.wf(),
            fork_outcome(old(self)@, parent_id, child_id, final(self)@, r),
    {
        let ghost before = self@;
        let parent = match self.sequence_tables.get(&parent_id) {
            Some(t) => t.clone(),
            None => {
                return Err(numbered("Parent sequence ", parent_id, " not found"));
            },
        };
        let ghost ids = before.tables[parent_id].block_ids;
        assert(before.table_wf(parent_id, before.tables[parent_id]));
        let mut i: usize = 0;
        while i < parent.block_ids.len()
            invariant
                i <= ids.len(),
                before.wf(),
                before.tables.contains_key(parent_id),
                before.table_wf(parent_id, before.tables[parent_id]),
                before.fork_fits(parent_id),
                ids == before.tables[parent_id].block_ids,
                parent@ == before.tables[parent_id],
                self@ == (KvState { blocks: self@.blocks, ..before }),
                self@.blocks.len() == before.blocks.len(),
                forall|b: int|
                    #![trigger self@.blocks[b]]
                    0 <= b < before.blocks.len() ==> self@.blocks[b] == if ids.take(
                        i as int,
                    ).contains(b as usize) {
                        KvBlock {
                            ref_count: (before.blocks[b].ref_count + 1) as usize,
                            is_shared: true,
                            ..before.blocks[b]
                        }
                    } else {
                        before.blocks[b]
                    },
            decreases ids.len() - i,
        {
            let blk_id: usize = parent.block_ids[i];
            let ghost here = self@;
            assert(ids[i as int] == blk_id);
            assert(!ids.take(i as int).contains(blk_id)) by {
                if ids.take(i as int).contains(blk_id) {
                    let j = choose|j: int| 0 <= j < i && ids.take(i as int)[j] == blk_id;
                    assert(ids[j] == ids[i as int]);
                }
            }
            let block = self.blocks[blk_id];
            assert(here.blocks[blk_id as int] == before.blocks[blk_id as int]);
            self.blocks[blk_id] = KvBlock {
                block_id: block.block_id,
                ref_count: block.ref_count + 1,
                num_tokens: block.num_tokens,
                is_shared: true,
            };
            proof {
                let more = ids.take(i + 1);
                assert(more =~= ids.take(i as int).push(blk_id));
                assert forall|b: int|
                    #![trigger self@.blocks[b]]
                    0 <= b < before.blocks.len() implies self@.blocks[b] == if more.contains(
                    b as usize,
                ) {
                    KvBlock {
                        ref_count: (before.blocks[b].ref_count + 1) as usize,
                        is_shared: true,
                        ..before.blocks[b]
                    }
                } else {
                    before.blocks[b]
                } by {
                    assert(here.blocks[b] == here.blocks[b]);
                    vstd::seq_lib::lemma_seq_contains_after_push(
                        ids.take(i as int),
                        blk_id,
                        b as usize,
                    );
                }
            }
            i = i + 1;
        }
        proof {
            assert(ids.take(ids.len() as int) =~= ids);
            before.lemma_fork_wf(parent_id, child_id);
        }
        let child = BlockTable {
            sequence_id: child_id,
            block_ids: parent.clone().block_ids,
            total_tokens: parent.total_tokens,
        };
        self.sequence_tables.insert(child_id, child);
        assert(self@ =~= before.fork(parent_id, child_id));
        Ok(parent.block_ids)
    }

    /// Counts one more token of a sequence; the block that took it.
    pub fn append_token(&mut self, seq_id: u64) -> (r: Result<BlockId, String>)
        requires
            old(self)@.wf(),
            old(self)@.append_fits(seq_id),
        ensures
            final(self)@.wf(),
            final(self)@ == old(self)@.append_or_keep(seq_id),
            match r {
                Ok(b) => old(self)@.append_possible(seq_id) && b == old(self)@.append_slot(
                    seq_id,
                ).0,
                Err(e) => !old(self)@.append_possible(seq_id) && e@ == append_error(
                    old(self)@,
                    seq_id,
                ),
            },
    {
        match self.append_token_with_slot(seq_id) {
            Ok(place) => Ok(place.0),
            Err(e) => Err(e),
        }
    }

    /// Counts one more token of a sequence; the block that took it and its slot there.
    /// A shared, partly filled last block is first replaced by a private copy.
    pub fn append_token_with_slot(&mut self, seq_id: u64) -> (r: Result<(BlockId, usize), String>)
        requires
            old(self)@.wf(),
            old(self)@.append_fits(seq_id),
        ensures
            final(self)@.wf(),
            final(self)@ == old(self)@.append_or_keep(seq_id),
            match r {
                Ok(place) => old(self)@.append_possible(seq_id) && place
                    == old(self)@.append_slot(seq_id),
                Err(e) => !old(self)@.append_possible(seq_id) && e@ == append_error(
                    old(self)@,
                    seq_id,
                ),
            },
    {
        let ghost before = self@;
        let (count, last_blk_id): (usize, usize) = match self.sequence_tables.get(&seq_id) {
            Some(table) => {
                let n: usize = table.block_ids.len();
                if n == 0 {
                    (0, 0)
                } else {
                    (n, table.block_ids[n - 1])
                }
            },
            None => {
                return Err(numbered("Sequence ", seq_id, " not found"));
            },
        };
        let ghost t = before.tables[seq_id];
        assert(before.table_wf(seq_id, t));
        assert(count > 0 ==> t.block_ids[count - 1] == last_blk_id);
        if count > 0 && self.blocks[last_blk_id].num_tokens < self.block_size
            && !self.blocks[last_blk_id].is_shared {
            proof {
                before.lemma_append_wf(seq_id);
            }
            let block = self.blocks[last_blk_id];
            let slot: usize = block.num_tokens;
            self.blocks[last_blk_id] = KvBlock {
                block_id: block.block_id,
                ref_count: block.ref_count,
                num_tokens: block.num_tokens + 1,
                is_shared: block.is_shared,
            };
            let mut table = self.take_table(seq_id);
            table.total_tokens = table.total_tokens + 1;
            self.sequence_tables.insert(seq_id, table);
            assert(self@ =~= before.append(seq_id));
            return Ok((last_blk_id, slot));
        }
        let copies: bool = count > 0 && self.blocks[last_blk_id].num_tokens < self.block_size;
        let new_blk: usize = match self.allocate_block() {
            Ok(b) => b,
            Err(e) => {
                return Err(e);
            },
        };
        proof {
            before.lemma_take_block_wf();
            before.lemma_append_wf(seq_id);
        }
        if copies {
            proof {
                before.lemma_held_is_counted(seq_id, count - 1);
                assert(t.block_ids.contains(last_blk_id));
            }
            match &mut self.tensor_pool {
                Some(pool) => {
                    pool.copy_block(last_blk_id, new_blk);
                },
                None => {},
            }
            let old_block = self.blocks[last_blk_id];
            let slot: usize = old_block.num_tokens;
            assert(before.block_wf(last_blk_id as int));
            let count_left: usize = old_block.ref_count - 1;
            self.blocks[last_blk_id] = KvBlock {
                block_id: old_block.block_id,
                ref_count: count_left,
                num_tokens: old_block.num_tokens,
                is_shared: if count_left == 1 {
                    false
                } else {
                    old_block.is_shared
                },
            };
            let fresh = self.blocks[new_blk];
            self.blocks[new_blk] = KvBlock {
                block_id: fresh.block_id,
                ref_count: fresh.ref_count,
                num_tokens: slot + 1,
                is_shared: false,
            };
            self.cow_faults = self.cow_faults + 1;
            let mut table = self.take_table(seq_id);
            let last: usize = count - 1;
            table.block_ids[last] = new_blk;
            table.total_tokens = table.total_tokens + 1;
            assert(table.block_ids@ =~= t.block_ids.drop_last().push(new_blk));
            self.sequence_tables.insert(seq_id, table);
            assert(self@ =~= before.append(seq_id));
            Ok((new_blk, slot))
        } else {
            let fresh = self.blocks[new_blk];
            self.blocks[new_blk] = KvBlock {
                block_id: fresh.block_id,
                ref_count: fresh.ref_count,
                num_tokens: 1,
                is_shared: fresh.is_shared,
            };
            let mut table = self.take_table(seq_id);
            table.block_ids.push(new_blk);
            table.total_tokens = table.total_tokens + 1;
            self.sequence_tables.insert(seq_id, table);
            assert(self@ =~= before.append(seq_id));
            Ok((new_blk, 0))
        }
    }

    /// Takes a table out, to be changed and put back.
    fn take_table(&mut self, seq_id: u64) -> (r: BlockTable)
        requires
            old(self)@.tables.contains_key(seq_id),
        ensures
            r@ == old(self)@.tables[seq_id],
            final(self)@ == (KvState { tables: old(self)@.tables.remove(seq_id), ..old(self)@ }),
    {
        match self.sequence_tables.remove(&seq_id) {
            Some(t) => t,
            None => {
                assert(false);
                BlockTable::default()
            },
        }
    }

    /// Appends a token and describes its slot.
    pub fn reserve_token(&mut self, seq_id: u64) -> (r: Result<TokenReservation, String>)
        requires
            old(self)@.wf(),
            old(self)@.append_fits(seq_id),
        ensures
            final(self)@.wf(),
            final(self)@ == old(self)@.append_or_keep(seq_id),
            match r {
                Ok(t) => old(self)@.append_possible(seq_id) && t == (TokenReservation {
                    seq_id,
                    block_id: old(self)@.append_slot(seq_id).0,
                    slot: old(self)@.append_slot(seq_id).1,
                    original_block_id: None,
                    was_cow: false,
                }),
                Err(e) => !old(self)@.append_possible(seq_id) && e@ == append_error(
                    old(self)@,
                    seq_id,
                ),
            },
    {
        match self.append_token_with_slot(seq_id) {
            Ok(place) => Ok(
                TokenReservation {
                    seq_id,
                    block_id: place.0,
                    slot: place.1,
                    original_block_id: None,
                    was_cow: false,
                },
            ),
            Err(e) => Err(e),
        }
    }

    /// Accepts a reservation; the append already counted the token.
    pub fn commit(&mut self, _reservation: TokenReservation) -> (r: Result<(), String>)
        ensures
            r is Ok,
            final(self)@ == old(self)@,
    {
        Ok(())
    }

    /// Takes the token of a reservation back from its sequence's count. The block keeps
    /// its fill.
    pub fn rollback(&mut self, reservation: TokenReservation) -> (r: Result<(), String>)
        requires
            old(self)@.wf(),
        ensures
            final(self)@.wf(),
            match r {
                Ok(_) => old(self)@.tables.contains_key(reservation.seq_id) && final(self)@
                    == old(self)@.rollback(reservation.seq_id),
                Err(e) => !old(self)@.tables.contains_key(reservation.seq_id) && final(self)@
                    == old(self)@ && e@ == sequence_not_found(reservation.seq_id),
            },
    {
        let ghost before = self@;
        if !self.sequence_tables.contains_key(&reservation.seq_id) {
            return Err(numbered("Sequence ", reservation.seq_id, " not found"));
        }
        proof {
            before.lemma_rollback_wf(reservation.seq_id);
        }
        let mut table = self.take_table(reservation.seq_id);
        table.total_tokens = table.total_tokens.saturating_sub(1);
        self.sequence_tables.insert(reservation.seq_id, table);
        assert(self@ =~= before.rollback(reservation.seq_id));
        Ok(())
    }
}

/// A table can be read through the pool: every block that holds one of its tokens, and
/// the layer, exist there.
pub open spec fn readable(state: KvState, seq: u64, layer: int) -> bool {
    state.tables.contains_key(seq) && state.pool is Some ==> {
        let pool = state.pool->0;
        let t = state.tables[seq];
        &&& pool.has_element_access()
        &&& forall|i: int|
            #![trigger t.block_ids[i]]
            0 <= i < t.block_ids.len() && pool.config.block_size > 0 && i * pool.config.block_size
                < t.total_tokens ==> t.block_ids[i] < pool.layout.num_blocks && layer
                < pool.layout.num_layers
    }
}

/// What gathering a layer of a sequence gives.
pub open spec fn gather_outcome(
    state: KvState,
    seq: u64,
    layer: int,
    r: Result<(Vec<u32>, Vec<u32>), String>,
) -> bool {
    match r {
        Ok(rows) => {
            &&& state.tables.contains_key(seq)
            &&& state.pool is Some
            &&& rows.0@ == state.sequence_rows(seq, layer, false)
            &&& rows.1@ == state.sequence_rows(seq, layer, true)
        },
        Err(e) => if state.tables.contains_key(seq) {
            state.pool is None && e@ == "No physical tensor pool attached"@
        } else {
            e@ == sequence_not_found(seq)
        },
    }
}

impl<B: UnifiedBuffer> AienKvManager<B> {
    /// Lets go of a sequence's blocks; those that nobody else counts become free.
    pub fn free_sequence(&mut self, seq_id: u64)
        requires
            old(self)@.wf(),
        ensures
            final(self)@.wf(),
            final(self)@ == old(self)@.free_sequence(seq_id),
    {
        let ghost before = self@;
        if !self.sequence_tables.contains_key(&seq_id) {
            return ;
        }
        let ghost ids = before.tables[seq_id].block_ids;
        let ghost pred = |b: usize| before.blocks[b as int].ref_count == 1;
        let table = self.take_table(seq_id);
        let mut i: usize = 0;
        proof {
            before.lemma_free_sequence_wf(seq_id);
            assert(before.table_wf(seq_id, before.tables[seq_id]));
            reveal(Seq::filter);
            assert(ids.take(0).filter(pred) =~= Seq::<usize>::empty());
        }
        while i < table.block_ids.len()
            invariant
                i <= ids.len(),
                before.wf(),
                before.tables.contains_key(seq_id),
                before.table_wf(seq_id, before.tables[seq_id]),
                ids == before.tables[seq_id].block_ids,
                table.block_ids@ == ids,
                pred == (|b: usize| before.blocks[b as int].ref_count == 1),
                self@ == (KvState {
                    blocks: self@.blocks,
                    free: self@.free,
                    tables: before.tables.remove(seq_id),
                    ..before
                }),
                self@.free == before.free + ids.take(i as int).filter(pred),
                self@.blocks.len() == before.blocks.len(),
                forall|b: int|
                    #![trigger self@.blocks[b]]
                    0 <= b < before.blocks.len() ==> self@.blocks[b] == if ids.take(
                        i as int,
                    ).contains(b as usize) {
                        KvState::released(before.blocks[b])
                    } else {
                        before.blocks[b]
                    },
            decreases ids.len() - i,
        {
            let blk_id: usize = table.block_ids[i];
            let ghost here = self@;
            proof {
                assert(ids[i as int] == blk_id);
                before.lemma_held_is_counted(seq_id, i as int);
                assert(before.block_wf(blk_id as int));
                if ids.take(i as int).contains(blk_id) {
                    let j = choose|j: int| 0 <= j < i && ids.take(i as int)[j] == blk_id;
                    assert(ids[j] == ids[i as int]);
                }
                assert(here.blocks[blk_id as int] == before.blocks[blk_id as int]);
                lemma_id_filter_take(ids, i as int, pred);
            }
            let block = self.blocks[blk_id];
            let count: usize = block.ref_count - 1;
            if count == 0 {
                self.blocks[blk_id] = KvBlock {
                    block_id: block.block_id,
                    ref_count: count,
                    num_tokens: 0,
                    is_shared: false,
                };
                self.free_blocks.push(blk_id);
                assert(self@.free =~= before.free + ids.take(i + 1).filter(pred));
            } else if count == 1 {
                self.blocks[blk_id] = KvBlock {
                    block_id: block.block_id,
                    ref_count: count,
                    num_tokens: block.num_tokens,
                    is_shared: false,
                };
            } else {
                self.blocks[blk_id] = KvBlock {
                    block_id: block.block_id,
                    ref_count: count,
                    num_tokens: block.num_tokens,
                    is_shared: block.is_shared,
                };
            }
            proof {
                let more = ids.take(i + 1);
                assert(more =~= ids.take(i as int).push(blk_id));
                assert forall|b: int|
                    #![trigger self@.blocks[b]]
                    0 <= b < before.blocks.len() implies self@.blocks[b] == if more.contains(
                    b as usize,
                ) {
                    KvState::released(before.blocks[b])
                } else {
                    before.blocks[b]
                } by {
                    assert(here.blocks[b] == here.blocks[b]);
                    vstd::seq_lib::lemma_seq_contains_after_push(
                        ids.take(i as int),
                        blk_id,
                        b as usize,
                    );
                }
            }
            i = i + 1;
        }
        assert(ids.take(ids.len() as int) =~= ids);
        assert(self@ =~= before.free_sequence(seq_id));
    }

    pub fn get_block_table(&self, seq_id: u64) -> (r: Option<&BlockTable>)
        ensures
            match r {
                Some(t) => self@.tables.contains_key(seq_id) && t@ == self@.tables[seq_id],
                None => !self@.tables.contains_key(seq_id),
            },
    {
        self.sequence_tables.get(&seq_id)
    }

    pub fn get_block(&self, block_id: BlockId) -> (r: Option<&KvBlock>)
        ensures
            match r {
                Some(b) => block_id < self@.blocks.len() && *b == self@.blocks[block_id as int],
                None => block_id >= self@.blocks.len(),
            },
    {
        if block_id < self.blocks.len() {
            Some(&self.blocks[block_id])
        } else {
            None
        }
    }

    pub fn block_size(&self) -> (r: usize)
        ensures
            r == self@.block_size,
    {
        self.block_size
    }

    pub fn tensor_pool(&self) -> (r: Option<&UnifiedKvTensorPool<B>>)
        ensures
            match r {
                Some(p) => self@.pool == Some(p@),
                None => self@.pool is None,
            },
    {
        self.tensor_pool.as_ref()
    }

    /// The tensor pool; what the borrower leaves in it is the manager's pool.
    pub fn tensor_pool_mut(&mut self) -> (r: Option<&mut UnifiedKvTensorPool<B>>)
        ensures
            match r {
                Some(p) => old(self)@.pool == Some(p@) && final(self)@ == old(self)@.with_pool(
                    final(p)@,
                ),
                None => old(self)@.pool is None && final(self)@ == old(self)@,
            },
    {
        self.tensor_pool.as_mut()
    }

    pub fn total_tokens(&self, seq_id: u64) -> (r: Option<usize>)
        ensures
            r == if self@.tables.contains_key(seq_id) {
                Some(self@.tables[seq_id].total_tokens)
            } else {
                None
            },
    {
        match self.sequence_tables.get(&seq_id) {
            Some(t) => Some(t.total_tokens),
            None => None,
        }
    }

    /// Stores the K and V rows of a token, found by its position in the sequence.
    pub fn write_token_kv(
        &mut self,
        seq_id: u64,
        token_pos: usize,
        layer_idx: usize,
        k: &[u32],
        v: &[u32],
    ) -> (r: Result<(), String>)
        requires
            old(self)@.wf(),
            old(self)@.tables.contains_key(seq_id) ==> old(self)@.block_size > 0,
            old(self)@.tables.contains_key(seq_id) && token_pos as int / (
            old(self)@.block_size as int) < old(self)@.tables[seq_id].block_ids.len()
                && old(self)@.pool is Some ==> {
                let pool = old(self)@.pool->0;
                &&& pool.has_element_access()
                &&& pool.layout.row_in_range(
                    old(self)@.tables[seq_id].block_ids[token_pos as int
                        / old(self)@.block_size as int] as int,
                    layer_idx as int,
                    token_pos as int % old(self)@.block_size as int,
                )
                &&& k@.len() == pool.kv_dim()
                &&& v@.len() == pool.kv_dim()
            },
        ensures
            final(self)@.wf(),
            match r {
                Ok(_) => {
                    &&& old(self)@.tables.contains_key(seq_id)
                    &&& token_pos as int / (old(self)@.block_size as int)
                        < old(self)@.tables[seq_id].block_ids.len()
                    &&& old(self)@.pool is Some
                    &&& final(self)@ == old(self)@.with_pool(
                        old(self)@.pool->0.write_token(
                            old(self)@.tables[seq_id].block_ids[token_pos as int
                                / old(self)@.block_size as int] as int,
                            layer_idx as int,
                            token_pos as int % old(self)@.block_size as int,
                            k@,
                            v@,
                        ),
                    )
                },
                Err(e) => {
                    &&& final(self)@ == old(self)@
                    &&& if !old(self)@.tables.contains_key(seq_id) {
                        e@ == sequence_not_found(seq_id)
                    } else if token_pos as int / (old(self)@.block_size as int)
                        >= old(self)@.tables[seq_id].block_ids.len() {
                        e@ == "Token pos "@ + decimal(token_pos as nat)
                            + " out of bounds for sequence "@ + decimal(seq_id as nat) + ""@
                    } else {
                        old(self)@.pool is None && e@ == "No physical tensor pool attached"@
                    }
                },
            },
    {
        let block_idx: usize;
        let physical_block: usize = match self.sequence_tables.get(&seq_id) {
            Some(table) => {
                block_idx = token_pos / self.block_size;
                if block_idx >= table.block_ids.len() {
                    return Err(
                        numbered_twice(
                            "Token pos ",
                            token_pos as u64,
                            " out of bounds for sequence ",
                            seq_id,
                            "",
                        ),
                    );
                }
                table.block_ids[block_idx]
            },
            None => {
                return Err(numbered("Sequence ", seq_id, " not found"));
            },
        };
        let token_in_block: usize = token_pos % self.block_size;
        self.write_explicit_token_kv(physical_block, layer_idx, token_in_block, k, v)
    }

    /// Stores the K and V rows of a slot of a block.
    pub fn write_explicit_token_kv(
        &mut self,
        block_id: BlockId,
        layer_idx: usize,
        token_in_block: usize,
        k: &[u32],
        v: &[u32],
    ) -> (r: Result<(), String>)
        requires
            old(self)@.wf(),
            old(self)@.pool is Some ==> {
                let pool = old(self)@.pool->0;
                &&& pool.has_element_access()
                &&& pool.layout.row_in_range(
                    block_id as int,
                    layer_idx as int,
                    token_in_block as int,
                )
                &&& k@.len() == pool.kv_dim()
                &&& v@.len() == pool.kv_dim()
            },
        ensures
            final(self)@.wf(),
            match r {
                Ok(_) => {
                    &&& old(self)@.pool is Some
                    &&& final(self)@ == old(self)@.with_pool(
                        old(self)@.pool->0.write_token(
                            block_id as int,
                            layer_idx as int,
                            token_in_block as int,
                            k@,
                            v@,
                        ),
                    )
                },
                Err(e) => {
                    &&& old(self)@.pool is None
                    &&& final(self)@ == old(self)@
                    &&& e@ == "No physical tensor pool attached"@
                },
            },
    {
        let ghost before = self@;
        match &mut self.tensor_pool {
            Some(pool) => {
                pool.write_token_kv(block_id, layer_idx, token_in_block, k, v);
                proof {
                    before.lemma_with_pool_wf(pool@);
                }
            },
            None => {
                return Err("No physical tensor pool attached".to_owned());
            },
        }
        Ok(())
    }

    /// Gathers a layer of a sequence into the given vectors.
    pub fn gather_sequence_layer_kv(
        &self,
        seq_id: u64,
        layer_idx: usize,
        k_out: &mut Vec<u32>,
        v_out: &mut Vec<u32>,
    ) -> (r: Result<(), String>)
        requires
            self@.wf(),
            readable(self@, seq_id, layer_idx as int),
        ensures
            match r {
                Ok(_) => gather_outcome(
                    self@,
                    seq_id,
                    layer_idx as int,
                    Ok((*final(k_out), *final(v_out))),
                ),
                Err(e) => {
                    &&& gather_outcome(self@, seq_id, layer_idx as int, Err(e))
                    &&& *final(k_out) == *old(k_out)
                    &&& *final(v_out) == *old(v_out)
                },
            },
    {
        match self.gather_layer_kv(seq_id, layer_idx) {
            Ok((k, v)) => {
                *k_out = k;
                *v_out = v;
                Ok(())
            },
            Err(e) => Err(e),
        }
    }

    /// The K and V rows of all tokens of a sequence, in one layer.
    pub fn gather_layer_kv(&self, seq_id: u64, layer_idx: usize) -> (r: Result<
        (Vec<u32>, Vec<u32>),
        String,
    >)
        requires
            self@.wf(),
            readable(self@, seq_id, layer_idx as int),
        ensures
            gather_outcome(self@, seq_id, layer_idx as int, r),
    {
        match self.sequence_tables.get(&seq_id) {
            Some(table) => match &self.tensor_pool {
                Some(pool) => Ok(
                    pool.gather_layer_kv(
                        table.block_ids.as_slice(),
                        table.total_tokens,
                        layer_idx,
                    ),
                ),
                None => Err("No physical tensor pool attached".to_owned()),
            },
            None => Err(numbered("Sequence ", seq_id, " not found")),
        }
    }
}

/// One more element of a prefix passes through a filter.
proof fn lemma_filter_take(s: Seq<KvBlock>, i: int, pred: spec_fn(KvBlock) -> bool)
    requires
        0 <= i < s.len(),
    ensures
        s.take(i + 1).filter(pred).len() == s.take(i).filter(pred).len() + if pred(s[i]) {
            1int
        } else {
            0
        },
{
    reveal(Seq::filter);
    assert(s.take(i + 1).drop_last() =~= s.take(i));
}

} // verus!
