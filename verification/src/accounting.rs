//! What receipts and metrics count, and that new pages are blank.

use crate::abi::{prompt_total, BatchState, RequestState};
use crate::kv_state::KvState;
use crate::spine::SpineState;
use crate::tensor::TensorBackend;
use crate::transformer::{receipt_fits, receipt_of, whole_step};
use crate::weights::{TokensState, WeightsState};
use vstd::prelude::*;

verus! {

/// A block of a sequence is counted by others too.
pub open spec fn is_shared_at(kv: KvState, seq: u64, i: int) -> bool {
    kv.blocks[kv.tables[seq].block_ids[i] as int].ref_count >= 2
}

/// A receipt adds up: the pages of a sequence are the shared and the private ones; shared pages
/// count as full of tokens, and the other tokens are private; bytes go by pages; and the pages
/// in use are those that are not free.
pub proof fn law_receipt_adds_up(kv: KvState, seq: u64)
    requires
        kv.wf(),
        kv.tables.contains_key(seq),
        receipt_fits(kv, seq),
    ensures
        ({
            let r = receipt_of(kv, seq);
            let t = kv.tables[seq];
            let bytes = if kv.pool is Some {
                kv.pool->0.layout.block_stride_bytes as int
            } else {
                0
            };
            &&& r.logical_pages == t.block_ids.len()
            &&& r.shared_pages + r.private_pages == r.logical_pages
            &&& r.prefix_tokens == r.shared_pages * kv.block_size
            &&& r.private_tokens == if t.total_tokens > r.prefix_tokens {
                t.total_tokens - r.prefix_tokens
            } else {
                0
            }
            &&& r.physical_pages == kv.total_blocks - kv.free.len()
            &&& r.cow_faults == kv.cow_faults
            &&& r.physical_kv_bytes == r.logical_pages * bytes
            &&& r.bytes_saved_vs_full_copy == r.shared_pages * bytes
            &&& (forall|i: int| 0 <= i < t.block_ids.len() ==> !#[trigger] is_shared_at(kv, seq, i))
                ==> r.shared_pages == 0
            &&& (forall|i: int| 0 <= i < t.block_ids.len() ==> #[trigger] is_shared_at(kv, seq, i))
                ==> r.private_pages == 0
        }),
{
    let ids = kv.tables[seq].block_ids;
    let n = ids.len() as int;
    let pred = |b: usize| kv.blocks[b as int].is_shared;
    kv.law_pages_add_up();
    lemma_some(kv, seq, n);
    assert(ids.take(n) =~= ids);
    let shared = ids.filter(pred).len();
    assert(shared * kv.block_size <= n * kv.block_size) by (nonlinear_arith)
        requires
            shared <= n,
            0 <= kv.block_size,
    ;
    assert(shared * kv.block_bytes() <= n * kv.block_bytes()) by (nonlinear_arith)
        requires
            shared <= n,
            0 <= kv.block_bytes(),
    ;
    assert(0 <= shared * kv.block_size && 0 <= shared * kv.block_bytes() && 0 <= n
        * kv.block_bytes()) by (nonlinear_arith)
        requires
            0 <= shared,
            0 <= n,
            0 <= kv.block_size,
            0 <= kv.block_bytes(),
    ;
    assert(kv.table_wf(seq, kv.tables[seq]));
    lemma_few(ids, kv.total_blocks as int);
}

/// Distinct numbers below a bound are at most so many.
proof fn lemma_few(ids: Seq<usize>, n: int)
    requires
        ids.no_duplicates(),
        0 <= n <= usize::MAX,
        forall|i: int| 0 <= i < ids.len() ==> #[trigger] ids[i] < n,
    ensures
        ids.len() <= n,
{
    let all = vstd::set_lib::set_int_range(0, n);
    let own = ids.map_values(|b: usize| b as int);
    vstd::set_lib::lemma_int_range(0, n);
    assert(own.no_duplicates());
    own.unique_seq_to_set();
    assert(own.to_set().subset_of(all));
    vstd::set_lib::lemma_len_subset(own.to_set(), all);
}

/// How many of the first blocks are shared, where none or all are.
proof fn lemma_some(kv: KvState, seq: u64, n: int)
    requires
        kv.wf(),
        kv.tables.contains_key(seq),
        0 <= n <= kv.tables[seq].block_ids.len(),
    ensures
        ({
            let some = kv.tables[seq].block_ids.take(n).filter(
                |b: usize| kv.blocks[b as int].is_shared,
            ).len();
            &&& some <= n
            &&& (forall|i: int| 0 <= i < n ==> !#[trigger] is_shared_at(kv, seq, i)) ==> some == 0
            &&& (forall|i: int| 0 <= i < n ==> #[trigger] is_shared_at(kv, seq, i)) ==> some == n
        }),
    decreases n,
{
    reveal(Seq::filter);
    let ids = kv.tables[seq].block_ids;
    if n > 0 {
        lemma_some(kv, seq, n - 1);
        assert(ids.take(n).drop_last() =~= ids.take(n - 1));
        assert(ids.take(n).last() == ids[n - 1]);
        assert(kv.table_wf(seq, kv.tables[seq]));
        assert(ids[n - 1] < kv.total_blocks);
        assert(kv.block_wf(ids[n - 1] as int));
        if forall|i: int| 0 <= i < n ==> !#[trigger] is_shared_at(kv, seq, i) {
            assert(!is_shared_at(kv, seq, n - 1));
        }
        if forall|i: int| 0 <= i < n ==> #[trigger] is_shared_at(kv, seq, i) {
            assert(is_shared_at(kv, seq, n - 1));
        }
    }
}

/// Right after a branch is made, all its pages are shared with its parent.
pub proof fn law_new_branch_is_all_shared(kv: KvState, parent: u64, child: u64)
    requires
        kv.wf(),
        kv.tables.contains_key(parent),
        kv.fork(parent, child).wf(),
        receipt_fits(kv.fork(parent, child), child),
    ensures
        receipt_of(kv.fork(parent, child), child).private_pages == 0,
        receipt_of(kv.fork(parent, child), child).shared_pages
            == kv.tables[parent].block_ids.len(),
        receipt_of(kv.fork(parent, child), child).physical_pages == kv.total_blocks
            - kv.free.len(),
{
    let after = kv.fork(parent, child);
    law_receipt_adds_up(after, child);
    let ids = kv.tables[parent].block_ids;
    assert forall|i: int| 0 <= i < after.tables[child].block_ids.len() implies
        #[trigger] is_shared_at(after, child, i) by {
        assert(after.table_wf(child, after.tables[child]));
        assert(ids[i] < kv.total_blocks);
        assert(ids.contains(ids[i]));
        assert(after.block_wf(ids[i] as int));
    }
}

impl KvState {
    proof fn lemma_filled_blocks_are_blank(
        self,
        tokens: int,
        count: int,
        block: int,
        layer: int,
        is_value: bool,
        token: int,
    )
        requires
            self.pool is Some,
            self.pool->0.wf(),
            self.pool->0.has_element_access(),
            0 <= count <= self.free.len(),
            self.pool->0.layout.row_in_range(block, layer, token),
            forall|i: int|
                self.free.len() - count <= i < self.free.len() ==> #[trigger] self.free[i]
                    < self.pool->0.layout.num_blocks,
        ensures
            ({
                let after = self.fill_blocks(tokens, count);
                &&& after.pool is Some
                &&& after.pool->0.config == self.pool->0.config
                &&& (exists|i: int|
                    self.free.len() - count <= i < self.free.len() && #[trigger] self.free[i]
                        == block) ==> after.pool->0.row(block, layer, is_value, token)
                    == Seq::new(self.pool->0.kv_dim() as nat, |e: int| 0u32)
                &&& (forall|i: int|
                    self.free.len() - count <= i < self.free.len() ==> #[trigger] self.free[i]
                        != block) ==> after.pool->0.row(block, layer, is_value, token)
                    == self.pool->0.row(block, layer, is_value, token)
            }),
        decreases count,
    {
        if count > 0 {
            let here = crate::kv_state::at_most(tokens, self.block_size as int);
            let taken = self.take_block().with_block_tokens(self.next_free(), here as usize);
            let m = self.free.len() as int;
            assert(self.free[m - 1] == self.next_free());
            self.pool->0.law_zero_block_rows(
                self.next_free() as int,
                block,
                layer,
                is_value,
                token,
            );
            assert forall|i: int| m - count <= i < m - 1 implies #[trigger] taken.free[i]
                == self.free[i] by {}
            assert forall|i: int|
                taken.free.len() - (count - 1) <= i < taken.free.len() implies
                #[trigger] taken.free[i] < taken.pool->0.layout.num_blocks by {
                assert(taken.free[i] == self.free[i]);
            }
            taken.lemma_filled_blocks_are_blank(
                tokens - here,
                count - 1,
                block,
                layer,
                is_value,
                token,
            );
            if exists|i: int| m - count <= i < m && #[trigger] self.free[i] == block {
                let i = choose|i: int| m - count <= i < m && #[trigger] self.free[i] == block;
                if i < m - 1 {
                    assert(taken.free[i] == block);
                }
            }
        }
    }

    /// A new sequence starts with blank pages: whatever its blocks held before, every row in
    /// them reads as zeros.
    pub proof fn law_new_pages_are_blank(
        self,
        seq: u64,
        tokens: int,
        layer: int,
        is_value: bool,
        i: int,
        slot: int,
    )
        requires
            self.wf(),
            self.has_layer(layer),
            self.allocate_fits(tokens),
            0 <= tokens,
            self.blocks_needed(tokens) <= self.free.len(),
            0 <= i < self.allocate(seq, tokens).tables[seq].block_ids.len(),
            0 <= slot < self.block_size,
        ensures
            self.allocate(seq, tokens).pool->0.row(
                self.allocate(seq, tokens).tables[seq].block_ids[i] as int,
                layer,
                is_value,
                slot,
            ) == Seq::new(self.pool->0.kv_dim() as nat, |e: int| 0u32),
    {
        let count = self.blocks_needed(tokens);
        let m = self.free.len() as int;
        let ids = self.next_blocks(count);
        assert(ids[i] == self.free[m - 1 - i]);
        assert forall|j: int| m - count <= j < m implies #[trigger] self.free[j]
            < self.pool->0.layout.num_blocks by {
            assert(self.pool_reaches(self.free[j] as int));
        }
        self.lemma_filled_blocks_are_blank(tokens, count, ids[i] as int, layer, is_value, slot);
        assert(self.free[m - 1 - i] == ids[i] as int);
    }
}

// ---- Steps ----
/// The prompt tokens of requests add up.
proof fn lemma_prompt_totals(a: Seq<RequestState>, c: Seq<RequestState>)
    ensures
        prompt_total(a + c) == prompt_total(a) + prompt_total(c),
    decreases c.len(),
{
    if c.len() == 0 {
        assert(a + c =~= a);
    } else {
        lemma_prompt_totals(a, c.drop_last());
        assert((a + c).drop_last() =~= a + c.drop_last());
    }
}

/// The metrics of a step count what it did: one token for each of its answers, and the tokens
/// of all prompts, which add up over the requests.
pub proof fn law_metrics_count<T: TensorBackend>(
    b: T,
    w: WeightsState,
    batch: BatchState,
    kv: Option<KvState>,
    seqs: Map<u64, TokensState>,
    latency_us: u64,
    request: RequestState,
)
    requires
        batch.counts_fit(),
        batch.prefill_tokens() + request.prompt_tokens.len() <= usize::MAX,
    ensures
        ({
            let m = batch.metrics(latency_us);
            let more = BatchState {
                prefill_requests: batch.prefill_requests.push(request),
                ..batch
            };
            &&& m.decode_tokens_emitted == whole_step(b, w, batch, kv, seqs).outputs.len()
            &&& m.step_latency_us == latency_us
            &&& batch.prefill_requests.len() == 0 ==> m.prefill_tokens_processed == 0
            &&& more.metrics(latency_us).prefill_tokens_processed == m.prefill_tokens_processed
                + request.prompt_tokens.len()
            &&& batch.block_tables == Map::<u64, Seq<usize>>::empty() ==> m.active_kv_blocks == 0
        }),
{
    crate::generation::law_step_answers_each(b, w, batch, kv, seqs, 0);
    let one = seq![request];
    assert(one.drop_last() =~= Seq::<RequestState>::empty());
    assert(prompt_total(one.drop_last()) == 0);
    assert(prompt_total(one) == request.prompt_tokens.len());
    assert(batch.prefill_requests + one =~= batch.prefill_requests.push(request));
    lemma_prompt_totals(batch.prefill_requests, one);
}

/// The branches of a swarm wait with the swarm's prompt, limit and priority, under their own
/// identifiers, stopped by the end-of-sequence token alone, and stamped with the counter.
pub proof fn law_branches_wait_as_asked(
    s: SpineState,
    branches: Seq<u64>,
    prompt: Seq<u32>,
    max_tokens: usize,
    priority: u8,
    i: int,
)
    requires
        0 <= i < branches.len(),
    ensures
        ({
            let after = s.with_branches(branches, prompt, max_tokens, priority);
            let r = after.sched.waiting[s.sched.waiting.len() + i];
            &&& after.sched.waiting.len() == s.sched.waiting.len() + branches.len()
            &&& r.request_id == branches[i]
            &&& r.prompt_tokens == prompt
            &&& r.sampling_params.max_tokens == max_tokens
            &&& r.sampling_params.stop_token_ids == seq![2u32]
            &&& r.priority == priority
            &&& r.arrival_time_ns == s.counter
        }),
{
    s.law_branches_queue_in_order(branches, prompt, max_tokens, priority);
}

} // verus!
