//! Tensor arithmetic as a backend offers it, and rows of flat tensors.
//!
//! Tensors hold `f32` bit patterns. What an operation computes is up to the backend; that
//! it is a function of its arguments, and the size of its result, is not.

use crate::buffer::UnifiedBuffer;
use crate::pool::{PoolState, UnifiedKvTensorPool};
use vstd::prelude::*;

verus! {

/// How attention heads divide a row.
#[derive(Debug, Clone, Copy, PartialEq, Eq)]
pub struct HeadShape {
    pub num_heads: usize,
    pub num_kv_heads: usize,
    pub head_dim: usize,
}

/// The place in a block table of the block that token `t` lies in.
pub open spec fn block_of(pool: PoolState, t: int) -> int {
    t / pool.config.block_size as int
}

/// The rows of the first `total_tokens` tokens of a block table can be read from a pool: their
/// blocks are listed and exist there, and so does the layer.
pub open spec fn attendable(
    pool: PoolState,
    blocks: Seq<usize>,
    total_tokens: usize,
    layer: int,
) -> bool {
    &&& pool.wf()
    &&& pool.has_element_access()
    &&& pool.config.block_size > 0
    &&& 0 <= layer < pool.layout.num_layers
    &&& forall|t: int|
        0 <= t < total_tokens ==> {
            &&& 0 <= #[trigger] block_of(pool, t) < blocks.len()
            &&& blocks[block_of(pool, t)] < pool.layout.num_blocks
        }
}

/// As [`attendable`], of several tables one behind the other, `max_blocks` entries each. A block
/// number of 2^31 or more is handed over by its low 32 bits, as a negative entry.
pub open spec fn all_attendable(
    pool: PoolState,
    tables: Seq<i32>,
    context_lens: Seq<i32>,
    max_blocks: usize,
    layer: int,
) -> bool {
    &&& pool.wf()
    &&& pool.has_element_access()
    &&& pool.config.block_size > 0
    &&& 0 <= layer < pool.layout.num_layers
    &&& tables.len() == context_lens.len() * max_blocks
    &&& forall|i: int, t: int|
        #![trigger context_lens[i], block_of(pool, t)]
        0 <= i < context_lens.len() && 0 <= t < context_lens[i] ==> {
            &&& 0 <= block_of(pool, t) < max_blocks
            &&& tables[i * max_blocks + block_of(pool, t)] < pool.layout.num_blocks
        }
}

/// Compute hardware, seen through the operations of a transformer. Each operation comes with
/// a function that names its result; nothing is known of that function but what the operation
/// says of it.
///
/// The defaults of these functions stand for no result in particular: an implementation that
/// is to be proved against the clauses gives its own. The clauses ask that a result depends on
/// the arguments alone, so an operation whose rounding varies from call to call does not meet
/// them.
pub trait TensorBackend {
    open spec fn normed(&self, x: Seq<u32>, weight: Seq<u32>, eps: u32) -> Seq<u32> {
        arbitrary()
    }

    /// Root-mean-square normalisation of a row.
    fn rmsnorm(&self, x: &[u32], weight: &[u32], eps: u32) -> (r: Vec<u32>)
        ensures
            r@ == self.normed(x@, weight@, eps),
            r@.len() == x@.len(),
    ;

    open spec fn projected(
        &self,
        x: Seq<u32>,
        weight: Seq<u32>,
        out_dim: usize,
        in_dim: usize,
    ) -> Seq<u32> {
        arbitrary()
    }

    /// A matrix applied to a row.
    fn matmul_vec(&self, x: &[u32], weight: &[u32], out_dim: usize, in_dim: usize) -> (r: Vec<u32>)
        ensures
            r@ == self.projected(x@, weight@, out_dim, in_dim),
            r@.len() == out_dim,
    ;

    open spec fn batch_projected(
        &self,
        x: Seq<u32>,
        weight: Seq<u32>,
        rows: usize,
        in_dim: usize,
        out_dim: usize,
    ) -> Seq<u32> {
        arbitrary()
    }

    /// A matrix applied to each of several rows.
    fn matmul_batch(
        &self,
        x: &[u32],
        weight: &[u32],
        rows: usize,
        in_dim: usize,
        out_dim: usize,
    ) -> (r: Vec<u32>)
        requires
            rows * out_dim <= usize::MAX,
        ensures
            r@ == self.batch_projected(x@, weight@, rows, in_dim, out_dim),
            r@.len() == rows * out_dim,
    ;

    open spec fn rotated(
        &self,
        q: Seq<u32>,
        k: Seq<u32>,
        pos: usize,
        heads: HeadShape,
        theta: u32,
    ) -> (Seq<u32>, Seq<u32>) {
        arbitrary()
    }

    /// Rotary position embedding of a query row and a key row.
    fn apply_rope(&self, q: &[u32], k: &[u32], pos: usize, heads: HeadShape, theta: u32) -> (r: (
        Vec<u32>,
        Vec<u32>,
    ))
        ensures
            (r.0@, r.1@) == self.rotated(q@, k@, pos, heads, theta),
            r.0@.len() == q@.len(),
            r.1@.len() == k@.len(),
    ;

    open spec fn attended(
        &self,
        q: Seq<u32>,
        flat_k: Seq<u32>,
        flat_v: Seq<u32>,
        seq_len: usize,
        heads: HeadShape,
    ) -> Seq<u32> {
        arbitrary()
    }

    /// Grouped-query attention over the first `seq_len` rows of a cache.
    fn gqa_attention(
        &self,
        q: &[u32],
        flat_k: &[u32],
        flat_v: &[u32],
        seq_len: usize,
        heads: HeadShape,
    ) -> (r: Vec<u32>)
        ensures
            r@ == self.attended(q@, flat_k@, flat_v@, seq_len, heads),
            r@.len() == q@.len(),
    ;

    open spec fn page_attended(
        &self,
        q: Seq<u32>,
        pool: PoolState,
        blocks: Seq<usize>,
        total_tokens: usize,
        layer: usize,
        heads: HeadShape,
    ) -> Seq<u32> {
        arbitrary()
    }

    /// Grouped-query attention over the rows of a block table in a pool.
    fn paged_attention<B: UnifiedBuffer>(
        &self,
        q: &[u32],
        pool: &UnifiedKvTensorPool<B>,
        blocks: &[usize],
        total_tokens: usize,
        layer: usize,
        heads: HeadShape,
    ) -> (r: Vec<u32>)
        requires
            attendable(pool@, blocks@, total_tokens, layer as int),
        ensures
            r@ == self.page_attended(q@, pool@, blocks@, total_tokens, layer, heads),
            r@.len() == q@.len(),
    ;

    open spec fn batch_page_attended(
        &self,
        q: Seq<u32>,
        pool: PoolState,
        tables: Seq<i32>,
        context_lens: Seq<i32>,
        max_blocks: usize,
        layer: usize,
        heads: HeadShape,
    ) -> Seq<u32> {
        arbitrary()
    }

    /// Grouped-query attention of several rows, each over the rows of its own block table.
    /// The tables stand one behind the other, `max_blocks` entries each, filled up with -1.
    fn paged_attention_batch<B: UnifiedBuffer>(
        &self,
        q: &[u32],
        pool: &UnifiedKvTensorPool<B>,
        tables: &[i32],
        context_lens: &[i32],
        max_blocks: usize,
        layer: usize,
        heads: HeadShape,
    ) -> (r: Vec<u32>)
        requires
            all_attendable(pool@, tables@, context_lens@, max_blocks, layer as int),
        ensures
            r@ == self.batch_page_attended(
                q@,
                pool@,
                tables@,
                context_lens@,
                max_blocks,
                layer,
                heads,
            ),
            r@.len() == q@.len(),
    ;

    open spec fn gated(&self, gate: Seq<u32>, up: Seq<u32>) -> Seq<u32> {
        arbitrary()
    }

    /// SwiGLU activation of a row.
    fn swiglu(&self, gate: &[u32], up: &[u32]) -> (r: Vec<u32>)
        ensures
            r@ == self.gated(gate@, up@),
            r@.len() == gate@.len(),
    ;

    open spec fn summed(&self, x: Seq<u32>, delta: Seq<u32>) -> Seq<u32> {
        arbitrary()
    }

    /// The sum of two tensors of one size, element by element.
    fn residual(&self, x: &[u32], delta: &[u32]) -> (r: Vec<u32>)
        requires
            x@.len() == delta@.len(),
        ensures
            r@ == self.summed(x@, delta@),
            r@.len() == x@.len(),
    ;

    open spec fn scored(&self, hidden: Seq<u32>, lm_head: Seq<u32>, vocab: usize, hidden_dim: usize) -> Seq<
        u32,
    > {
        arbitrary()
    }

    /// The logit of every token of the vocabulary.
    fn compute_logits(&self, hidden: &[u32], lm_head: &[u32], vocab: usize, hidden_dim: usize) -> (r:
        Vec<u32>)
        ensures
            r@ == self.scored(hidden@, lm_head@, vocab, hidden_dim),
            r@.len() == vocab,
    ;

    open spec fn greedy(&self, logits: Seq<u32>) -> (u32, u32) {
        arbitrary()
    }

    /// The most likely token and its log-probability.
    fn sample_argmax(&self, logits: &[u32]) -> (r: (u32, u32))
        ensures
            r == self.greedy(logits@),
    ;

    open spec fn drawn(&self, logits: Seq<u32>, temperature: u32, seed: u64) -> (u32, u32) {
        arbitrary()
    }

    /// A token drawn at a temperature, and its log-probability.
    fn sample_temperature(&self, logits: &[u32], temperature: u32, seed: u64) -> (r: (u32, u32))
        ensures
            r == self.drawn(logits@, temperature, seed),
    ;
}

/// Whether an `f32`, given by its bits, is at most 0.001. Bit patterns of non-negative
/// numbers are ordered as the numbers are; negative numbers up to minus infinity have the
/// sign bit set; NaN is at most nothing.
pub open spec fn is_cold(temperature: u32) -> bool {
    temperature <= 0x3A83_126F || 0x8000_0000 <= temperature <= 0xFF80_0000
}

pub fn is_cold_temperature(temperature: u32) -> (r: bool)
    ensures
        r == is_cold(temperature),
{
    temperature <= 0x3A83_126F || (0x8000_0000 <= temperature && temperature <= 0xFF80_0000)
}

/// The token that sampling gives: the most likely one at a cold temperature.
pub open spec fn sampled<T: TensorBackend>(
    backend: T,
    logits: Seq<u32>,
    temperature: u32,
    seed: u64,
) -> (u32, u32) {
    if is_cold(temperature) {
        backend.greedy(logits)
    } else {
        backend.drawn(logits, temperature, seed)
    }
}

pub fn sample<T: TensorBackend>(backend: &T, logits: &[u32], temperature: u32, seed: u64) -> (r: (
    u32,
    u32,
))
    ensures
        r == sampled(*backend, logits@, temperature, seed),
{
    if is_cold_temperature(temperature) {
        backend.sample_argmax(logits)
    } else {
        backend.sample_temperature(logits, temperature, seed)
    }
}

/// Row `i` of a flat tensor.
pub open spec fn row_of(flat: Seq<u32>, i: int, width: int) -> Seq<u32> {
    flat.subrange(i * width, i * width + width)
}

/// Rows one behind the other.
pub open spec fn flat(rows: Seq<Seq<u32>>) -> Seq<u32>
    decreases rows.len(),
{
    if rows.len() == 0 {
        Seq::empty()
    } else {
        flat(rows.drop_last()) + rows.last()
    }
}

/// Rows of one width fill that many elements.
pub proof fn lemma_flat_len(rows: Seq<Seq<u32>>, width: int)
    requires
        forall|i: int| 0 <= i < rows.len() ==> (#[trigger] rows[i]).len() == width,
    ensures
        flat(rows).len() == rows.len() * width,
    decreases rows.len(),
{
    if rows.len() > 0 {
        let n = rows.len() as int;
        assert(rows[n - 1].len() == width);
        assert forall|i: int| 0 <= i < n - 1 implies (#[trigger] rows.drop_last()[i]).len()
            == width by {
            assert(rows.drop_last()[i] == rows[i]);
        }
        lemma_flat_len(rows.drop_last(), width);
        assert((n - 1) * width + width == n * width) by (nonlinear_arith);
    } else {
        assert(0 * width == 0);
    }
}

/// One more row.
pub proof fn lemma_flat_push(rows: Seq<Seq<u32>>, row: Seq<u32>)
    ensures
        flat(rows.push(row)) == flat(rows) + row,
{
    assert(rows.push(row).drop_last() =~= rows);
}

/// A row lies within its tensor.
pub proof fn lemma_row_in(i: int, n: int, width: int)
    requires
        0 <= i < n,
        0 <= width,
    ensures
        0 <= i * width,
        i * width + width <= n * width,
        (i + 1) * width == i * width + width,
{
    assert(0 <= i * width && i * width + width <= n * width && (i + 1) * width == i * width + width)
        by (nonlinear_arith)
        requires
            0 <= i < n,
            0 <= width,
    ;
}

/// Row `i` of a flat tensor.
pub fn row_slice(flat: &Vec<u32>, i: usize, width: usize) -> (r: &[u32])
    requires
        i * width + width <= flat@.len(),
    ensures
        r@ == row_of(flat@, i as int, width as int),
        r@.len() == width,
{
    let n: usize = flat.len();
    assert(0 <= i * width) by (nonlinear_arith);
    let at: usize = i * width;
    vstd::slice::slice_subrange(flat.as_slice(), at, at + width)
}

/// Adds a row to the end of a flat tensor.
pub fn append_row(flat: &mut Vec<u32>, row: &[u32])
    ensures
        final(flat)@ == old(flat)@ + row@,
{
    let mut i: usize = 0;
    assert(flat@ =~= old(flat)@ + row@.take(0));
    while i < row.len()
        invariant
            i <= row@.len(),
            flat@ == old(flat)@ + row@.take(i as int),
        decreases row@.len() - i,
    {
        flat.push(row[i]);
        assert(flat@ =~= old(flat)@ + row@.take(i + 1));
        i = i + 1;
    }
    assert(row@.take(row@.len() as int) =~= row@);
}

} // verus!
