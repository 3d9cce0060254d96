//! The physical KV tensor pool: a layout laid over a unified buffer.
//!
//! Elements enter and leave as `f32` bit patterns. They are stored little-endian, in
//! full for `Fp32` and rounded to bfloat16 for `Bf16`.

use crate::buffer::{
    effective_align, valid_request, BufferRegion, DeviceAddress, HeapUnifiedBuffer, UnifiedBuffer,
};
use crate::floats::{bf16_bits_to_f32, bf16_round, bf16_widen, f32_to_bf16_bits};
use crate::layout::{KvDType, KvLayout, KvLayoutDesc, KvPoolConfig};
use crate::text::{decimal, numbered_twice};
use vstd::prelude::*;

verus! {

/// Index of a physical block.
pub type BlockId = usize;

/// Byte `j` of the stored form of an element.
pub open spec fn stored_byte(dtype: KvDType, word: u32, j: int) -> u8 {
    if dtype is Fp32 {
        if j == 0 {
            (word % 256) as u8
        } else if j == 1 {
            (word / 256 % 256) as u8
        } else if j == 2 {
            (word / 0x1_0000 % 256) as u8
        } else {
            (word / 0x100_0000) as u8
        }
    } else {
        if j == 0 {
            (bf16_round(word) % 256) as u8
        } else {
            (bf16_round(word) / 256) as u8
        }
    }
}

/// Bytes of a stored element, in a format that rows can be written in.
pub open spec fn stored_width(dtype: KvDType) -> int {
    if dtype is Fp32 {
        4
    } else {
        2
    }
}

/// The element stored at byte `p`.
pub open spec fn stored_word(dtype: KvDType, bytes: Seq<u8>, p: int) -> u32 {
    if dtype is Fp32 {
        (bytes[p] + 256 * bytes[p + 1] + 0x1_0000 * bytes[p + 2] + 0x100_0000 * bytes[p + 3]) as u32
    } else {
        bf16_widen((bytes[p] + 256 * bytes[p + 1]) as u16)
    }
}

/// What an element reads back as after it was stored.
pub open spec fn as_stored(dtype: KvDType, word: u32) -> u32 {
    if dtype is Fp32 {
        word
    } else {
        bf16_widen(bf16_round(word))
    }
}

/// `bytes` with a row of elements stored from byte `at` on.
pub open spec fn with_row(bytes: Seq<u8>, dtype: KvDType, at: int, row: Seq<u32>) -> Seq<u8> {
    Seq::new(
        bytes.len(),
        |p: int|
            if dtype is Fp32 {
                if at <= p < at + 4 * row.len() {
                    stored_byte(dtype, row[(p - at) / 4], (p - at) % 4)
                } else {
                    bytes[p]
                }
            } else {
                if at <= p < at + 2 * row.len() {
                    stored_byte(dtype, row[(p - at) / 2], (p - at) % 2)
                } else {
                    bytes[p]
                }
            },
    )
}

/// The row of `n` elements stored from byte `at` on.
pub open spec fn row_at(bytes: Seq<u8>, dtype: KvDType, at: int, n: int) -> Seq<u32> {
    Seq::new(
        n as nat,
        |i: int|
            if dtype is Fp32 {
                stored_word(dtype, bytes, at + 4 * i)
            } else {
                stored_word(dtype, bytes, at + 2 * i)
            },
    )
}

/// An element read from the bytes it was stored as.
proof fn lemma_word_round_trip(dtype: KvDType, bytes: Seq<u8>, p: int, word: u32)
    requires
        forall|j: int|
            0 <= j < stored_width(dtype) ==> #[trigger] bytes[p + j] == stored_byte(dtype, word, j),
    ensures
        stored_word(dtype, bytes, p) == as_stored(dtype, word),
{
    assert(bytes[p + 0] == stored_byte(dtype, word, 0));
    assert(bytes[p + 1] == stored_byte(dtype, word, 1));
    if dtype is Fp32 {
        assert(bytes[p + 2] == stored_byte(dtype, word, 2));
        assert(bytes[p + 3] == stored_byte(dtype, word, 3));
        assert(word % 256 + 256 * (word / 256 % 256) + 0x1_0000 * (word / 0x1_0000 % 256)
            + 0x100_0000 * (word / 0x100_0000) == word && word / 0x100_0000 < 256)
            by (bit_vector);
    } else {
        let half = bf16_round(word);
        assert(half % 256 + 256 * (half / 256) == half && half / 256 < 256) by (bit_vector);
    }
}

/// A row just stored reads back as its stored form.
proof fn lemma_row_read_after_write(bytes: Seq<u8>, dtype: KvDType, at: int, row: Seq<u32>)
    requires
        0 <= at,
        at + stored_width(dtype) * row.len() <= bytes.len(),
    ensures
        row_at(with_row(bytes, dtype, at, row), dtype, at, row.len() as int) == row.map_values(
            |w: u32| as_stored(dtype, w),
        ),
{
    let after = with_row(bytes, dtype, at, row);
    assert forall|i: int| 0 <= i < row.len() implies row_at(after, dtype, at, row.len() as int)[i]
        == as_stored(dtype, row[i]) by {
        lemma_word_round_trip(dtype, after, at + stored_width(dtype) * i, row[i]);
    }
    assert(row_at(after, dtype, at, row.len() as int) =~= row.map_values(
        |w: u32| as_stored(dtype, w),
    ));
}

/// A row reads the same from two byte sequences that agree on its bytes.
proof fn lemma_row_frame(a: Seq<u8>, b: Seq<u8>, dtype: KvDType, at: int, bt: int, n: int)
    requires
        0 <= n,
        forall|p: int| 0 <= p < stored_width(dtype) * n ==> #[trigger] a[at + p] == b[bt + p],
    ensures
        row_at(a, dtype, at, n) == row_at(b, dtype, bt, n),
{
    assert forall|i: int| 0 <= i < n implies row_at(a, dtype, at, n)[i] == row_at(
        b,
        dtype,
        bt,
        n,
    )[i] by {
        let w = stored_width(dtype);
        assert(a[at + (w * i + 0)] == b[bt + (w * i + 0)]);
        assert(a[at + (w * i + 1)] == b[bt + (w * i + 1)]);
        if dtype is Fp32 {
            assert(a[at + (w * i + 2)] == b[bt + (w * i + 2)]);
            assert(a[at + (w * i + 3)] == b[bt + (w * i + 3)]);
        }
    }
    assert(row_at(a, dtype, at, n) =~= row_at(b, dtype, bt, n));
}

/// The observable state of a pool.
#[verifier::ext_equal]
pub struct PoolState {
    pub config: KvPoolConfig,
    pub layout: KvLayout,
    pub bytes: Seq<u8>,
    pub address: u64,
}

impl PoolState {
    /// The layout is that of the shape, and the buffer holds all of it.
    pub open spec fn wf(self) -> bool {
        &&& self.config.dtype !is Fp4
        &&& self.config.strides_fit()
        &&& self.layout == KvLayout::of(self.config)
        &&& self.layout.consistent()
        &&& self.layout.total_bytes <= self.bytes.len()
    }

    /// Elements can be written and read in this format.
    pub open spec fn has_element_access(self) -> bool {
        self.config.dtype is Fp32 || self.config.dtype is Bf16
    }

    /// Elements of a K or V row.
    pub open spec fn kv_dim(self) -> int {
        self.config.num_kv_heads * self.config.head_dim
    }

    /// The K or V row of a token slot, as it reads.
    pub open spec fn row(self, block: int, layer: int, is_value: bool, token: int) -> Seq<u32> {
        row_at(
            self.bytes,
            self.config.dtype,
            self.layout.row_start(block, layer, is_value, token),
            self.kv_dim(),
        )
    }

    /// The pool with the K and V rows of a token slot stored.
    pub open spec fn write_token(
        self,
        block: int,
        layer: int,
        token: int,
        k: Seq<u32>,
        v: Seq<u32>,
    ) -> PoolState {
        PoolState {
            bytes: with_row(
                with_row(
                    self.bytes,
                    self.config.dtype,
                    self.layout.row_start(block, layer, false, token),
                    k,
                ),
                self.config.dtype,
                self.layout.row_start(block, layer, true, token),
                v,
            ),
            ..self
        }
    }

    pub open spec fn in_block(self, block: int, p: int) -> bool {
        self.layout.block_start(block) <= p < self.layout.block_start(block)
            + self.layout.block_stride_bytes
    }

    /// The pool with a block cleared.
    pub open spec fn zero_block(self, block: int) -> PoolState {
        PoolState {
            bytes: Seq::new(
                self.bytes.len(),
                |p: int|
                    if self.in_block(block, p) {
                        0u8
                    } else {
                        self.bytes[p]
                    },
            ),
            ..self
        }
    }

    /// The pool with block `src` copied over block `dst`.
    pub open spec fn copy_block(self, src: int, dst: int) -> PoolState {
        PoolState {
            bytes: Seq::new(
                self.bytes.len(),
                |p: int|
                    if self.in_block(dst, p) {
                        self.bytes[p - self.layout.block_start(dst) + self.layout.block_start(src)]
                    } else {
                        self.bytes[p]
                    },
            ),
            ..self
        }
    }

    /// The K or V rows of the first `n` tokens of a block table, one after the other.
    pub open spec fn gathered(self, table: Seq<usize>, n: int, layer: int, is_value: bool) -> Seq<
        u32,
    >
        decreases n,
    {
        if n <= 0 {
            Seq::empty()
        } else {
            self.gathered(table, n - 1, layer, is_value) + self.row(
                table[(n - 1) / self.config.block_size as int] as int,
                layer,
                is_value,
                (n - 1) % self.config.block_size as int,
            )
        }
    }

    /// How many of `total` tokens a table of `blocks` blocks holds.
    pub open spec fn held_tokens(self, blocks: int, total: int) -> int {
        if total <= blocks * self.config.block_size {
            total
        } else {
            blocks * self.config.block_size
        }
    }

    /// A row fills its token stride.
    proof fn lemma_row_width(self)
        requires
            self.wf(),
            self.has_element_access(),
        ensures
            0 <= self.kv_dim() <= usize::MAX,
            stored_width(self.config.dtype) * self.kv_dim() == self.layout.token_stride_bytes,
    {
        let h = self.config.num_kv_heads as int;
        let d = self.config.head_dim as int;
        let e = self.layout.element_bytes as int;
        assert(e * (h * d) == h * (d * e)) by (nonlinear_arith);
        assert(0 <= h * d <= e * (h * d)) by (nonlinear_arith)
            requires
                0 <= h,
                0 <= d,
                1 <= e,
        ;
    }

    /// Reading a token slot after writing it gives the elements as stored.
    pub proof fn law_read_after_write(
        self,
        block: int,
        layer: int,
        token: int,
        k: Seq<u32>,
        v: Seq<u32>,
    )
        requires
            self.wf(),
            self.has_element_access(),
            self.layout.row_in_range(block, layer, token),
            k.len() == self.kv_dim(),
            v.len() == self.kv_dim(),
        ensures
            self.write_token(block, layer, token, k, v).row(block, layer, false, token)
                == k.map_values(|w: u32| as_stored(self.config.dtype, w)),
            self.write_token(block, layer, token, k, v).row(block, layer, true, token)
                == v.map_values(|w: u32| as_stored(self.config.dtype, w)),
    {
        self.lemma_row_width();
        let k_at = self.layout.row_start(block, layer, false, token);
        let v_at = self.layout.row_start(block, layer, true, token);
        self.layout.law_row_within_pool(block, layer, false, token);
        self.layout.law_row_within_pool(block, layer, true, token);
        self.layout.law_rows_disjoint(block, layer, false, token, block, layer, true, token);
        let mid = with_row(self.bytes, self.config.dtype, k_at, k);
        let end = with_row(mid, self.config.dtype, v_at, v);
        lemma_row_read_after_write(self.bytes, self.config.dtype, k_at, k);
        lemma_row_read_after_write(mid, self.config.dtype, v_at, v);
        lemma_row_frame(end, mid, self.config.dtype, k_at, k_at, self.kv_dim());
    }

    /// Writing a token slot leaves the rows of every other slot as they were.
    pub proof fn law_write_keeps_other_rows(
        self,
        block: int,
        layer: int,
        token: int,
        k: Seq<u32>,
        v: Seq<u32>,
        block2: int,
        layer2: int,
        is_value: bool,
        token2: int,
    )
        requires
            self.wf(),
            self.has_element_access(),
            self.layout.row_in_range(block, layer, token),
            self.layout.row_in_range(block2, layer2, token2),
            k.len() == self.kv_dim(),
            v.len() == self.kv_dim(),
            (block, layer, token) != (block2, layer2, token2),
        ensures
            self.write_token(block, layer, token, k, v).row(block2, layer2, is_value, token2)
                == self.row(block2, layer2, is_value, token2),
    {
        self.lemma_row_width();
        let at = self.layout.row_start(block2, layer2, is_value, token2);
        self.layout.law_row_within_pool(block, layer, false, token);
        self.layout.law_row_within_pool(block, layer, true, token);
        self.layout.law_row_within_pool(block2, layer2, is_value, token2);
        self.layout.law_rows_disjoint(
            block,
            layer,
            false,
            token,
            block2,
            layer2,
            is_value,
            token2,
        );
        self.layout.law_rows_disjoint(block, layer, true, token, block2, layer2, is_value, token2);
        lemma_row_frame(
            self.write_token(block, layer, token, k, v).bytes,
            self.bytes,
            self.config.dtype,
            at,
            at,
            self.kv_dim(),
        );
    }

    /// After a copy, every row of the destination block reads as the source's row, and
    /// every row of another block as before.
    pub proof fn law_copy_block_rows(
        self,
        src: int,
        dst: int,
        block: int,
        layer: int,
        is_value: bool,
        token: int,
    )
        requires
            self.wf(),
            self.has_element_access(),
            0 <= src < self.layout.num_blocks,
            0 <= dst < self.layout.num_blocks,
            self.layout.row_in_range(block, layer, token),
        ensures
            self.copy_block(src, dst).row(block, layer, is_value, token) == self.row(
                if block == dst {
                    src
                } else {
                    block
                },
                layer,
                is_value,
                token,
            ),
    {
        self.lemma_row_width();
        let from = if block == dst {
            src
        } else {
            block
        };
        let at = self.layout.row_start(block, layer, is_value, token);
        let ft = self.layout.row_start(from, layer, is_value, token);
        self.layout.law_row_within_pool(block, layer, is_value, token);
        self.layout.law_row_within_pool(from, layer, is_value, token);
        self.layout.law_block_within_pool(src);
        self.layout.law_block_within_pool(dst);
        if block != dst {
            self.layout.law_blocks_disjoint(block, dst);
        }
        lemma_row_frame(
            self.copy_block(src, dst).bytes,
            self.bytes,
            self.config.dtype,
            at,
            ft,
            self.kv_dim(),
        );
    }

    /// After clearing a block, its rows read as zeros and every row of another block as
    /// before.
    pub proof fn law_zero_block_rows(
        self,
        cleared: int,
        block: int,
        layer: int,
        is_value: bool,
        token: int,
    )
        requires
            self.wf(),
            self.has_element_access(),
            0 <= cleared < self.layout.num_blocks,
            self.layout.row_in_range(block, layer, token),
        ensures
            self.zero_block(cleared).row(block, layer, is_value, token) == if block == cleared {
                Seq::new(self.kv_dim() as nat, |i: int| 0u32)
            } else {
                self.row(block, layer, is_value, token)
            },
    {
        self.lemma_row_width();
        let at = self.layout.row_start(block, layer, is_value, token);
        let after = self.zero_block(cleared);
        self.layout.law_row_within_pool(block, layer, is_value, token);
        if block != cleared {
            self.layout.law_blocks_disjoint(block, cleared);
            lemma_row_frame(after.bytes, self.bytes, self.config.dtype, at, at, self.kv_dim());
        } else {
            assert(after.row(block, layer, is_value, token) =~= Seq::new(
                self.kv_dim() as nat,
                |i: int| 0u32,
            ));
        }
    }
}

/// KV tensors of all blocks, laid out over a unified buffer.
pub struct UnifiedKvTensorPool<B: UnifiedBuffer = HeapUnifiedBuffer> {
    config: KvPoolConfig,
    layout: KvLayout,
    buffer: B,
}

impl<B: UnifiedBuffer> View for UnifiedKvTensorPool<B> {
    type V = PoolState;

    closed spec fn view(&self) -> PoolState {
        PoolState {
            config: self.config,
            layout: self.layout,
            bytes: self.buffer.contents(),
            address: self.buffer.address(),
        }
    }
}

/// Stores a row of elements in a buffer.
fn write_row<B: UnifiedBuffer>(buffer: &mut B, dtype: KvDType, at: usize, row: &[u32])
    requires
        dtype is Fp32 || dtype is Bf16,
        at + stored_width(dtype) * row@.len() <= old(buffer).contents().len(),
        old(buffer).contents().len() <= usize::MAX,
    ensures
        final(buffer).contents() == with_row(old(buffer).contents(), dtype, at as int, row@),
        final(buffer).address() == old(buffer).address(),
{
    let ghost start = buffer.contents();
    assert(with_row(start, dtype, at as int, row@.take(0)) =~= start);
    let mut i: usize = 0;
    while i < row.len()
        invariant
            i <= row@.len(),
            dtype is Fp32 || dtype is Bf16,
            at + stored_width(dtype) * row@.len() <= start.len(),
            start.len() <= usize::MAX,
            buffer.contents() == with_row(start, dtype, at as int, row@.take(i as int)),
            buffer.address() == old(buffer).address(),
        decreases row@.len() - i,
    {
        let word: u32 = row[i];
        if dtype == KvDType::Fp32 {
            buffer.store(at + 4 * i, (word % 256) as u8);
            buffer.store(at + 4 * i + 1, (word / 256 % 256) as u8);
            buffer.store(at + 4 * i + 2, (word / 0x1_0000 % 256) as u8);
            buffer.store(at + 4 * i + 3, (word / 0x100_0000) as u8);
        } else {
            let half: u16 = f32_to_bf16_bits(word);
            buffer.store(at + 2 * i, (half % 256) as u8);
            buffer.store(at + 2 * i + 1, (half / 256) as u8);
        }
        assert(buffer.contents() =~= with_row(start, dtype, at as int, row@.take(i + 1)));
        i = i + 1;
    }
    assert(row@.take(row@.len() as int) =~= row@);
}

/// The element stored at a byte offset.
fn read_word<B: UnifiedBuffer>(buffer: &B, dtype: KvDType, at: usize) -> (r: u32)
    requires
        dtype is Fp32 || dtype is Bf16,
        at + stored_width(dtype) <= buffer.contents().len() <= usize::MAX,
    ensures
        r == stored_word(dtype, buffer.contents(), at as int),
{
    if dtype == KvDType::Fp32 {
        buffer.load(at) as u32 + 256 * (buffer.load(at + 1) as u32) + 0x1_0000 * (buffer.load(
            at + 2,
        ) as u32) + 0x100_0000 * (buffer.load(at + 3) as u32)
    } else {
        bf16_bits_to_f32(buffer.load(at) as u16 + 256 * (buffer.load(at + 1) as u16))
    }
}

impl<B: UnifiedBuffer> UnifiedKvTensorPool<B> {
    /// Lays a pool over a buffer that is large enough for it.
    pub fn new(config: KvPoolConfig, buffer: B) -> (r: Result<Self, String>)
        requires
            config.dtype is Fp4 || config.strides_fit(),
        ensures
            match r {
                Ok(p) => {
                    &&& config.dtype !is Fp4
                    &&& buffer.contents().len() >= config.pool_bytes()
                    &&& p@.wf()
                    &&& p@ == (PoolState {
                        config,
                        layout: KvLayout::of(config),
                        bytes: buffer.contents(),
                        address: buffer.address(),
                    })
                },
                Err(e) => if config.dtype is Fp4 {
                    e@ == "Fp4 sub-byte stride requires packed layout"@
                } else {
                    &&& buffer.contents().len() < config.pool_bytes()
                    &&& e@ == "Buffer size "@ + decimal(buffer.contents().len())
                        + " is smaller than required KV tensor pool size "@ + decimal(
                        config.pool_bytes() as nat,
                    ) + ""@
                },
            },
    {
        let layout = match KvLayout::from_config(&config) {
            Ok(l) => l,
            Err(e) => {
                return Err(e);
            },
        };
        if buffer.len() < layout.total_bytes {
            return Err(
                numbered_twice(
                    "Buffer size ",
                    buffer.len() as u64,
                    " is smaller than required KV tensor pool size ",
                    layout.total_bytes as u64,
                    "",
                ),
            );
        }
        Ok(Self { config, layout, buffer })
    }

    pub fn config(&self) -> (r: &KvPoolConfig)
        ensures
            *r == self@.config,
    {
        &self.config
    }

    pub fn layout(&self) -> (r: &KvLayout)
        ensures
            *r == self@.layout,
    {
        &self.layout
    }

    pub fn layout_desc(&self) -> (r: KvLayoutDesc)
        ensures
            r == self@.layout.desc(),
    {
        self.layout.to_desc()
    }

    pub fn total_bytes(&self) -> (r: usize)
        ensures
            r == self@.layout.total_bytes,
    {
        self.layout.total_bytes
    }

    pub fn block_bytes(&self) -> (r: usize)
        ensures
            r == self@.layout.block_stride_bytes,
    {
        self.layout.block_stride_bytes
    }

    /// Token, plane, layer and block strides, counted in elements.
    #[inline]
    pub fn element_strides(&self) -> (r: (usize, usize, usize, usize))
        requires
            self@.wf(),
        ensures
            r.0 == self@.config.num_kv_heads * self@.config.head_dim,
            r.1 == self@.config.block_size * r.0,
            r.2 == 2 * r.1,
            r.3 == self@.config.num_layers * r.2,
    {
        proof {
            let h = self.config.num_kv_heads as int;
            let d = self.config.head_dim as int;
            let e = self.layout.element_bytes as int;
            let b = self.config.block_size as int;
            let l = self.config.num_layers as int;
            let t = h * d;
            assert(0 <= t <= h * (d * e)) by (nonlinear_arith)
                requires
                    t == h * d,
                    0 <= h,
                    0 <= d,
                    1 <= e,
            ;
            let tb = h * (d * e);
            assert(0 <= b * t <= b * tb) by (nonlinear_arith)
                requires
                    0 <= t <= tb,
                    0 <= b,
            ;
            let p = 2 * (b * t);
            let pb = 2 * (b * tb);
            assert(0 <= l * p <= l * pb) by (nonlinear_arith)
                requires
                    0 <= p <= pb,
                    0 <= l,
            ;
        }
        let token_stride: usize = self.config.num_kv_heads * self.config.head_dim;
        let kv_stride: usize = self.config.block_size * token_stride;
        let layer_stride: usize = 2 * kv_stride;
        let block_stride: usize = self.config.num_layers * layer_stride;
        (token_stride, kv_stride, layer_stride, block_stride)
    }

    /// Byte offset of the K or V row of a token slot.
    pub fn element_offset(
        &self,
        block_id: BlockId,
        layer_idx: usize,
        is_value: bool,
        token_in_block: usize,
    ) -> (r: usize)
        requires
            self@.wf(),
            self@.layout.row_in_range(block_id as int, layer_idx as int, token_in_block as int),
        ensures
            r == self@.layout.row_start(
                block_id as int,
                layer_idx as int,
                is_value,
                token_in_block as int,
            ),
    {
        self.layout.token_plane_offset(block_id, layer_idx, is_value, token_in_block)
    }

    pub fn device_address(&self) -> (r: DeviceAddress)
        ensures
            r.0 == self@.address,
    {
        self.buffer.device_address()
    }

    pub fn block_device_address(&self, block_id: BlockId) -> (r: DeviceAddress)
        requires
            self@.wf(),
            block_id < self@.layout.num_blocks,
        ensures
            r.0 == self@.address + self@.layout.block_start(block_id as int),
    {
        proof {
            self.layout.law_block_within_pool(block_id as int);
        }
        let offset: usize = self.layout.block_offset(block_id);
        let base: DeviceAddress = self.buffer.device_address();
        DeviceAddress(base.0 + offset as u64)
    }

    pub fn block_region(&self, block_id: BlockId) -> (r: BufferRegion)
        requires
            self@.wf(),
            block_id < self@.layout.num_blocks,
        ensures
            r.address.0 == self@.address + self@.layout.block_start(block_id as int),
            r.offset == self@.layout.block_start(block_id as int),
            r.len == self@.layout.block_stride_bytes,
    {
        let address = self.block_device_address(block_id);
        let offset: usize = self.layout.block_offset(block_id);
        BufferRegion { address, offset, len: self.layout.block_stride_bytes }
    }

    pub fn buffer(&self) -> (r: &B)
        ensures
            r.contents() == self@.bytes,
            r.address() == self@.address,
    {
        &self.buffer
    }

    /// The buffer itself; what the borrower leaves in it is the pool's contents.
    pub fn buffer_mut(&mut self) -> (r: &mut B)
        ensures
            r.contents() == old(self)@.bytes,
            r.address() == old(self)@.address,
            final(self)@ == (PoolState {
                bytes: final(r).contents(),
                address: final(r).address(),
                ..old(self)@
            }),
    {
        &mut self.buffer
    }

    /// Copies block `src_block` over block `dst_block`.
    pub fn copy_block(&mut self, src_block: BlockId, dst_block: BlockId)
        requires
            src_block == dst_block || {
                &&& old(self)@.wf()
                &&& src_block < old(self)@.layout.num_blocks
                &&& dst_block < old(self)@.layout.num_blocks
            },
        ensures
            final(self)@ == if src_block == dst_block {
                old(self)@
            } else {
                old(self)@.copy_block(src_block as int, dst_block as int)
            },
    {
        if src_block == dst_block {
            return ;
        }
        let ghost start = self@;
        proof {
            start.layout.law_block_within_pool(src_block as int);
            start.layout.law_block_within_pool(dst_block as int);
            start.layout.law_blocks_disjoint(src_block as int, dst_block as int);
        }
        let src: usize = self.layout.block_offset(src_block);
        let dst: usize = self.layout.block_offset(dst_block);
        let len: usize = self.layout.block_stride_bytes;
        let mut i: usize = 0;
        while i < len
            invariant
                i <= len,
                len == start.layout.block_stride_bytes,
                src == start.layout.block_start(src_block as int),
                dst == start.layout.block_start(dst_block as int),
                src + len <= start.bytes.len(),
                dst + len <= start.bytes.len(),
                src + len <= usize::MAX,
                dst + len <= usize::MAX,
                src + len <= dst || dst + len <= src,
                self@.bytes.len() == start.bytes.len(),
                self@ == (PoolState { bytes: self@.bytes, ..start }),
                forall|p: int|
                    0 <= p < start.bytes.len() ==> #[trigger] self@.bytes[p] == if dst <= p < dst
                        + i {
                        start.bytes[p - dst + src]
                    } else {
                        start.bytes[p]
                    },
            decreases len - i,
        {
            let byte: u8 = self.buffer.load(src + i);
            self.buffer.store(dst + i, byte);
            i = i + 1;
        }
        assert(self@ =~= start.copy_block(src_block as int, dst_block as int));
    }

    /// Clears a block.
    pub fn zero_block(&mut self, block_id: BlockId)
        requires
            old(self)@.wf(),
            block_id < old(self)@.layout.num_blocks,
        ensures
            final(self)@ == old(self)@.zero_block(block_id as int),
    {
        let ghost start = self@;
        proof {
            start.layout.law_block_within_pool(block_id as int);
        }
        let at: usize = self.layout.block_offset(block_id);
        let len: usize = self.layout.block_stride_bytes;
        let mut i: usize = 0;
        while i < len
            invariant
                i <= len,
                len == start.layout.block_stride_bytes,
                at == start.layout.block_start(block_id as int),
                at + len <= start.bytes.len(),
                at + len <= usize::MAX,
                self@.bytes.len() == start.bytes.len(),
                self@ == (PoolState { bytes: self@.bytes, ..start }),
                forall|p: int|
                    0 <= p < start.bytes.len() ==> #[trigger] self@.bytes[p] == if at <= p < at
                        + i {
                        0u8
                    } else {
                        start.bytes[p]
                    },
            decreases len - i,
        {
            self.buffer.store(at + i, 0);
            i = i + 1;
        }
        assert(self@ =~= start.zero_block(block_id as int));
    }

    /// Stores the K and V rows of a token slot.
    pub fn write_token_kv(
        &mut self,
        block_id: BlockId,
        layer_idx: usize,
        token_in_block: usize,
        k: &[u32],
        v: &[u32],
    )
        requires
            old(self)@.wf(),
            old(self)@.has_element_access(),
            old(self)@.layout.row_in_range(
                block_id as int,
                layer_idx as int,
                token_in_block as int,
            ),
            k@.len() == old(self)@.kv_dim(),
            v@.len() == old(self)@.kv_dim(),
        ensures
            final(self)@ == old(self)@.write_token(
                block_id as int,
                layer_idx as int,
                token_in_block as int,
                k@,
                v@,
            ),
    {
        let ghost start = self@;
        proof {
            start.lemma_row_width();
            start.layout.law_row_within_pool(
                block_id as int,
                layer_idx as int,
                false,
                token_in_block as int,
            );
            start.layout.law_row_within_pool(
                block_id as int,
                layer_idx as int,
                true,
                token_in_block as int,
            );
        }
        let size: usize = self.buffer.len();
        let k_offset: usize = self.layout.token_plane_offset(
            block_id,
            layer_idx,
            false,
            token_in_block,
        );
        let v_offset: usize = self.layout.token_plane_offset(
            block_id,
            layer_idx,
            true,
            token_in_block,
        );
        write_row(&mut self.buffer, self.config.dtype, k_offset, k);
        write_row(&mut self.buffer, self.config.dtype, v_offset, v);
    }

    /// Reads a row into `out`.
    fn read_row(&self, at: usize, out: &mut [u32])
        requires
            self@.wf(),
            self@.has_element_access(),
            at + stored_width(self@.config.dtype) * old(out)@.len() <= self@.bytes.len(),
        ensures
            final(out)@ == row_at(
                self@.bytes,
                self@.config.dtype,
                at as int,
                old(out)@.len() as int,
            ),
    {
        let size: usize = self.buffer.len();
        let n: usize = out.len();
        let width: usize = if self.config.dtype == KvDType::Fp32 {
            4
        } else {
            2
        };
        let mut i: usize = 0;
        while i < n
            invariant
                i <= n,
                n == out@.len(),
                n == old(out)@.len(),
                self@.has_element_access(),
                width == stored_width(self@.config.dtype),
                at + stored_width(self@.config.dtype) * n <= self@.bytes.len() <= usize::MAX,
                forall|j: int|
                    0 <= j < i ==> #[trigger] out@[j] == row_at(
                        self@.bytes,
                        self@.config.dtype,
                        at as int,
                        n as int,
                    )[j],
            decreases n - i,
        {
            if width == 4 {
                out[i] = read_word(&self.buffer, self.config.dtype, at + 4 * i);
            } else {
                out[i] = read_word(&self.buffer, self.config.dtype, at + 2 * i);
            }
            i = i + 1;
        }
        assert(out@ =~= row_at(self@.bytes, self@.config.dtype, at as int, n as int));
    }

    /// Reads the K and V rows of a token slot.
    pub fn read_token_kv(
        &self,
        block_id: BlockId,
        layer_idx: usize,
        token_in_block: usize,
        k_out: &mut [u32],
        v_out: &mut [u32],
    )
        requires
            self@.wf(),
            self@.has_element_access(),
            self@.layout.row_in_range(block_id as int, layer_idx as int, token_in_block as int),
            old(k_out)@.len() == self@.kv_dim(),
            old(v_out)@.len() == self@.kv_dim(),
        ensures
            final(k_out)@ == self@.row(
                block_id as int,
                layer_idx as int,
                false,
                token_in_block as int,
            ),
            final(v_out)@ == self@.row(
                block_id as int,
                layer_idx as int,
                true,
                token_in_block as int,
            ),
    {
        proof {
            self@.lemma_row_width();
            self@.layout.law_row_within_pool(
                block_id as int,
                layer_idx as int,
                false,
                token_in_block as int,
            );
            self@.layout.law_row_within_pool(
                block_id as int,
                layer_idx as int,
                true,
                token_in_block as int,
            );
        }
        let k_offset: usize = self.layout.token_plane_offset(
            block_id,
            layer_idx,
            false,
            token_in_block,
        );
        let v_offset: usize = self.layout.token_plane_offset(
            block_id,
            layer_idx,
            true,
            token_in_block,
        );
        self.read_row(k_offset, k_out);
        self.read_row(v_offset, v_out);
    }

    /// The K and V rows of the first `total_tokens` tokens of a block table, as far as
    /// the table reaches.
    pub fn gather_layer_kv(
        &self,
        block_table: &[BlockId],
        total_tokens: usize,
        layer_idx: usize,
    ) -> (r: (Vec<u32>, Vec<u32>))
        requires
            self@.wf(),
            self@.has_element_access(),
            forall|i: int|
                #![trigger block_table@[i]]
                0 <= i < block_table@.len() && self@.config.block_size > 0 && i
                    * self@.config.block_size < total_tokens ==> block_table@[i]
                    < self@.layout.num_blocks && layer_idx < self@.layout.num_layers,
        ensures
            r.0@ == self@.gathered(
                block_table@,
                self@.held_tokens(block_table@.len() as int, total_tokens as int),
                layer_idx as int,
                false,
            ),
            r.1@ == self@.gathered(
                block_table@,
                self@.held_tokens(block_table@.len() as int, total_tokens as int),
                layer_idx as int,
                true,
            ),
    {
        proof {
            self@.lemma_row_width();
        }
        let kv_dim: usize = self.config.num_kv_heads * self.config.head_dim;
        let size: usize = self.config.block_size;
        let ghost bs = size as int;
        let mut k_gathered: Vec<u32> = Vec::new();
        let mut v_gathered: Vec<u32> = Vec::new();
        let mut token_k: Vec<u32> = Vec::new();
        let mut token_v: Vec<u32> = Vec::new();
        token_k.resize(kv_dim, 0);
        token_v.resize(kv_dim, 0);

        let mut tokens_read: usize = 0;
        let mut b: usize = 0;
        while b < block_table.len() && tokens_read < total_tokens
            invariant
                self@.wf(),
                self@.has_element_access(),
                bs == size,
                size == self@.config.block_size,
                size == self@.layout.block_size,
                kv_dim == self@.kv_dim(),
                token_k@.len() == kv_dim,
                token_v@.len() == kv_dim,
                b <= block_table@.len(),
                tokens_read <= total_tokens,
                tokens_read == self@.held_tokens(b as int, total_tokens as int),
                forall|i: int|
                    #![trigger block_table@[i]]
                    0 <= i < block_table@.len() && bs > 0 && i * bs < total_tokens
                        ==> block_table@[i] < self@.layout.num_blocks && layer_idx
                        < self@.layout.num_layers,
                k_gathered@ == self@.gathered(
                    block_table@,
                    tokens_read as int,
                    layer_idx as int,
                    false,
                ),
                v_gathered@ == self@.gathered(
                    block_table@,
                    tokens_read as int,
                    layer_idx as int,
                    true,
                ),
            decreases block_table@.len() - b,
        {
            let blk: usize = block_table[b];
            let left: usize = total_tokens - tokens_read;
            let in_block: usize = if left < size {
                left
            } else {
                size
            };
            assert(tokens_read == b * bs);
            let mut t: usize = 0;
            while t < in_block
                invariant
                    self@.wf(),
                    self@.has_element_access(),
                    bs == size,
                    size == self@.config.block_size,
                    size == self@.layout.block_size,
                    kv_dim == self@.kv_dim(),
                    token_k@.len() == kv_dim,
                    token_v@.len() == kv_dim,
                    b < block_table@.len(),
                    blk == block_table@[b as int],
                    t <= in_block <= size,
                    tokens_read + in_block <= total_tokens,
                    tokens_read == b * bs,
                    in_block > 0 ==> blk < self@.layout.num_blocks && layer_idx
                        < self@.layout.num_layers,
                    k_gathered@ == self@.gathered(
                        block_table@,
                        tokens_read + t,
                        layer_idx as int,
                        false,
                    ),
                    v_gathered@ == self@.gathered(
                        block_table@,
                        tokens_read + t,
                        layer_idx as int,
                        true,
                    ),
                decreases in_block - t,
            {
                self.read_token_kv(
                    blk,
                    layer_idx,
                    t,
                    token_k.as_mut_slice(),
                    token_v.as_mut_slice(),
                );
                proof {
                    vstd::arithmetic::div_mod::lemma_fundamental_div_mod_converse(
                        tokens_read + t,
                        bs,
                        b as int,
                        t as int,
                    );
                }
                let ghost k_before = k_gathered@;
                let ghost v_before = v_gathered@;
                k_gathered.extend_from_slice(token_k.as_slice());
                v_gathered.extend_from_slice(token_v.as_slice());
                assert(k_gathered@ =~= k_before + token_k@);
                assert(v_gathered@ =~= v_before + token_v@);
                t = t + 1;
            }
            tokens_read = tokens_read + in_block;
            assert((b + 1) * bs == b * bs + bs) by (nonlinear_arith);
            b = b + 1;
        }
        proof {
            let n = block_table@.len() as int;
            if b < n {
                assert(b * bs <= n * bs) by (nonlinear_arith)
                    requires
                        b <= n,
                        bs >= 0,
                ;
            }
        }
        (k_gathered, v_gathered)
    }
}

impl UnifiedKvTensorPool<HeapUnifiedBuffer> {
    /// A zeroed pool on the heap, at an address that is a multiple of 256.
    pub fn allocate(config: KvPoolConfig) -> (r: Result<Self, String>)
        requires
            config.dtype is Fp4 || config.strides_fit(),
        ensures
            match r {
                Ok(p) => {
                    &&& config.dtype !is Fp4
                    &&& p@.wf()
                    &&& p@.config == config
                    &&& p@.bytes == Seq::new(config.pool_bytes() as nat, |i: int| 0u8)
                    &&& valid_request(config.pool_bytes() as usize, effective_align(256))
                    &&& p@.address as int % effective_align(256) as int == 0
                },
                Err(e) => if config.dtype is Fp4 {
                    e@ == "Fp4 sub-byte stride requires packed layout"@
                } else if valid_request(config.pool_bytes() as usize, effective_align(256)) {
                    e@ == "Failed to allocate "@ + decimal(config.pool_bytes() as nat)
                        + " bytes on heap"@
                } else {
                    e@ == "Invalid layout: invalid parameters to Layout::from_size_align"@
                },
            },
    {
        let layout = match KvLayout::from_config(&config) {
            Ok(l) => l,
            Err(e) => {
                return Err(e);
            },
        };
        match HeapUnifiedBuffer::allocate(layout.total_bytes, 256) {
            Ok(buffer) => Self::new(config, buffer),
            Err(e) => Err(e),
        }
    }
}

} // verus!
