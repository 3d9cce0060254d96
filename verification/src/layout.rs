//! Element types, pool configurations and the byte layout of the KV pool.
//!
//! A pool is a nest of equal parts: blocks of layers, each layer a K plane and a V
//! plane, each plane one row per token slot, each row one part per KV head, each
//! part one element per head dimension.

use crate::floats::{f32_nearest, round_to_f32};
use vstd::prelude::*;

verus! {

/// Storage format of a KV element.
#[derive(Debug, Clone, Copy, PartialEq, Eq, Structural)]
pub enum KvDType {
    Fp4,
    Fp8,
    Bf16,
    Fp16,
    Fp32,
}

impl KvDType {
    /// Size of an element, in half bytes.
    pub open spec fn half_bytes(self) -> nat {
        match self {
            KvDType::Fp4 => 1,
            KvDType::Fp8 => 2,
            KvDType::Bf16 => 4,
            KvDType::Fp16 => 4,
            KvDType::Fp32 => 8,
        }
    }

    /// Bytes of an element, as the bits of an `f32`.
    pub open spec fn bytes_bits(self) -> u32 {
        match self {
            KvDType::Fp4 => 0x3F00_0000,
            KvDType::Fp8 => 0x3F80_0000,
            KvDType::Bf16 => 0x4000_0000,
            KvDType::Fp16 => 0x4000_0000,
            KvDType::Fp32 => 0x4080_0000,
        }
    }

    /// Bytes of an element, as the bits of an `f32`: a half, one, two or four.
    pub fn bytes_per_element(&self) -> (r: u32)
        ensures
            r == self.bytes_bits(),
    {
        match self {
            KvDType::Fp4 => 0x3F00_0000,
            KvDType::Fp8 => 0x3F80_0000,
            KvDType::Bf16 => 0x4000_0000,
            KvDType::Fp16 => 0x4000_0000,
            KvDType::Fp32 => 0x4080_0000,
        }
    }

    /// Size of an element, in half bytes.
    pub fn half_bytes_per_element(&self) -> (r: usize)
        ensures
            r == self.half_bytes(),
    {
        match self {
            KvDType::Fp4 => 1,
            KvDType::Fp8 => 2,
            KvDType::Bf16 => 4,
            KvDType::Fp16 => 4,
            KvDType::Fp32 => 8,
        }
    }
}

/// Shape of a KV pool.
#[derive(Debug, Clone, Copy)]
pub struct KvPoolConfig {
    pub num_blocks: usize,
    pub block_size: usize,
    pub num_layers: usize,
    pub num_kv_heads: usize,
    pub head_dim: usize,
    pub dtype: KvDType,
}

impl KvPoolConfig {
    /// Bytes of one element; meaningful where elements fill whole bytes.
    pub open spec fn element_bytes(self) -> int {
        self.dtype.half_bytes() as int / 2
    }

    pub open spec fn head_stride(self) -> int {
        self.head_dim * self.element_bytes()
    }

    pub open spec fn token_stride(self) -> int {
        self.num_kv_heads * self.head_stride()
    }

    pub open spec fn plane_stride(self) -> int {
        self.block_size * self.token_stride()
    }

    pub open spec fn layer_stride(self) -> int {
        2 * self.plane_stride()
    }

    pub open spec fn block_stride(self) -> int {
        self.num_layers * self.layer_stride()
    }

    pub open spec fn pool_bytes(self) -> int {
        self.num_blocks * self.block_stride()
    }

    /// Every stride, and the size of the pool, is a `usize`.
    pub open spec fn strides_fit(self) -> bool {
        &&& self.head_stride() <= usize::MAX
        &&& self.token_stride() <= usize::MAX
        &&& self.plane_stride() <= usize::MAX
        &&& self.layer_stride() <= usize::MAX
        &&& self.block_stride() <= usize::MAX
        &&& self.pool_bytes() <= usize::MAX
    }

    /// Elements of K and V that one block holds.
    pub open spec fn elements_per_block(self) -> int {
        2 * self.num_layers * self.block_size * self.num_kv_heads * self.head_dim
    }

    /// The element count and the products on the way to it are `usize`s.
    pub open spec fn elements_fit(self) -> bool {
        &&& 2 * self.num_layers <= usize::MAX
        &&& 2 * self.num_layers * self.block_size <= usize::MAX
        &&& 2 * self.num_layers * self.block_size * self.num_kv_heads <= usize::MAX
        &&& self.elements_per_block() <= usize::MAX
    }

    /// The estimated size of a block: the element count as an `f32`, times the size of
    /// an element, rounded up to whole bytes and capped at the largest `usize`.
    pub open spec fn estimated_block_bytes(self) -> int {
        let halves = f32_nearest(self.elements_per_block() as nat) * self.dtype.half_bytes();
        let bytes = (halves as int + 1) / 2;
        if bytes > usize::MAX {
            usize::MAX as int
        } else {
            bytes
        }
    }

    /// TinyLlama 1.1B: 22 layers, 4 KV heads of dimension 64.
    pub fn for_tinyllama(num_blocks: usize, block_size: usize, dtype: KvDType) -> (r: Self)
        ensures
            r == (KvPoolConfig {
                num_blocks,
                block_size,
                num_layers: 22,
                num_kv_heads: 4,
                head_dim: 64,
                dtype,
            }),
    {
        Self { num_blocks, block_size, num_layers: 22, num_kv_heads: 4, head_dim: 64, dtype }
    }

    /// Qwen 2.5 7B: 28 layers, 4 KV heads of dimension 128.
    pub fn for_qwen2_5_7b(num_blocks: usize, block_size: usize, dtype: KvDType) -> (r: Self)
        ensures
            r == (KvPoolConfig {
                num_blocks,
                block_size,
                num_layers: 28,
                num_kv_heads: 4,
                head_dim: 128,
                dtype,
            }),
    {
        Self { num_blocks, block_size, num_layers: 28, num_kv_heads: 4, head_dim: 128, dtype }
    }

    /// Nemotron 30B: 48 layers, 8 KV heads of dimension 128.
    pub fn for_nemotron_30b(num_blocks: usize, block_size: usize, dtype: KvDType) -> (r: Self)
        ensures
            r == (KvPoolConfig {
                num_blocks,
                block_size,
                num_layers: 48,
                num_kv_heads: 8,
                head_dim: 128,
                dtype,
            }),
    {
        Self { num_blocks, block_size, num_layers: 48, num_kv_heads: 8, head_dim: 128, dtype }
    }

    pub fn for_model(
        num_blocks: usize,
        block_size: usize,
        num_layers: usize,
        num_kv_heads: usize,
        head_dim: usize,
        dtype: KvDType,
    ) -> (r: Self)
        ensures
            r == (KvPoolConfig {
                num_blocks,
                block_size,
                num_layers,
                num_kv_heads,
                head_dim,
                dtype,
            }),
    {
        Self { num_blocks, block_size, num_layers, num_kv_heads, head_dim, dtype }
    }

    /// Estimated bytes of one block, K and V of all layers. The element count passes
    /// through `f32`, so above 2^24 elements the estimate is rounded.
    pub fn bytes_per_block(&self) -> (r: usize)
        requires
            self.elements_fit(),
        ensures
            r == self.estimated_block_bytes(),
    {
        proof {
            self.lemma_elements_nonnegative();
        }
        let elements: usize = 2 * self.num_layers * self.block_size * self.num_kv_heads
            * self.head_dim;
        let rounded: u128 = round_to_f32(elements as u64);
        let half: usize = self.dtype.half_bytes_per_element();
        assert(rounded * half <= rounded * 8) by (nonlinear_arith)
            requires
                half <= 8,
                0 <= rounded,
        ;
        let bytes: u128 = (rounded * half as u128 + 1) / 2;
        if bytes > usize::MAX as u128 {
            usize::MAX
        } else {
            bytes as usize
        }
    }

    proof fn lemma_elements_nonnegative(self)
        ensures
            0 <= 2 * self.num_layers * self.block_size,
            0 <= 2 * self.num_layers * self.block_size * self.num_kv_heads,
            0 <= self.elements_per_block(),
    {
        let a: int = 2 * self.num_layers;
        let b: int = self.block_size as int;
        let c: int = self.num_kv_heads as int;
        let d: int = self.head_dim as int;
        assert(0 <= a * b && 0 <= a * b * c && 0 <= a * b * c * d) by (nonlinear_arith)
            requires
                0 <= a,
                0 <= b,
                0 <= c,
                0 <= d,
        ;
    }

    /// Where elements fill whole bytes and their count in a block is an `f32` value, the
    /// estimated sizes of a block and of the pool are those of the layout.
    pub proof fn law_estimate_is_layout(self)
        requires
            self.dtype !is Fp4,
            f32_nearest(self.elements_per_block() as nat) == self.elements_per_block(),
            self.block_stride() <= usize::MAX,
        ensures
            self.estimated_block_bytes() == self.block_stride(),
            self.num_blocks * self.estimated_block_bytes() == self.pool_bytes(),
    {
        let e = self.element_bytes();
        let d = self.head_dim as int;
        let h = self.num_kv_heads as int;
        let b = self.block_size as int;
        let l = self.num_layers as int;
        self.lemma_elements_nonnegative();
        assert(2 * l * b * h * d * (2 * e) == 2 * (l * (2 * (b * (h * (d * e)))))) by (nonlinear_arith);
    }

    /// Estimated bytes of the whole pool.
    pub fn total_bytes(&self) -> (r: usize)
        requires
            self.elements_fit(),
            self.num_blocks * self.estimated_block_bytes() <= usize::MAX,
        ensures
            r == self.num_blocks * self.estimated_block_bytes(),
    {
        let per_block: usize = self.bytes_per_block();
        assert(0 <= self.num_blocks * per_block) by (nonlinear_arith)
            requires
                0 <= self.num_blocks,
                0 <= per_block,
        ;
        self.num_blocks * per_block
    }

    pub fn layout(&self) -> (r: Result<KvLayout, String>)
        requires
            self.dtype is Fp4 || self.strides_fit(),
        ensures
            layout_result(*self, r),
    {
        KvLayout::from_config(self)
    }

    pub fn layout_desc(&self) -> (r: Result<KvLayoutDesc, String>)
        requires
            self.dtype is Fp4 || self.strides_fit(),
        ensures
            match r {
                Ok(d) => self.dtype !is Fp4 && d == KvLayout::of(*self).desc(),
                Err(e) => self.dtype is Fp4 && e@ == "Fp4 sub-byte stride requires packed layout"@,
            },
    {
        match self.layout() {
            Ok(l) => Ok(l.to_desc()),
            Err(e) => Err(e),
        }
    }
}

/// Layout descriptor in the form that compute kernels are parameterised with.
#[derive(Clone, Copy, Debug, PartialEq, Eq)]
pub struct KvLayoutDesc {
    pub block_stride_bytes: u64,
    pub layer_stride_bytes: u64,
    pub kv_plane_stride_bytes: u64,
    pub token_stride_bytes: u64,
    pub head_stride_bytes: u64,
    pub pool_bytes: u64,
    pub num_blocks: u32,
    pub num_layers: u32,
    pub block_size: u32,
}

/// Physical layout of a pool: the shape and the stride of each level.
#[derive(Debug, Clone, Copy, PartialEq, Eq)]
pub struct KvLayout {
    pub block_stride_bytes: usize,
    pub layer_stride_bytes: usize,
    pub kv_plane_stride_bytes: usize,
    pub token_stride_bytes: usize,
    pub head_stride_bytes: usize,
    pub element_bytes: usize,
    pub total_bytes: usize,
    pub num_blocks: usize,
    pub num_layers: usize,
    pub block_size: usize,
    pub num_kv_heads: usize,
    pub head_dim: usize,
}

/// What deriving a layout from `config` gives.
pub open spec fn layout_result(config: KvPoolConfig, r: Result<KvLayout, String>) -> bool {
    match r {
        Ok(l) => config.dtype !is Fp4 && l == KvLayout::of(config) && l.consistent(),
        Err(e) => config.dtype is Fp4 && e@ == "Fp4 sub-byte stride requires packed layout"@,
    }
}

/// Row `i` of `n` rows of `stride` bytes ends within `n * stride`.
proof fn lemma_row_within(i: int, n: int, stride: int)
    by (nonlinear_arith)
    requires
        0 <= i < n,
        0 <= stride,
    ensures
        0 <= i * stride,
        i * stride + stride <= n * stride,
{
}

/// A later row starts where an earlier one has ended.
proof fn lemma_rows_apart(i: int, j: int, stride: int)
    by (nonlinear_arith)
    requires
        i < j,
        0 <= stride,
    ensures
        i * stride + stride <= j * stride,
{
}

impl KvLayout {
    /// The layout of a pool of this shape.
    pub open spec fn of(config: KvPoolConfig) -> KvLayout {
        KvLayout {
            block_stride_bytes: config.block_stride() as usize,
            layer_stride_bytes: config.layer_stride() as usize,
            kv_plane_stride_bytes: config.plane_stride() as usize,
            token_stride_bytes: config.token_stride() as usize,
            head_stride_bytes: config.head_stride() as usize,
            element_bytes: config.element_bytes() as usize,
            total_bytes: config.pool_bytes() as usize,
            num_blocks: config.num_blocks,
            num_layers: config.num_layers,
            block_size: config.block_size,
            num_kv_heads: config.num_kv_heads,
            head_dim: config.head_dim,
        }
    }

    /// Each stride is the number of its parts times their stride.
    pub open spec fn consistent(self) -> bool {
        &&& self.element_bytes >= 1
        &&& self.head_stride_bytes == self.head_dim * self.element_bytes
        &&& self.token_stride_bytes == self.num_kv_heads * self.head_stride_bytes
        &&& self.kv_plane_stride_bytes == self.block_size * self.token_stride_bytes
        &&& self.layer_stride_bytes == 2 * self.kv_plane_stride_bytes
        &&& self.block_stride_bytes == self.num_layers * self.layer_stride_bytes
        &&& self.total_bytes == self.num_blocks * self.block_stride_bytes
    }

    /// Where a block starts.
    pub open spec fn block_start(self, block: int) -> int {
        block * self.block_stride_bytes
    }

    /// Where the K or V row of a token slot starts.
    pub open spec fn row_start(self, block: int, layer: int, is_value: bool, token: int) -> int {
        self.block_start(block) + layer * self.layer_stride_bytes + (if is_value {
            self.kv_plane_stride_bytes as int
        } else {
            0
        }) + token * self.token_stride_bytes
    }

    /// Where an element starts.
    pub open spec fn element_start(
        self,
        block: int,
        layer: int,
        is_value: bool,
        token: int,
        head: int,
        dim: int,
    ) -> int {
        self.row_start(block, layer, is_value, token) + head * self.head_stride_bytes + dim
            * self.element_bytes
    }

    pub open spec fn row_in_range(self, block: int, layer: int, token: int) -> bool {
        &&& 0 <= block < self.num_blocks
        &&& 0 <= layer < self.num_layers
        &&& 0 <= token < self.block_size
    }

    pub open spec fn element_in_range(
        self,
        block: int,
        layer: int,
        token: int,
        head: int,
        dim: int,
    ) -> bool {
        &&& self.row_in_range(block, layer, token)
        &&& 0 <= head < self.num_kv_heads
        &&& 0 <= dim < self.head_dim
    }

    /// The descriptor of this layout; counts are taken modulo 2^32.
    pub open spec fn desc(self) -> KvLayoutDesc {
        KvLayoutDesc {
            block_stride_bytes: self.block_stride_bytes as u64,
            layer_stride_bytes: self.layer_stride_bytes as u64,
            kv_plane_stride_bytes: self.kv_plane_stride_bytes as u64,
            token_stride_bytes: self.token_stride_bytes as u64,
            head_stride_bytes: self.head_stride_bytes as u64,
            pool_bytes: self.total_bytes as u64,
            num_blocks: (self.num_blocks as int % 0x1_0000_0000) as u32,
            num_layers: (self.num_layers as int % 0x1_0000_0000) as u32,
            block_size: (self.block_size as int % 0x1_0000_0000) as u32,
        }
    }

    /// The layout of a BF16 pool.
    pub fn for_bf16(config: &KvPoolConfig) -> (r: Result<Self, String>)
        requires
            config.dtype is Bf16 ==> config.strides_fit(),
        ensures
            match r {
                Ok(l) => config.dtype is Bf16 && l == KvLayout::of(*config) && l.consistent(),
                Err(e) => config.dtype !is Bf16 && e@ == "Expected BF16 dtype"@,
            },
    {
        if config.dtype != KvDType::Bf16 {
            return Err("Expected BF16 dtype".to_owned());
        }
        Self::from_config(config)
    }

    /// The layout of a pool; sub-byte elements have none.
    pub fn from_config(config: &KvPoolConfig) -> (r: Result<Self, String>)
        requires
            config.dtype is Fp4 || config.strides_fit(),
        ensures
            layout_result(*config, r),
    {
        let element_bytes: usize = match config.dtype {
            KvDType::Bf16 => 2usize,
            KvDType::Fp16 => 2usize,
            KvDType::Fp32 => 4usize,
            KvDType::Fp8 => 1usize,
            KvDType::Fp4 => {
                return Err("Fp4 sub-byte stride requires packed layout".to_owned());
            },
        };
        proof {
            Self::lemma_strides_nonnegative(*config);
        }
        let head_stride_bytes: usize = config.head_dim * element_bytes;
        let token_stride_bytes: usize = config.num_kv_heads * head_stride_bytes;
        let kv_plane_stride_bytes: usize = config.block_size * token_stride_bytes;
        let layer_stride_bytes: usize = 2 * kv_plane_stride_bytes;
        let block_stride_bytes: usize = config.num_layers * layer_stride_bytes;
        let total_bytes: usize = config.num_blocks * block_stride_bytes;

        Ok(
            Self {
                block_stride_bytes,
                layer_stride_bytes,
                kv_plane_stride_bytes,
                token_stride_bytes,
                head_stride_bytes,
                element_bytes,
                total_bytes,
                num_blocks: config.num_blocks,
                num_layers: config.num_layers,
                block_size: config.block_size,
                num_kv_heads: config.num_kv_heads,
                head_dim: config.head_dim,
            },
        )
    }

    proof fn lemma_strides_nonnegative(config: KvPoolConfig)
        ensures
            0 <= config.head_stride(),
            0 <= config.token_stride(),
            0 <= config.plane_stride(),
            0 <= config.block_stride(),
            0 <= config.pool_bytes(),
    {
        let e = config.element_bytes();
        assert(0 <= config.head_dim * e) by (nonlinear_arith)
            requires
                0 <= e,
        ;
        let h = config.head_stride();
        assert(0 <= config.num_kv_heads * h) by (nonlinear_arith)
            requires
                0 <= h,
        ;
        let t = config.token_stride();
        assert(0 <= config.block_size * t) by (nonlinear_arith)
            requires
                0 <= t,
        ;
        let l = config.layer_stride();
        assert(0 <= config.num_layers * l) by (nonlinear_arith)
            requires
                0 <= l,
        ;
        let b = config.block_stride();
        assert(0 <= config.num_blocks * b) by (nonlinear_arith)
            requires
                0 <= b,
        ;
    }

    /// In a consistent layout every row lies within its block, and so within the pool.
    pub proof fn law_row_within_pool(self, block: int, layer: int, is_value: bool, token: int)
        requires
            self.consistent(),
            self.row_in_range(block, layer, token),
        ensures
            0 <= self.block_start(block),
            self.block_start(block) <= self.row_start(block, layer, is_value, token),
            self.row_start(block, layer, is_value, token) + self.token_stride_bytes
                <= self.block_start(block) + self.block_stride_bytes,
            self.block_start(block) + self.block_stride_bytes <= self.total_bytes,
    {
        lemma_row_within(token, self.block_size as int, self.token_stride_bytes as int);
        lemma_row_within(layer, self.num_layers as int, self.layer_stride_bytes as int);
        lemma_row_within(block, self.num_blocks as int, self.block_stride_bytes as int);
    }

    /// In a consistent layout every block lies within the pool.
    pub proof fn law_block_within_pool(self, block: int)
        requires
            self.consistent(),
            0 <= block < self.num_blocks,
        ensures
            0 <= self.block_start(block),
            self.block_start(block) + self.block_stride_bytes <= self.total_bytes,
    {
        lemma_row_within(block, self.num_blocks as int, self.block_stride_bytes as int);
    }

    /// In a consistent layout every element lies within its row.
    pub proof fn law_element_within_row(
        self,
        block: int,
        layer: int,
        is_value: bool,
        token: int,
        head: int,
        dim: int,
    )
        requires
            self.consistent(),
            self.element_in_range(block, layer, token, head, dim),
        ensures
            self.row_start(block, layer, is_value, token) <= self.element_start(
                block,
                layer,
                is_value,
                token,
                head,
                dim,
            ),
            self.element_start(block, layer, is_value, token, head, dim) + self.element_bytes
                <= self.row_start(block, layer, is_value, token) + self.token_stride_bytes,
    {
        lemma_row_within(head, self.num_kv_heads as int, self.head_stride_bytes as int);
        lemma_row_within(dim, self.head_dim as int, self.element_bytes as int);
    }

    /// Distinct blocks of a layout do not overlap.
    pub proof fn law_blocks_disjoint(self, b1: int, b2: int)
        requires
            b1 != b2,
        ensures
            self.block_start(b1) + self.block_stride_bytes <= self.block_start(b2)
                || self.block_start(b2) + self.block_stride_bytes <= self.block_start(b1),
    {
        if b1 < b2 {
            lemma_rows_apart(b1, b2, self.block_stride_bytes as int);
        } else {
            lemma_rows_apart(b2, b1, self.block_stride_bytes as int);
        }
    }

    /// Distinct rows of a consistent layout, taken by block, layer, plane and token
    /// slot, do not overlap.
    pub proof fn law_rows_disjoint(
        self,
        b1: int,
        l1: int,
        v1: bool,
        t1: int,
        b2: int,
        l2: int,
        v2: bool,
        t2: int,
    )
        requires
            self.consistent(),
            self.row_in_range(b1, l1, t1),
            self.row_in_range(b2, l2, t2),
            (b1, l1, v1, t1) != (b2, l2, v2, t2),
        ensures
            self.row_start(b1, l1, v1, t1) + self.token_stride_bytes <= self.row_start(
                b2,
                l2,
                v2,
                t2,
            ) || self.row_start(b2, l2, v2, t2) + self.token_stride_bytes <= self.row_start(
                b1,
                l1,
                v1,
                t1,
            ),
    {
        self.law_row_within_pool(b1, l1, v1, t1);
        self.law_row_within_pool(b2, l2, v2, t2);
        lemma_row_within(t1, self.block_size as int, self.token_stride_bytes as int);
        lemma_row_within(t2, self.block_size as int, self.token_stride_bytes as int);
        if b1 != b2 {
            self.law_blocks_disjoint(b1, b2);
        } else if l1 < l2 {
            lemma_rows_apart(l1, l2, self.layer_stride_bytes as int);
        } else if l2 < l1 {
            lemma_rows_apart(l2, l1, self.layer_stride_bytes as int);
        } else if v1 == v2 {
            if t1 < t2 {
                lemma_rows_apart(t1, t2, self.token_stride_bytes as int);
            } else {
                lemma_rows_apart(t2, t1, self.token_stride_bytes as int);
            }
        }
    }

    /// Distinct elements of a consistent layout do not overlap.
    pub proof fn law_elements_disjoint(
        self,
        b1: int,
        l1: int,
        v1: bool,
        t1: int,
        h1: int,
        d1: int,
        b2: int,
        l2: int,
        v2: bool,
        t2: int,
        h2: int,
        d2: int,
    )
        requires
            self.consistent(),
            self.element_in_range(b1, l1, t1, h1, d1),
            self.element_in_range(b2, l2, t2, h2, d2),
            (b1, l1, v1, t1, h1, d1) != (b2, l2, v2, t2, h2, d2),
        ensures
            self.element_start(b1, l1, v1, t1, h1, d1) + self.element_bytes <= self.element_start(
                b2,
                l2,
                v2,
                t2,
                h2,
                d2,
            ) || self.element_start(b2, l2, v2, t2, h2, d2) + self.element_bytes
                <= self.element_start(b1, l1, v1, t1, h1, d1),
    {
        self.law_element_within_row(b1, l1, v1, t1, h1, d1);
        self.law_element_within_row(b2, l2, v2, t2, h2, d2);
        lemma_row_within(d1, self.head_dim as int, self.element_bytes as int);
        lemma_row_within(d2, self.head_dim as int, self.element_bytes as int);
        if (b1, l1, v1, t1) != (b2, l2, v2, t2) {
            self.law_rows_disjoint(b1, l1, v1, t1, b2, l2, v2, t2);
        } else if h1 < h2 {
            lemma_rows_apart(h1, h2, self.head_stride_bytes as int);
        } else if h2 < h1 {
            lemma_rows_apart(h2, h1, self.head_stride_bytes as int);
        } else if d1 < d2 {
            lemma_rows_apart(d1, d2, self.element_bytes as int);
        } else {
            lemma_rows_apart(d2, d1, self.element_bytes as int);
        }
    }

    proof fn lemma_products_nonnegative(
        self,
        block: usize,
        layer: usize,
        token: usize,
        head: usize,
        dim: usize,
    )
        ensures
            0 <= block * self.block_stride_bytes,
            0 <= layer * self.layer_stride_bytes,
            0 <= token * self.token_stride_bytes,
            0 <= head * self.head_stride_bytes,
            0 <= dim * self.element_bytes,
    {
        assert(0 <= block * self.block_stride_bytes) by (nonlinear_arith);
        assert(0 <= layer * self.layer_stride_bytes) by (nonlinear_arith);
        assert(0 <= token * self.token_stride_bytes) by (nonlinear_arith);
        assert(0 <= head * self.head_stride_bytes) by (nonlinear_arith);
        assert(0 <= dim * self.element_bytes) by (nonlinear_arith);
    }

    /// Byte offset of an element.
    #[inline]
    pub fn element_offset(
        &self,
        block: usize,
        layer: usize,
        is_value: bool,
        token: usize,
        head: usize,
        dim: usize,
    ) -> (r: usize)
        requires
            self.element_in_range(
                block as int,
                layer as int,
                token as int,
                head as int,
                dim as int,
            ),
            self.consistent() || self.element_start(
                block as int,
                layer as int,
                is_value,
                token as int,
                head as int,
                dim as int,
            ) <= usize::MAX,
        ensures
            r == self.element_start(
                block as int,
                layer as int,
                is_value,
                token as int,
                head as int,
                dim as int,
            ),
    {
        proof {
            self.lemma_products_nonnegative(block, layer, token, head, dim);
            if self.consistent() {
                self.law_row_within_pool(block as int, layer as int, is_value, token as int);
                self.law_element_within_row(
                    block as int,
                    layer as int,
                    is_value,
                    token as int,
                    head as int,
                    dim as int,
                );
            }
        }
        let plane: usize = if is_value {
            self.kv_plane_stride_bytes
        } else {
            0
        };
        block * self.block_stride_bytes + layer * self.layer_stride_bytes + plane + token
            * self.token_stride_bytes + head * self.head_stride_bytes + dim * self.element_bytes
    }

    /// Byte offset of the K or V row of a token slot.
    #[inline]
    pub fn token_plane_offset(
        &self,
        block: usize,
        layer: usize,
        is_value: bool,
        token: usize,
    ) -> (r: usize)
        requires
            self.row_in_range(block as int, layer as int, token as int),
            self.consistent() || self.row_start(block as int, layer as int, is_value, token as int)
                <= usize::MAX,
        ensures
            r == self.row_start(block as int, layer as int, is_value, token as int),
    {
        proof {
            self.lemma_products_nonnegative(block, layer, token, 0, 0);
            if self.consistent() {
                self.law_row_within_pool(block as int, layer as int, is_value, token as int);
            }
        }
        let plane: usize = if is_value {
            self.kv_plane_stride_bytes
        } else {
            0
        };
        block * self.block_stride_bytes + layer * self.layer_stride_bytes + plane + token
            * self.token_stride_bytes
    }

    /// Byte offset of a block.
    #[inline]
    pub fn block_offset(&self, block: usize) -> (r: usize)
        requires
            block < self.num_blocks,
            self.consistent() || self.block_start(block as int) <= usize::MAX,
        ensures
            r == self.block_start(block as int),
    {
        proof {
            self.lemma_products_nonnegative(block, 0, 0, 0, 0);
            if self.consistent() {
                self.law_block_within_pool(block as int);
            }
        }
        block * self.block_stride_bytes
    }

    /// The kernel-facing descriptor.
    pub fn to_desc(&self) -> (r: KvLayoutDesc)
        ensures
            r == self.desc(),
    {
        KvLayoutDesc {
            block_stride_bytes: self.block_stride_bytes as u64,
            layer_stride_bytes: self.layer_stride_bytes as u64,
            kv_plane_stride_bytes: self.kv_plane_stride_bytes as u64,
            token_stride_bytes: self.token_stride_bytes as u64,
            head_stride_bytes: self.head_stride_bytes as u64,
            pool_bytes: self.total_bytes as u64,
            num_blocks: low_u32(self.num_blocks),
            num_layers: low_u32(self.num_layers),
            block_size: low_u32(self.block_size),
        }
    }
}

/// The low 32 bits of a count.
pub fn low_u32(n: usize) -> (r: u32)
    ensures
        r == n as int % 0x1_0000_0000,
{
    let wide: u64 = n as u64;
    assert(#[verifier::truncate] (wide as u32) == wide % 0x1_0000_0000) by (bit_vector);
    #[verifier::truncate]
    let r: u32 = wide as u32;
    r
}

} // verus!
