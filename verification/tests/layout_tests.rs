use aien::layout::{KvDType, KvLayout, KvPoolConfig};

fn oracle_offset(
    block: usize,
    layer: usize,
    is_value: bool,
    token: usize,
    head: usize,
    dim: usize,
    cfg: &KvPoolConfig,
) -> usize {
    let e = match cfg.dtype {
        KvDType::Bf16 | KvDType::Fp16 => 2usize,
        KvDType::Fp32 => 4usize,
        KvDType::Fp8 => 1usize,
        KvDType::Fp4 => 1usize,
    };

    let head_stride = cfg.head_dim * e;
    let token_stride = cfg.num_kv_heads * head_stride;
    let plane_stride = cfg.block_size * token_stride;
    let layer_stride = 2 * plane_stride;
    let block_stride = cfg.num_layers * layer_stride;

    block * block_stride
        + layer * layer_stride
        + usize::from(is_value) * plane_stride
        + token * token_stride
        + head * head_stride
        + dim * e
}

#[test]
fn test_kv_layout_stride_invariants() {
    let cfg = KvPoolConfig {
        num_blocks: 8,
        block_size: 16,
        num_layers: 3,
        num_kv_heads: 2,
        head_dim: 64,
        dtype: KvDType::Bf16,
    };

    let layout = KvLayout::from_config(&cfg).unwrap();

    assert_eq!(layout.element_bytes, 2);
    assert_eq!(layout.head_stride_bytes, 128);
    assert_eq!(layout.token_stride_bytes, 256);
    assert_eq!(layout.kv_plane_stride_bytes, 4096);
    assert_eq!(layout.layer_stride_bytes, 8192);
    assert_eq!(layout.block_stride_bytes, 24576);
    assert_eq!(layout.total_bytes, 8 * 24576);

    let desc = layout.to_desc();
    assert_eq!(desc.head_stride_bytes, 128);
    assert_eq!(desc.token_stride_bytes, 256);
    assert_eq!(desc.kv_plane_stride_bytes, 4096);
    assert_eq!(desc.layer_stride_bytes, 8192);
    assert_eq!(desc.block_stride_bytes, 24576);
    assert_eq!(desc.pool_bytes, (8 * 24576) as u64);
}

#[test]
fn test_kv_layout_independent_address_parity() {
    let cfg = KvPoolConfig::for_tinyllama(16, 16, KvDType::Bf16);
    let layout = KvLayout::from_config(&cfg).unwrap();

    let test_cases = [
        (0, 0, false, 0, 0, 0),
        (0, 0, true, 0, 0, 0),
        (0, 1, false, 0, 0, 0),
        (1, 0, false, 0, 0, 0),
        (7, 13, true, 4, 2, 31),
        (15, 21, true, 15, 3, 63),
    ];

    for &(blk, layer, is_val, tok, head, dim) in &test_cases {
        let expected = oracle_offset(blk, layer, is_val, tok, head, dim, &cfg);
        let actual = layout.element_offset(blk, layer, is_val, tok, head, dim);
        assert_eq!(
            expected, actual,
            "Offset mismatch at blk={} layer={} val={} tok={} head={} dim={}",
            blk, layer, is_val, tok, head, dim
        );
    }
}

#[test]
fn layouts_of_other_formats() {
    let fp32 = KvPoolConfig::for_nemotron_30b(2, 16, KvDType::Fp32);
    assert_eq!(KvLayout::for_bf16(&fp32).unwrap_err(), "Expected BF16 dtype");
    let layout = fp32.layout().unwrap();
    // 8 heads of 128 elements of four bytes; 48 layers of K and V for 16 tokens.
    assert_eq!(layout.token_stride_bytes, 4096);
    assert_eq!(layout.block_offset(1), 48 * 2 * 16 * 4096);
    assert_eq!(layout.token_plane_offset(1, 2, true, 3), 6291456 + 2 * 131072 + 65536 + 3 * 4096);
    assert_eq!(fp32.layout_desc().unwrap().num_layers, 48);
    let bf16 = KvPoolConfig::for_tinyllama(4, 16, KvDType::Bf16);
    assert_eq!(KvLayout::for_bf16(&bf16).unwrap(), bf16.layout().unwrap());
    let fp4 = KvPoolConfig::for_tinyllama(4, 16, KvDType::Fp4);
    assert_eq!(fp4.layout().unwrap_err(), "Fp4 sub-byte stride requires packed layout");
    assert_eq!(fp4.layout_desc().unwrap_err(), "Fp4 sub-byte stride requires packed layout");
}

#[test]
fn estimates_are_the_sizes_of_the_layout() {
    for dtype in [KvDType::Fp32, KvDType::Bf16, KvDType::Fp16, KvDType::Fp8] {
        let c = KvPoolConfig::for_tinyllama(4, 16, dtype);
        let layout = c.layout().unwrap();
        assert_eq!(c.bytes_per_block(), layout.block_stride_bytes);
        assert_eq!(c.total_bytes(), layout.total_bytes);
    }
    // 2^24 elements in a block are still counted exactly.
    let c = KvPoolConfig {
        num_blocks: 3,
        block_size: 1 << 23,
        num_layers: 1,
        num_kv_heads: 1,
        head_dim: 1,
        dtype: KvDType::Fp8,
    };
    assert_eq!(c.bytes_per_block(), 1 << 24);
    assert_eq!(c.total_bytes(), c.layout().unwrap().total_bytes);
}
