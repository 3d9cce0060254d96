use aien::buffer::{HeapUnifiedBuffer, UnifiedBuffer};
use aien::floats::{bf16_bits_to_f32, f32_to_bf16_bits};
use aien::layout::{KvDType, KvPoolConfig};
use aien::pool::UnifiedKvTensorPool;

fn to_bits(x: &[f32]) -> Vec<u32> {
    x.iter().map(|v| v.to_bits()).collect()
}

fn to_floats(x: &[u32]) -> Vec<f32> {
    x.iter().map(|v| f32::from_bits(*v)).collect()
}

fn small(dtype: KvDType) -> KvPoolConfig {
    KvPoolConfig {
        num_blocks: 4,
        block_size: 4,
        num_layers: 2,
        num_kv_heads: 2,
        head_dim: 2,
        dtype,
    }
}

#[test]
fn test_bf16_pool_roundtrip() {
    let cfg = KvPoolConfig {
        num_blocks: 4,
        block_size: 16,
        num_layers: 2,
        num_kv_heads: 2,
        head_dim: 8,
        dtype: KvDType::Bf16,
    };

    let mut pool = UnifiedKvTensorPool::allocate(cfg.clone()).unwrap();
    let kv_dim = 2 * 8;

    let k_in: Vec<f32> = (0..kv_dim).map(|i| i as f32 * 0.125).collect();
    let v_in: Vec<f32> = (0..kv_dim).map(|i| (i as f32 + 10.0) * 0.25).collect();

    pool.write_token_kv(1, 0, 3, &to_bits(&k_in), &to_bits(&v_in));

    let mut k_bits = vec![0u32; kv_dim];
    let mut v_bits = vec![0u32; kv_dim];
    pool.read_token_kv(1, 0, 3, &mut k_bits, &mut v_bits);
    let k_out = to_floats(&k_bits);
    let v_out = to_floats(&v_bits);

    for i in 0..kv_dim {
        assert!(
            (k_in[i] - k_out[i]).abs() < 1e-2,
            "K mismatch at {}: expected {}, got {}",
            i,
            k_in[i],
            k_out[i]
        );
        assert!(
            (v_in[i] - v_out[i]).abs() < 1e-2,
            "V mismatch at {}: expected {}, got {}",
            i,
            v_in[i],
            v_out[i]
        );
    }
}

#[test]
fn test_physical_byte_pattern() {
    let cfg = KvPoolConfig {
        num_blocks: 4,
        block_size: 16,
        num_layers: 2,
        num_kv_heads: 2,
        head_dim: 4,
        dtype: KvDType::Bf16,
    };

    let mut pool = UnifiedKvTensorPool::allocate(cfg.clone()).unwrap();

    let coord_val = |b: usize, l: usize, is_v: bool, t: usize, h: usize, d: usize| -> f32 {
        b as f32 * 0.1
            + l as f32 * 0.01
            + if is_v { 0.005 } else { 0.0 }
            + t as f32 * 0.0001
            + h as f32 * 0.00001
            + d as f32 * 0.000001
    };

    let kv_dim = cfg.num_kv_heads * cfg.head_dim;
    for b in 0..2 {
        for l in 0..2 {
            for t in 0..4 {
                let mut k = vec![0.0f32; kv_dim];
                let mut v = vec![0.0f32; kv_dim];
                for h in 0..cfg.num_kv_heads {
                    for d in 0..cfg.head_dim {
                        k[h * cfg.head_dim + d] = coord_val(b, l, false, t, h, d);
                        v[h * cfg.head_dim + d] = coord_val(b, l, true, t, h, d);
                    }
                }
                pool.write_token_kv(b, l, t, &to_bits(&k), &to_bits(&v));
            }
        }
    }

    let mut k_read = vec![0u32; kv_dim];
    let mut v_read = vec![0u32; kv_dim];
    pool.read_token_kv(0, 0, 0, &mut k_read, &mut v_read);
    assert_ne!(
        f32::from_bits(k_read[0]),
        f32::from_bits(v_read[0]),
        "K and V should not match"
    );

    let mut k_l1 = vec![0u32; kv_dim];
    let mut v_l1 = vec![0u32; kv_dim];
    pool.read_token_kv(0, 1, 0, &mut k_l1, &mut v_l1);
    assert_ne!(
        f32::from_bits(k_read[0]),
        f32::from_bits(k_l1[0]),
        "Layer 0 and Layer 1 K should not match"
    );
}

#[test]
fn fp32_rows_read_back_exactly() {
    let mut pool = UnifiedKvTensorPool::allocate(small(KvDType::Fp32)).unwrap();
    let k = [1u32, 0xFFFF_FFFF, 0x8000_0001, 0x1234_5678];
    let v = [5u32, 6, 7, 8];
    pool.write_token_kv(3, 1, 2, &k, &v);
    let mut k_out = [0u32; 4];
    let mut v_out = [0u32; 4];
    pool.read_token_kv(3, 1, 2, &mut k_out, &mut v_out);
    assert_eq!(k_out, k);
    assert_eq!(v_out, v);
    pool.read_token_kv(3, 1, 1, &mut k_out, &mut v_out);
    assert_eq!(k_out, [0; 4]);
    assert_eq!(v_out, [0; 4]);
}

#[test]
fn stored_bytes_are_little_endian_at_their_offset() {
    let mut pool = UnifiedKvTensorPool::allocate(small(KvDType::Fp32)).unwrap();
    pool.write_token_kv(1, 1, 2, &[0x0403_0201, 0, 0, 0], &[0, 0, 0, 0x0807_0605]);
    let k_at = pool.element_offset(1, 1, false, 2);
    let v_at = pool.element_offset(1, 1, true, 2);
    // Block 256 bytes, layer 128, plane 64, token 16.
    assert_eq!(k_at, 256 + 128 + 32);
    assert_eq!(v_at, 256 + 128 + 64 + 32);
    for i in 0..4 {
        assert_eq!(pool.buffer().load(k_at + i), 1 + i as u8);
        assert_eq!(pool.buffer().load(v_at + 12 + i), 5 + i as u8);
    }
}

#[test]
fn copied_and_zeroed_blocks() {
    let mut pool = UnifiedKvTensorPool::allocate(small(KvDType::Fp32)).unwrap();
    pool.write_token_kv(0, 0, 3, &[9, 8, 7, 6], &[5, 4, 3, 2]);
    pool.copy_block(0, 2);
    let (k, v) = pool.gather_layer_kv(&[2], 4, 0);
    assert_eq!(&k[12..16], &[9, 8, 7, 6]);
    assert_eq!(&v[12..16], &[5, 4, 3, 2]);
    pool.zero_block(2);
    let (k, v) = pool.gather_layer_kv(&[2], 4, 0);
    assert_eq!(k, vec![0; 16]);
    assert_eq!(v, vec![0; 16]);
    let (k, _) = pool.gather_layer_kv(&[0], 4, 0);
    assert_eq!(&k[12..16], &[9, 8, 7, 6]);
}

#[test]
fn gather_stops_at_the_end_of_the_table() {
    let mut pool = UnifiedKvTensorPool::allocate(small(KvDType::Fp32)).unwrap();
    pool.write_token_kv(1, 0, 0, &[1, 1, 1, 1], &[2, 2, 2, 2]);
    pool.write_token_kv(0, 0, 0, &[3, 3, 3, 3], &[4, 4, 4, 4]);
    let (k, v) = pool.gather_layer_kv(&[1, 0], 5, 0);
    assert_eq!(k.len(), 20);
    assert_eq!(&k[0..4], &[1; 4]);
    assert_eq!(&k[16..20], &[3; 4]);
    assert_eq!(&v[16..20], &[4; 4]);
    let (k, _) = pool.gather_layer_kv(&[1], 100, 0);
    assert_eq!(k.len(), 16);
}

#[test]
fn heap_buffers_are_aligned_and_zeroed() {
    let pool = UnifiedKvTensorPool::allocate(small(KvDType::Bf16)).unwrap();
    assert_eq!(pool.device_address().0 % 256, 0);
    assert_ne!(pool.device_address().0, 0);
    assert_eq!(pool.total_bytes(), 4 * 2 * 2 * 4 * 2 * 2 * 2);
    assert_eq!(pool.block_bytes(), 128);
    assert_eq!(
        pool.block_device_address(3).0,
        pool.device_address().0 + 3 * 128
    );
    let region = pool.block_region(2);
    assert_eq!(region.offset, 256);
    assert_eq!(region.len, 128);
    assert_eq!(region.address.0, pool.device_address().0 + 256);
    let other = UnifiedKvTensorPool::allocate(small(KvDType::Bf16)).unwrap();
    assert_ne!(pool.device_address().0, other.device_address().0);
    assert_eq!(pool.buffer().len(), 512);
    assert!((0..512).all(|i| pool.buffer().load(i) == 0));
}

#[test]
fn refused_pools() {
    let e = UnifiedKvTensorPool::allocate(small(KvDType::Fp4)).err().unwrap();
    assert_eq!(e, "Fp4 sub-byte stride requires packed layout");
    let short = HeapUnifiedBuffer::allocate(64, 256).unwrap();
    let e = UnifiedKvTensorPool::new(small(KvDType::Bf16), short).err().unwrap();
    assert_eq!(
        e,
        "Buffer size 64 is smaller than required KV tensor pool size 512"
    );
}

#[test]
fn bf16_rounds_to_nearest_even() {
    assert_eq!(f32_to_bf16_bits(1.0f32.to_bits()), 0x3F80);
    assert_eq!(f32_to_bf16_bits(0x3F80_8000), 0x3F80);
    assert_eq!(f32_to_bf16_bits(0x3F81_8000), 0x3F82);
    assert_eq!(f32_to_bf16_bits(0x3F80_8001), 0x3F81);
    assert_eq!(bf16_bits_to_f32(0x3F80), 1.0f32.to_bits());
    assert_eq!(bf16_bits_to_f32(0xC000), (-2.0f32).to_bits());
}

#[test]
fn a_nan_stays_a_nan() {
    // All fraction bits set, with either sign, and only one that is dropped.
    assert_eq!(f32_to_bf16_bits(0x7FFF_FFFF), 0x7FFF);
    assert_eq!(f32_to_bf16_bits(0xFFFF_FFFF), 0xFFFF);
    assert_eq!(f32_to_bf16_bits(0x7F80_0001), 0x7FC0);
    assert_eq!(f32_to_bf16_bits(0xFF80_0001), 0xFFC0);
    assert_eq!(f32_to_bf16_bits(0x7FA0_1234), 0x7FA0);
    for bits in [0x7FFF_FFFF, 0xFFFF_FFFF, 0x7F80_0001, 0xFF80_0001, f32::NAN.to_bits()] {
        assert!(f32::from_bits(bf16_bits_to_f32(f32_to_bf16_bits(bits))).is_nan());
    }
    // Infinities are none, and the largest numbers round to them.
    assert_eq!(f32_to_bf16_bits(f32::INFINITY.to_bits()), 0x7F80);
    assert_eq!(f32_to_bf16_bits(f32::NEG_INFINITY.to_bits()), 0xFF80);
    assert_eq!(f32_to_bf16_bits(f32::MAX.to_bits()), 0x7F80);
    for bits in 0..=u16::MAX {
        assert_eq!(f32_to_bf16_bits(bf16_bits_to_f32(bits)), bits);
    }
}

#[test]
fn shapes_of_known_models() {
    let t = KvPoolConfig::for_tinyllama(16, 16, KvDType::Bf16);
    assert_eq!((t.num_layers, t.num_kv_heads, t.head_dim), (22, 4, 64));
    // 2 * 22 * 16 * 4 * 64 elements of two bytes.
    assert_eq!(t.bytes_per_block(), 360448);
    assert_eq!(t.total_bytes(), 16 * 360448);
    let q = KvPoolConfig::for_qwen2_5_7b(1, 16, KvDType::Fp4);
    assert_eq!(q.bytes_per_block(), 2 * q.num_layers * 16 * q.num_kv_heads * q.head_dim / 2);
    assert_eq!(f32::from_bits(KvDType::Fp4.bytes_per_element()), 0.5);
    assert_eq!(f32::from_bits(KvDType::Fp8.bytes_per_element()), 1.0);
    assert_eq!(f32::from_bits(KvDType::Bf16.bytes_per_element()), 2.0);
    assert_eq!(f32::from_bits(KvDType::Fp16.bytes_per_element()), 2.0);
    assert_eq!(f32::from_bits(KvDType::Fp32.bytes_per_element()), 4.0);
}

#[test]
fn large_blocks_are_estimated_through_f32() {
    let c = KvPoolConfig {
        num_blocks: 1,
        block_size: 16777217,
        num_layers: 1,
        num_kv_heads: 1,
        head_dim: 1,
        dtype: KvDType::Fp8,
    };
    assert_eq!(c.bytes_per_block(), (33554434usize as f32 * 1.0).ceil() as usize);
}

#[test]
fn strides_count_elements() {
    let mut pool = UnifiedKvTensorPool::allocate(small(KvDType::Bf16)).unwrap();
    assert_eq!(pool.element_strides(), (4, 16, 32, 64));
    pool.buffer_mut().store(5, 77);
    assert_eq!(pool.buffer().load(5), 77);
    assert_eq!(pool.layout_desc().block_stride_bytes, 128);
    assert_eq!(pool.config().num_blocks, 4);
    assert_eq!(pool.layout().element_bytes, 2);
}
