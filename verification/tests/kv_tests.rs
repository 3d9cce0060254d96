use aien::buffer::HeapUnifiedBuffer;
use aien::kv_manager::AienKvManager;
use aien::layout::{KvDType, KvPoolConfig};
use aien::shared::{create_shared_kv_manager, create_shared_kv_manager_with_pool};

type Manager = AienKvManager<HeapUnifiedBuffer>;

/// Two layers, blocks of four tokens, rows of two elements.
fn small(total_blocks: usize) -> Manager {
    let config = KvPoolConfig::for_model(total_blocks, 4, 2, 1, 2, KvDType::Fp32);
    AienKvManager::new_with_pool(total_blocks, 4, config).unwrap()
}

/// Appends a token and stores its rows in both layers.
fn append(mgr: &mut Manager, seq: u64, value: u32) {
    let (block, slot) = mgr.append_token_with_slot(seq).unwrap();
    for layer in 0..2 {
        let k = [value, layer as u32];
        let v = [value + 100, layer as u32];
        mgr.write_explicit_token_kv(block, layer, slot, &k, &v).unwrap();
    }
}

#[test]
fn test_cow_manager_fork_and_divergence() {
    let cfg = KvPoolConfig::for_tinyllama(32, 16, KvDType::Bf16);
    let mut mgr = AienKvManager::new_with_pool(32, 16, cfg).unwrap();

    let prompt: Vec<u32> = (0..30).collect();
    let parent_blocks = mgr.allocate_sequence(100, &prompt).unwrap();
    assert_eq!(parent_blocks.len(), 2);

    let child1_blocks = mgr.fork_sequence(100, 201).unwrap();
    let child2_blocks = mgr.fork_sequence(100, 202).unwrap();

    assert_eq!(child1_blocks, parent_blocks);
    assert_eq!(child2_blocks, parent_blocks);

    // Append to child 1 -> triggers COW on block 1
    let (new_blk, _) = mgr.append_token_with_slot(201).unwrap();
    let child1_now = mgr.get_block_table(201).unwrap();

    assert_eq!(
        child1_now.block_ids[0], parent_blocks[0],
        "Prefix block 0 must remain shared"
    );
    assert_ne!(
        child1_now.block_ids[1], parent_blocks[1],
        "Tail block 1 must have diverged via COW"
    );
    assert_eq!(child1_now.block_ids[1], new_blk);

    // Parent and child 2 still share original block 1
    let parent_now = mgr.get_block_table(100).unwrap();
    let child2_now = mgr.get_block_table(202).unwrap();
    assert_eq!(parent_now.block_ids[1], parent_blocks[1]);
    assert_eq!(child2_now.block_ids[1], parent_blocks[1]);
}

#[test]
fn a_fork_costs_no_block_and_reads_the_same() {
    let mut mgr = small(8);
    mgr.allocate_sequence(1, &[]).unwrap();
    for t in 0..6 {
        append(&mut mgr, 1, t);
    }
    let free = mgr.free_block_count();
    mgr.fork_sequence(1, 2).unwrap();
    assert_eq!(mgr.free_block_count(), free);
    assert_eq!(mgr.gather_layer_kv(1, 1).unwrap(), mgr.gather_layer_kv(2, 1).unwrap());
    let m = mgr.metrics();
    assert_eq!((m.physical_pages, m.logical_pages), (2, 4));
    assert_eq!((m.shared_pages, m.private_pages), (2, 0));
    // Two layers of K and V, four tokens, two elements of four bytes: 128 bytes a block.
    assert_eq!(m.bytes_saved_vs_full_copy, 2 * 128);
    assert_eq!(m.cow_faults, 0);
}

#[test]
fn diverged_branches_do_not_see_each_other() {
    let mut mgr = small(8);
    mgr.allocate_sequence(1, &[]).unwrap();
    for t in 0..6 {
        append(&mut mgr, 1, t);
    }
    mgr.fork_sequence(1, 2).unwrap();
    let before = mgr.gather_layer_kv(1, 0).unwrap();
    append(&mut mgr, 2, 77);
    assert_eq!(mgr.gather_layer_kv(1, 0).unwrap(), before);
    let (k, v) = mgr.gather_layer_kv(2, 0).unwrap();
    assert_eq!(&k[..12], &before.0[..]);
    assert_eq!(&k[12..], &[77, 0]);
    assert_eq!(&v[12..], &[177, 0]);
    assert_eq!(mgr.metrics().cow_faults, 1);
    append(&mut mgr, 1, 88);
    let (k, _) = mgr.gather_layer_kv(1, 1).unwrap();
    assert_eq!(&k[12..], &[88, 1]);
    let (k, _) = mgr.gather_layer_kv(2, 1).unwrap();
    assert_eq!(&k[12..], &[77, 1]);
    // The parent was the last holder of its tail block, so it wrote in place.
    assert_eq!(mgr.metrics().cow_faults, 1);
}

#[test]
fn a_freed_branch_leaves_its_parent() {
    let mut mgr = small(8);
    mgr.allocate_sequence(1, &[]).unwrap();
    for t in 0..5 {
        append(&mut mgr, 1, t);
    }
    let rows = mgr.gather_layer_kv(1, 0).unwrap();
    let free = mgr.free_block_count();
    mgr.fork_sequence(1, 2).unwrap();
    mgr.free_sequence(2);
    assert_eq!(mgr.free_block_count(), free);
    assert_eq!(mgr.gather_layer_kv(1, 0).unwrap(), rows);
    assert_eq!(mgr.metrics().shared_pages, 0);
    mgr.free_sequence(1);
    assert_eq!(mgr.allocated_block_count(), 0);
    assert_eq!(mgr.active_sequence_count(), 0);
    assert!(mgr.debug_active_blocks().is_empty());
}

#[test]
fn tokens_fill_blocks_in_order() {
    let mut mgr = small(8);
    let blocks = mgr.allocate_sequence(1, &[1, 2, 3, 4, 5]).unwrap();
    assert_eq!(blocks.len(), 2);
    assert_eq!(mgr.get_block(blocks[0]).unwrap().num_tokens, 4);
    assert_eq!(mgr.get_block(blocks[1]).unwrap().num_tokens, 1);
    assert_eq!(mgr.append_token_with_slot(1).unwrap(), (blocks[1], 1));
    assert_eq!(mgr.append_token_with_slot(1).unwrap(), (blocks[1], 2));
    assert_eq!(mgr.append_token_with_slot(1).unwrap(), (blocks[1], 3));
    let (third, slot) = mgr.append_token_with_slot(1).unwrap();
    assert_eq!(slot, 0);
    assert!(!blocks.contains(&third));
    assert_eq!(mgr.total_tokens(1), Some(9));
    assert_eq!(mgr.total_tokens(2), None);
    assert_eq!(mgr.debug_active_blocks().len(), 3);
}

#[test]
fn a_known_sequence_keeps_its_blocks() {
    let mut mgr = small(8);
    let blocks = mgr.allocate_sequence(1, &[1, 2, 3]).unwrap();
    assert_eq!(mgr.allocate_sequence(1, &[1; 20]).unwrap(), blocks);
    assert_eq!(mgr.total_tokens(1), Some(3));
}

#[test]
fn reservations_roll_back() {
    let mut mgr = small(8);
    mgr.allocate_sequence(1, &[1, 2, 3, 4]).unwrap();
    let r = mgr.reserve_token(1).unwrap();
    assert_eq!(mgr.total_tokens(1), Some(5));
    mgr.rollback(r).unwrap();
    assert_eq!(mgr.total_tokens(1), Some(4));
    let r = mgr.reserve_token(1).unwrap();
    mgr.commit(r).unwrap();
    assert_eq!(mgr.total_tokens(1), Some(5));
}

#[test]
fn stored_rows_by_position() {
    let mut mgr = small(4);
    mgr.allocate_sequence(1, &[0; 6]).unwrap();
    mgr.write_token_kv(1, 5, 1, &[3, 4], &[5, 6]).unwrap();
    let (k, v) = mgr.gather_layer_kv(1, 1).unwrap();
    assert_eq!(&k[10..], &[3, 4]);
    assert_eq!(&v[10..], &[5, 6]);
    assert_eq!(&k[..10], &[0; 10]);
    let mut k_out = vec![1, 2, 3];
    let mut v_out = Vec::new();
    mgr.gather_sequence_layer_kv(1, 1, &mut k_out, &mut v_out).unwrap();
    assert_eq!(k_out, k);
    assert_eq!(v_out, v);
}

#[test]
fn kv_errors() {
    let mut mgr = small(2);
    assert_eq!(
        mgr.allocate_sequence(1, &[0; 9]).unwrap_err(),
        "Insufficient blocks: need 3, have 2"
    );
    assert_eq!(mgr.free_block_count(), 2);
    assert_eq!(mgr.fork_sequence(7, 8).unwrap_err(), "Parent sequence 7 not found");
    assert_eq!(mgr.append_token(7).unwrap_err(), "Sequence 7 not found");
    mgr.allocate_sequence(1, &[0; 8]).unwrap();
    assert_eq!(mgr.append_token(1).unwrap_err(), "Out of physical KV blocks");
    assert_eq!(mgr.allocate_block().unwrap_err(), "Out of physical KV blocks");
    assert_eq!(
        mgr.write_token_kv(1, 8, 0, &[0, 0], &[0, 0]).unwrap_err(),
        "Token pos 8 out of bounds for sequence 1"
    );
    assert_eq!(
        mgr.write_token_kv(9, 0, 0, &[0, 0], &[0, 0]).unwrap_err(),
        "Sequence 9 not found"
    );
    assert_eq!(mgr.gather_layer_kv(9, 0).unwrap_err(), "Sequence 9 not found");
    let mut bare = AienKvManager::<HeapUnifiedBuffer>::new(2, 4);
    bare.allocate_sequence(1, &[1]).unwrap();
    assert_eq!(
        bare.gather_layer_kv(1, 0).unwrap_err(),
        "No physical tensor pool attached"
    );
    assert_eq!(
        bare.write_token_kv(1, 0, 0, &[0, 0], &[0, 0]).unwrap_err(),
        "No physical tensor pool attached"
    );
    let cfg = KvPoolConfig::for_tinyllama(2, 4, KvDType::Fp4);
    assert_eq!(
        bare.attach_tensor_pool(cfg).unwrap_err(),
        "Fp4 sub-byte stride requires packed layout"
    );
}

#[test]
fn a_copy_needs_a_free_block() {
    let mut mgr = small(1);
    mgr.allocate_sequence(1, &[1]).unwrap();
    mgr.fork_sequence(1, 2).unwrap();
    assert_eq!(mgr.append_token(2).unwrap_err(), "Out of physical KV blocks");
    mgr.free_sequence(1);
    assert_eq!(mgr.append_token_with_slot(2).unwrap(), (0, 1));
}

#[test]
fn shared_managers_hold_what_they_were_made_with() {
    let shared = create_shared_kv_manager(5, 16);
    assert_eq!(shared.read().free_block_count(), 5);
    assert_eq!(shared.read().block_size(), 16);
    assert!(shared.read().tensor_pool().is_none());
    let other = shared.clone();
    other.write().allocate_sequence(3, &[1, 2]).unwrap();
    assert_eq!(shared.read().free_block_count(), 4);
    let cfg = KvPoolConfig::for_model(5, 16, 2, 1, 4, KvDType::Bf16);
    let pooled = create_shared_kv_manager_with_pool(5, 16, cfg).unwrap();
    assert_eq!(pooled.read().tensor_pool().unwrap().block_bytes(), 2 * 2 * 16 * 4 * 2);
    let cfg = KvPoolConfig::for_model(5, 16, 2, 1, 4, KvDType::Fp4);
    assert_eq!(
        create_shared_kv_manager_with_pool(5, 16, cfg).err().unwrap(),
        "Fp4 sub-byte stride requires packed layout"
    );
}

#[test]
fn managers_over_a_given_buffer() {
    let config = || KvPoolConfig::for_model(2, 4, 2, 1, 2, KvDType::Fp32);
    let buffer = HeapUnifiedBuffer::allocate(256, 64).unwrap();
    let mut mgr = AienKvManager::with_buffer(2, 4, config(), buffer).unwrap();
    assert_eq!(mgr.free_block_count(), 2);
    mgr.allocate_sequence(1, &[1]).unwrap();
    mgr.write_token_kv(1, 0, 0, &[7, 8], &[9, 10]).unwrap();
    assert_eq!(mgr.gather_layer_kv(1, 0).unwrap(), (vec![7, 8], vec![9, 10]));
    let block = mgr.get_block_table(1).unwrap().block_ids[0];
    mgr.tensor_pool_mut().unwrap().zero_block(block);
    assert_eq!(mgr.gather_layer_kv(1, 0).unwrap(), (vec![0, 0], vec![0, 0]));
    let small = HeapUnifiedBuffer::allocate(255, 64).unwrap();
    assert_eq!(
        AienKvManager::with_buffer(2, 4, config(), small).err().unwrap(),
        "Buffer size 255 is smaller than required KV tensor pool size 256"
    );
    let again = HeapUnifiedBuffer::allocate(300, 64).unwrap();
    mgr.attach_buffer(config(), again).unwrap();
    assert_eq!(mgr.pool().unwrap().total_bytes(), 256);
    mgr.pool_mut().unwrap().zero_block(0);
    let pooled = AienKvManager::with_tensor_pool(2, 4, config()).unwrap();
    assert_eq!(pooled.pool().unwrap().block_bytes(), 128);
}

#[test]
fn page_counts_add_up() {
    let mut mgr = small(8);
    mgr.allocate_sequence(1, &[1, 2, 3]).unwrap();
    mgr.fork_sequence(1, 2).unwrap();
    append(&mut mgr, 2, 7);
    mgr.allocate_sequence(3, &[4]).unwrap();
    let m = mgr.metrics();
    assert_eq!(m.physical_pages, m.shared_pages + m.private_pages);
    assert_eq!(m.physical_pages, mgr.allocated_block_count());
    let named: usize =
        [1, 2, 3].iter().map(|s| mgr.get_block_table(*s).unwrap().block_ids.len()).sum();
    assert_eq!(m.logical_pages, named);
    assert!(m.logical_pages >= m.physical_pages);
    let block_bytes = mgr.tensor_pool().unwrap().block_bytes();
    assert_eq!(
        m.bytes_saved_vs_full_copy,
        (m.logical_pages - m.physical_pages) * block_bytes
    );
    // Tokens fill the blocks of every sequence from the front without a gap.
    for seq in [1, 2, 3] {
        let table = mgr.get_block_table(seq).unwrap();
        let last = mgr.get_block(*table.block_ids.last().unwrap()).unwrap();
        let full = (table.block_ids.len() - 1) * mgr.block_size();
        assert_eq!(table.total_tokens, full + last.num_tokens);
    }
}
