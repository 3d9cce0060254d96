//! A manager behind a lock, for the scheduler and the execution backend to share.

use crate::buffer::HeapUnifiedBuffer;
use crate::kv_manager::{heap_pool_attached, AienKvManager};
use crate::kv_state::KvState;
use crate::layout::KvPoolConfig;
use parking_lot::RwLock;
use std::sync::Arc;
use vstd::prelude::*;

verus! {

/// The lock implementation of `parking_lot`.
#[verifier::external_type_specification]
#[verifier::external_body]
pub struct ExRawRwLock(parking_lot::RawRwLock);

/// The reader-writer lock that `parking_lot` re-exports.
#[verifier::external_type_specification]
#[verifier::external_body]
#[verifier::reject_recursive_types(R)]
#[verifier::reject_recursive_types(T)]
pub struct ExRwLock<R, T: ?Sized>(parking_lot::lock_api::RwLock<R, T>);

pub type SharedKvManager<B = HeapUnifiedBuffer> = Arc<RwLock<AienKvManager<B>>>;

/// The state of the manager that a lock was made around. What later holders of the lock
/// make of it is not recorded here.
pub uninterp spec fn locked_at_first(
    lock: RwLock<AienKvManager<HeapUnifiedBuffer>>,
) -> KvState;

/// `parking_lot::RwLock::new` puts its argument behind a new, unlocked lock.
#[verifier::external_body]
fn behind_lock(mgr: AienKvManager<HeapUnifiedBuffer>) -> (r: RwLock<
    AienKvManager<HeapUnifiedBuffer>,
>)
    ensures
        locked_at_first(r) == mgr@,
{
    RwLock::new(mgr)
}

/// A shared manager of `total_blocks` free blocks, without a tensor pool.
pub fn create_shared_kv_manager(total_blocks: usize, block_size: usize) -> (r: SharedKvManager<
    HeapUnifiedBuffer,
>)
    ensures
        locked_at_first(*r) == KvState::fresh(total_blocks, block_size),
{
    Arc::new(behind_lock(AienKvManager::new(total_blocks, block_size)))
}

/// A shared manager with a zeroed tensor pool on the heap.
pub fn create_shared_kv_manager_with_pool(
    total_blocks: usize,
    block_size: usize,
    config: KvPoolConfig,
) -> (r: Result<SharedKvManager<HeapUnifiedBuffer>, String>)
    requires
        config.dtype is Fp4 || config.strides_fit(),
    ensures
        match r {
            Ok(m) => heap_pool_attached(
                KvState::fresh(total_blocks, block_size),
                config,
                locked_at_first(*m),
                Ok(()),
            ),
            Err(e) => heap_pool_attached(
                KvState::fresh(total_blocks, block_size),
                config,
                KvState::fresh(total_blocks, block_size),
                Err(e),
            ),
        },
{
    match AienKvManager::new_with_pool(total_blocks, block_size, config) {
        Ok(mgr) => Ok(Arc::new(behind_lock(mgr))),
        Err(e) => Err(e),
    }
}

} // verus!
