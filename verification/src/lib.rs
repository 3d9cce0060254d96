//! Paged KV-cache management and continuous-batching scheduling for an
//! in-process language-model runtime.

pub mod abi;
pub mod accounting;
pub mod agreement;
pub mod backends;
pub mod batching;
pub mod buffer;
pub mod completion;
pub mod decode;
pub mod embedded;
pub mod floats;
pub mod forward;
pub mod generation;
pub mod history;
pub mod kv_laws;
pub mod kv_manager;
pub mod kv_state;
pub mod layout;
pub mod lifetimes;
pub mod maps;
pub mod model;
pub mod paged_batches;
pub mod paged_writing;
pub mod pages;
pub mod paging;
pub mod passes;
pub mod platform;
pub mod pool;
pub mod prefill;
pub mod scan;
pub mod scheduler;
pub mod scheduler_state;
pub mod scheduling;
pub mod sequence;
pub mod shared;
pub mod sharing;
pub mod spine;
pub mod surface;
pub mod tensor;
pub mod text;
pub mod transformer;
pub mod weights;
pub mod writing;
