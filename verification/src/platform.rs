//! Identifiers and work descriptions that the runtime hands to the scheduler.

use vstd::prelude::*;

verus! {

/// Identifier of a sequence.
pub type SequenceId = u64;

/// A loaded model.
#[derive(Debug, Clone, Copy, PartialEq, Eq, Hash, Structural)]
pub struct ModelHandle(pub u64);

/// The root context of a prompt.
#[derive(Debug, Clone, Copy, PartialEq, Eq, Hash, Structural)]
pub struct ContextHandle(pub u64);

/// An independently decoding branch.
#[derive(Debug, Clone, Copy, PartialEq, Eq, Hash, Structural)]
pub struct BranchHandle(pub u64);

/// The KV storage of a sequence.
#[derive(Debug, Clone, Copy, PartialEq, Eq, Hash, Structural)]
pub struct KvHandle(pub u64);

/// A point in time, in clock ticks.
#[derive(Debug, Clone, Copy, PartialEq, Eq, Hash, Structural)]
pub struct Ticks(pub u64);

/// How urgent a sequence is, from least to most.
#[derive(Debug, Clone, Copy, PartialEq, Eq, Hash, Structural)]
pub enum Priority {
    Background,
    Normal,
    Interactive,
    Realtime,
}

impl Priority {
    /// The priority of a rank; every rank above the last is the most urgent.
    pub open spec fn of_rank(rank: u8) -> Priority {
        if rank == 0 {
            Priority::Background
        } else if rank == 1 {
            Priority::Normal
        } else if rank == 2 {
            Priority::Interactive
        } else {
            Priority::Realtime
        }
    }

    pub open spec fn rank_of(self) -> u8 {
        match self {
            Priority::Background => 0,
            Priority::Normal => 1,
            Priority::Interactive => 2,
            Priority::Realtime => 3,
        }
    }

    pub fn from_rank(rank: u8) -> (r: Self)
        ensures
            r == Priority::of_rank(rank),
    {
        match rank {
            0 => Priority::Background,
            1 => Priority::Normal,
            2 => Priority::Interactive,
            _ => Priority::Realtime,
        }
    }

    pub fn rank(&self) -> (r: u8)
        ensures
            r == self.rank_of(),
    {
        match self {
            Priority::Background => 0,
            Priority::Normal => 1,
            Priority::Interactive => 2,
            Priority::Realtime => 3,
        }
    }

    /// A priority is the priority of its rank, and ranks up to the last keep their value.
    pub proof fn law_rank_round_trip(self, rank: u8)
        ensures
            Priority::of_rank(self.rank_of()) == self,
            rank <= 3 ==> Priority::of_rank(rank).rank_of() == rank,
    {
    }
}

/// A request for inference on a sequence.
#[derive(Debug, Clone, Copy)]
pub struct InferenceWork {
    pub sequence: SequenceId,
    pub model: ModelHandle,
    pub kv: KvHandle,
    pub priority: Priority,
    pub deadline: Option<Ticks>,
    pub branch_parent: Option<SequenceId>,
    pub next_token_budget: u32,
}

} // verus!
