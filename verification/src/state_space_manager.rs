use vstd::prelude::*;

use crate::amm::{Address, Amm};
use crate::cache::StateChangeCache;
use crate::space::{entries_after_insert, StateSpace};

verus! {

/// The map from each address to the last AMM of the sequence that has it.
pub open spec fn initial_state_map(amms: Seq<Amm>) -> Map<Address, Amm>
    decreases amms.len(),
{
    if amms.len() == 0 {
        Map::empty()
    } else {
        initial_state_map(amms.drop_last()).insert(amms.last().address, amms.last())
    }
}

/// The AMMs that a state space built from the sequence holds, in the order
/// in which their addresses first occur, each the last one of its address.
pub open spec fn initial_entries(amms: Seq<Amm>) -> Seq<Amm>
    decreases amms.len(),
{
    if amms.len() == 0 {
        Seq::empty()
    } else {
        entries_after_insert(initial_entries(amms.drop_last()), amms.last())
    }
}

/// A state space together with the last block it is synced to and the
/// recent state changes by which it can be rolled back.
pub struct StateSpaceManager {
    pub state: StateSpace,
    pub last_synced_block: u64,
    pub state_changes_cache: StateChangeCache,
}

impl StateSpaceManager {
    /// A manager of the state, synced to `last_synced_block`, with no state
    /// change recorded yet.
    pub fn new(state: StateSpace, last_synced_block: u64) -> (r: StateSpaceManager)
        ensures
            r.state@ == state@,
            r.last_synced_block == last_synced_block,
            r.state_changes_cache@ == Seq::<crate::state_change::StateChange>::empty(),
    {
        StateSpaceManager {
            state,
            last_synced_block,
            state_changes_cache: StateChangeCache::empty(),
        }
    }

    /// The state space of the AMMs, each under its address; of AMMs that
    /// share an address, the last one is kept.
    pub fn initialize_state(amms: Vec<Amm>) -> (r: StateSpace)
        ensures
            r@ == initial_state_map(amms@),
            r.entries() == initial_entries(amms@),
    {
        let ghost all = amms@;
        let mut state = StateSpace::new();
        for amm in it: amms.into_iter()
            invariant
                it.seq() == all,
                state@ == initial_state_map(all.take(it.index() as int)),
                state.entries() == initial_entries(all.take(it.index() as int)),
        {
            proof {
                assert(all.take(it.index() + 1).drop_last() =~= all.take(it.index() as int));
            }
            state.insert(amm);
        }
        assert(all.take(all.len() as int) =~= all);
        state
    }
}

} // verus!
