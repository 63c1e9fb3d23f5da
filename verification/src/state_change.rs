use vstd::prelude::*;

use crate::amm::Amm;

verus! {

/// What one block changed: the AMMs as they stood before the block's logs
/// were applied to them (`None` when the block touched no tracked AMM), and
/// the block's number.
#[derive(Debug)]
pub struct StateChange {
    pub state_change: Option<Vec<Amm>>,
    pub block_number: u64,
}

impl StateChange {
    pub fn new(state_change: Option<Vec<Amm>>, block_number: u64) -> (r: StateChange)
        ensures
            r.state_change == state_change,
            r.block_number == block_number,
    {
        StateChange { block_number, state_change }
    }
}

} // verus!
