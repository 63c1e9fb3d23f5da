use vstd::prelude::*;

use ethers::types::Filter;

use crate::amm::{Address, Amm};
pub use crate::cache::StateChangeCache;
use crate::cache::STATE_CHANGE_CACHE_CAPACITY;
use crate::error::{EventLogError, StateChangeError};
pub use crate::space::StateSpace;
pub use crate::state_change::StateChange;

verus! {

/// What the state space reads of a log: the address of the contract that
/// emitted it and the number of the block it belongs to (absent for a
/// pending log).
#[derive(Debug, Clone, Copy)]
pub struct Log {
    pub address: Address,
    pub block_number: Option<u64>,
}

/// The block number of the log, or `LogBlockNumberNotFound` when it has none.
pub fn get_block_number_from_log(log: &Log) -> (r: Result<u64, EventLogError>)
    ensures
        match log.block_number {
            Some(b) => r == Ok::<u64, EventLogError>(b),
            None => r == Err::<u64, EventLogError>(EventLogError::LogBlockNumberNotFound),
        },
{
    if let Some(block_number) = log.block_number {
        Ok(block_number)
    } else {
        Err(EventLogError::LogBlockNumberNotFound)
    }
}

/// The cache after a state change is added: the change goes to the front,
/// and when the cache was full its oldest (back) change is dropped first.
pub open spec fn cache_after_add(changes: Seq<StateChange>, state_change: StateChange) -> Seq<
    StateChange,
> {
    let kept = if changes.len() == STATE_CHANGE_CACHE_CAPACITY {
        changes.drop_last()
    } else {
        changes
    };
    seq![state_change] + kept
}

/// Adds the state change at the front of the cache, evicting the oldest one
/// when the cache is full.
pub fn add_state_change_to_cache(
    state_change_cache: &mut StateChangeCache,
    state_change: StateChange,
) -> (r: Result<(), StateChangeError>)
    ensures
        r is Ok,
        final(state_change_cache)@ == cache_after_add(old(state_change_cache)@, state_change),
        old(state_change_cache)@.len() <= STATE_CHANGE_CACHE_CAPACITY
            ==> final(state_change_cache)@.len() <= STATE_CHANGE_CACHE_CAPACITY,
{
    if state_change_cache.is_full() {
        state_change_cache.pop_back();
        if state_change_cache.push_front(state_change).is_err() {
            return Err(StateChangeError::CapacityError);
        }
    } else {
        if state_change_cache.push_front(state_change).is_err() {
            return Err(StateChangeError::CapacityError);
        }
    }
    Ok(())
}

/// How many changes at the front of the cache belong to blocks at or after
/// the block: the changes that an unwind to that block rolls back.
pub open spec fn changes_to_unwind(changes: Seq<StateChange>, block_to_unwind: u64) -> nat
    decreases changes.len(),
{
    if changes.len() == 0 {
        0
    } else if changes[0].block_number >= block_to_unwind {
        1 + changes_to_unwind(changes.drop_first(), block_to_unwind)
    } else {
        0
    }
}

/// The state after the AMMs are put in it one by one, in order, each under
/// its address.
pub open spec fn insert_amms(state: Map<Address, Amm>, amms: Seq<Amm>) -> Map<Address, Amm>
    decreases amms.len(),
{
    if amms.len() == 0 {
        state
    } else {
        insert_amms(state, amms.drop_last()).insert(amms.last().address, amms.last())
    }
}

/// The state after the snapshots of a state change are put back in it.
pub open spec fn restore_state_change(state: Map<Address, Amm>, state_change: StateChange) -> Map<
    Address,
    Amm,
> {
    match state_change.state_change {
        Some(amms) => insert_amms(state, amms@),
        None => state,
    }
}

/// The state after the snapshots of the state changes are put back in it,
/// change after change, in the order given.
pub open spec fn restore_state_changes(
    state: Map<Address, Amm>,
    changes: Seq<StateChange>,
) -> Map<Address, Amm>
    decreases changes.len(),
{
    if changes.len() == 0 {
        state
    } else {
        restore_state_change(restore_state_changes(state, changes.drop_last()), changes.last())
    }
}

/// What an unwind to `block_to_unwind` does: the changes of blocks at or
/// after it are taken from the front of the cache and their snapshots put
/// back in the state, newest change first; it succeeds when a change of an
/// older block remains, and otherwise fails with `NoStateChangesInCache`,
/// leaving the cache empty.
pub open spec fn unwound(
    state: Map<Address, Amm>,
    changes: Seq<StateChange>,
    block_to_unwind: u64,
    new_state: Map<Address, Amm>,
    new_changes: Seq<StateChange>,
    r: Result<(), StateChangeError>,
) -> bool {
    let k = changes_to_unwind(changes, block_to_unwind);
    &&& new_state == restore_state_changes(state, changes.take(k as int))
    &&& k < changes.len() ==> r is Ok && new_changes == changes.skip(k as int)
    &&& k == changes.len() ==> r == Err::<(), StateChangeError>(
        StateChangeError::NoStateChangesInCache,
    ) && new_changes == Seq::<StateChange>::empty()
}

/// The changes that an unwind rolls back are exactly those before the first
/// change older than the block.
pub proof fn lemma_changes_to_unwind(changes: Seq<StateChange>, block_to_unwind: u64, k: int)
    requires
        0 <= k <= changes.len(),
        forall|i: int| 0 <= i < k ==> #[trigger] changes[i].block_number >= block_to_unwind,
        k < changes.len() ==> changes[k].block_number < block_to_unwind,
    ensures
        changes_to_unwind(changes, block_to_unwind) == k,
    decreases k,
{
    if k > 0 {
        let rest = changes.drop_first();
        assert forall|i: int| 0 <= i < k - 1 implies #[trigger] rest[i].block_number
            >= block_to_unwind by {
            assert(rest[i] == changes[i + 1]);
        }
        if k - 1 < rest.len() {
            assert(rest[k - 1] == changes[k]);
        }
        lemma_changes_to_unwind(rest, block_to_unwind, k - 1);
    }
}

/// Puts each AMM back in the state under its address, in order.
fn restore_amms(state: &mut StateSpace, amms: Vec<Amm>)
    ensures
        final(state)@ == insert_amms(old(state)@, amms@),
{
    let ghost start = state@;
    let ghost all = amms@;
    for amm in it: amms.into_iter()
        invariant
            it.seq() == all,
            state@ == insert_amms(start, all.take(it.index() as int)),
    {
        proof {
            assert(all.take(it.index() + 1).drop_last() =~= all.take(it.index() as int));
        }
        state.insert(amm);
    }
    assert(all.take(all.len() as int) =~= all);
}

/// Rolls the state back to before `block_to_unwind`: while the newest change
/// in the cache belongs to a block at or after it, the change is removed and
/// the AMM snapshots it holds are put back in the state. Fails with
/// `NoStateChangesInCache` when the cache runs out of changes before one
/// older than `block_to_unwind` is found, as the state cannot then be rolled
/// back far enough.
pub fn unwind_state_changes(
    state: &mut StateSpace,
    state_change_cache: &mut StateChangeCache,
    block_to_unwind: u64,
) -> (r: Result<(), StateChangeError>)
    ensures
        unwound(
            old(state)@,
            old(state_change_cache)@,
            block_to_unwind,
            final(state)@,
            final(state_change_cache)@,
            r,
        ),
{
    let ghost changes = state_change_cache@;
    let ghost start = state@;
    let ghost mut popped: int = 0;
    loop
        invariant
            changes == old(state_change_cache)@,
            start == old(state)@,
            0 <= popped <= changes.len(),
            state_change_cache@ == changes.skip(popped),
            state@ == restore_state_changes(start, changes.take(popped)),
            forall|i: int| 0 <= i < popped ==> #[trigger] changes[i].block_number >= block_to_unwind,
        decreases changes.len() - popped,
    {
        let front_block = match state_change_cache.get(0) {
            Some(state_change) => state_change.block_number,
            None => {
                proof {
                    lemma_changes_to_unwind(changes, block_to_unwind, popped);
                    assert(changes.take(popped) =~= changes);
                    assert(state_change_cache@ =~= Seq::<StateChange>::empty());
                }
                return Err(StateChangeError::NoStateChangesInCache);
            },
        };
        if front_block >= block_to_unwind {
            if let Some(option_state_changes) = state_change_cache.pop_front() {
                proof {
                    assert(changes.take(popped + 1).drop_last() =~= changes.take(popped));
                    assert(changes.skip(popped).drop_first() =~= changes.skip(popped + 1));
                }
                if let Some(state_changes) = option_state_changes.state_change {
                    restore_amms(state, state_changes);
                }
                proof {
                    popped = popped + 1;
                }
            } else {
                return Err(StateChangeError::PopFrontError);
            }
        } else {
            proof {
                lemma_changes_to_unwind(changes, block_to_unwind, popped);
            }
            return Ok(());
        }
    }
}

/// The state change that records the pending snapshots of a block: `None`
/// when there are none.
pub open spec fn pending_state_change(pending: Vec<Amm>, block_number: u64) -> StateChange {
    StateChange {
        state_change: if pending@.len() == 0 {
            None
        } else {
            Some(pending)
        },
        block_number,
    }
}

/// What `LogBatch::on_log` does: from the batch `pre`, with the state and the
/// cache `changes`, the log leads to the batch `post`, the cache
/// `new_changes` and the result `r`.
pub open spec fn on_log_step(
    pre: LogBatch,
    state: Map<Address, Amm>,
    changes: Seq<StateChange>,
    log: Log,
    post: LogBatch,
    new_changes: Seq<StateChange>,
    r: Result<bool, StateChangeError>,
) -> bool {
    match log.block_number {
        None => {
            &&& r == Err::<bool, StateChangeError>(
                StateChangeError::EventLogError(EventLogError::LogBlockNumberNotFound),
            )
            &&& post == pre
            &&& new_changes == changes
        },
        Some(block_number) => {
            let last = match pre.last_log_block_number {
                Some(last) => last,
                None => block_number,
            };
            let is_tracked = state.contains_key(log.address);
            &&& r == Ok::<bool, StateChangeError>(is_tracked)
            &&& post.last_log_block_number == Some(block_number)
            &&& if block_number != last {
                &&& new_changes == cache_after_add(
                    changes,
                    pending_state_change(pre.state_changes, last),
                )
                &&& post.state_changes@ == Seq::<Amm>::empty()
            } else {
                &&& new_changes == changes
                &&& post.state_changes == pre.state_changes
            }
            &&& post.updated_amms@ == if is_tracked && !pre.updated_amms@.contains(log.address) {
                pre.updated_amms@.push(log.address)
            } else {
                pre.updated_amms@
            }
        },
    }
}

/// What `LogBatch::on_synced` does: from the batch `pre` and the state
/// `state`, the synced AMM leads to the batch `post` and the state
/// `new_state`.
pub open spec fn on_synced_step(
    pre: LogBatch,
    state: Map<Address, Amm>,
    synced: Amm,
    post: LogBatch,
    new_state: Map<Address, Amm>,
) -> bool {
    &&& new_state == state.insert(synced.address, synced)
    &&& post.state_changes@ == if state.contains_key(synced.address) {
        pre.state_changes@.push(state[synced.address])
    } else {
        pre.state_changes@
    }
    &&& post.last_log_block_number == pre.last_log_block_number
    &&& post.updated_amms == pre.updated_amms
}

/// Progress through one batch of logs, taken in order: the block of the logs
/// seen last, the snapshots taken in that block so far (the AMMs as they
/// stood before its logs were applied to them), and the addresses of the
/// AMMs of the state that the batch has touched, each once, in order of first
/// touch.
///
/// For each log, `on_log` records it and says whether it belongs to a
/// AMM of the state; if it does, the AMM is synced with the log and handed back
/// to `on_synced`. When a log of a new block comes, the snapshots of the
/// previous block go to the cache as one state change. `finish` gives the
/// touched addresses; the snapshots of the last block stay uncommitted.
pub struct LogBatch {
    pub last_log_block_number: Option<u64>,
    pub state_changes: Vec<Amm>,
    pub updated_amms: Vec<Address>,
}

impl LogBatch {
    /// A batch that has seen no log yet.
    pub fn new() -> (r: LogBatch)
        ensures
            r.last_log_block_number is None,
            r.state_changes@ == Seq::<Amm>::empty(),
            r.updated_amms@ == Seq::<Address>::empty(),
    {
        LogBatch { last_log_block_number: None, state_changes: Vec::new(), updated_amms: Vec::new() }
    }

    /// Records the next log of the batch and says whether it belongs to an
    /// AMM of the state. A log of a block other than the previous log's
    /// first commits the previous block's snapshots to the cache. A log
    /// without a block number is refused and changes nothing.
    pub fn on_log(
        &mut self,
        state: &StateSpace,
        state_change_cache: &mut StateChangeCache,
        log: &Log,
    ) -> (r: Result<bool, StateChangeError>)
        ensures
            on_log_step(
                *old(self),
                state@,
                old(state_change_cache)@,
                *log,
                *final(self),
                final(state_change_cache)@,
                r,
            ),
    {
        let log_block_number = match get_block_number_from_log(log) {
            Ok(block_number) => block_number,
            Err(err) => {
                return Err(StateChangeError::from(err));
            },
        };
        let last_log_block_number = match self.last_log_block_number {
            Some(last) => last,
            None => log_block_number,
        };
        if log_block_number != last_log_block_number {
            let mut state_changes = Vec::new();
            std::mem::swap(&mut state_changes, &mut self.state_changes);
            let committed = if state_changes.len() == 0 {
                add_state_change_to_cache(
                    state_change_cache,
                    StateChange::new(None, last_log_block_number),
                )
            } else {
                add_state_change_to_cache(
                    state_change_cache,
                    StateChange::new(Some(state_changes), last_log_block_number),
                )
            };
            if let Err(err) = committed {
                return Err(err);
            }
        }
        self.last_log_block_number = Some(log_block_number);
        let is_tracked = state.contains_key(&log.address);
        if is_tracked && !contains_address(&self.updated_amms, &log.address) {
            self.updated_amms.push(log.address);
        }
        Ok(is_tracked)
    }

    /// Takes back an AMM synced with the last log: it replaces the AMM of
    /// its address in the state, and the AMM it replaces is kept as the
    /// block's snapshot.
    pub fn on_synced(&mut self, state: &mut StateSpace, synced: Amm)
        ensures
            on_synced_step(*old(self), old(state)@, synced, *final(self), final(state)@),
    {
        if let Some(previous) = state.insert(synced) {
            self.state_changes.push(previous);
        }
    }

    /// The addresses of the AMMs of the state that the batch touched.
    pub fn finish(self) -> (r: Vec<Address>)
        ensures
            r == self.updated_amms,
    {
        self.updated_amms
    }
}

/// Whether the address is among the addresses.
pub fn contains_address(addresses: &Vec<Address>, address: &Address) -> (r: bool)
    ensures
        r == addresses@.contains(*address),
{
    let mut i: usize = 0;
    while i < addresses.len()
        invariant
            0 <= i <= addresses@.len(),
            forall|j: int| 0 <= j < i ==> addresses@[j] != *address,
        decreases addresses@.len() - i,
    {
        if crate::amm::address_eq(&addresses[i], address) {
            assert(addresses@[i as int] == *address);
            return true;
        }
        i = i + 1;
    }
    false
}

/// Handles a new chain head, as a listener does for each new block: when
/// the head is at or before the last synced block, the chain has
/// reorganised, so the state is unwound to the head and the head becomes
/// the last synced block; otherwise nothing changes. Returns the last synced
/// block.
pub fn handle_chain_head(
    state: &mut StateSpace,
    state_change_cache: &mut StateChangeCache,
    last_synced_block: u64,
    chain_head_block_number: u64,
) -> (r: Result<u64, StateChangeError>)
    ensures
        chain_head_block_number <= last_synced_block ==> exists|u: Result<(), StateChangeError>|
            {
                &&& unwound(
                    old(state)@,
                    old(state_change_cache)@,
                    chain_head_block_number,
                    final(state)@,
                    final(state_change_cache)@,
                    u,
                )
                &&& match u {
                    Ok(_) => r == Ok::<u64, StateChangeError>(chain_head_block_number),
                    Err(e) => r == Err::<u64, StateChangeError>(e),
                }
            },
        chain_head_block_number > last_synced_block ==> {
            &&& r == Ok::<u64, StateChangeError>(last_synced_block)
            &&& final(state)@ == old(state)@
            &&& final(state_change_cache)@ == old(state_change_cache)@
        },
{
    if chain_head_block_number <= last_synced_block {
        let unwind = unwind_state_changes(state, state_change_cache, chain_head_block_number);
        match unwind {
            Ok(()) => Ok(chain_head_block_number),
            Err(e) => Err(e),
        }
    } else {
        Ok(last_synced_block)
    }
}

/// The cache after an empty state change is added for each block from
/// `from` up to, not including, `to`, in increasing order.
pub open spec fn cache_after_empty_blocks(changes: Seq<StateChange>, from: u64, to: u64) -> Seq<
    StateChange,
>
    decreases to - from,
{
    if from >= to {
        changes
    } else {
        cache_after_empty_blocks(
            cache_after_add(changes, StateChange { state_change: None, block_number: from }),
            (from + 1) as u64,
            to,
        )
    }
}

/// Handles a block range in which no log came, as a listener does: an empty
/// state change is added for each block from the last synced block up to,
/// not including, the chain head, and the chain head becomes the last synced
/// block, which is returned.
pub fn record_blocks_without_logs(
    state_change_cache: &mut StateChangeCache,
    last_synced_block: u64,
    chain_head_block_number: u64,
) -> (r: Result<u64, StateChangeError>)
    ensures
        r == Ok::<u64, StateChangeError>(chain_head_block_number),
        final(state_change_cache)@ == cache_after_empty_blocks(
            old(state_change_cache)@,
            last_synced_block,
            chain_head_block_number,
        ),
{
    let ghost start = state_change_cache@;
    let mut block_number = last_synced_block;
    while block_number < chain_head_block_number
        invariant
            last_synced_block <= block_number || chain_head_block_number <= last_synced_block,
            cache_after_empty_blocks(state_change_cache@, block_number, chain_head_block_number)
                == cache_after_empty_blocks(start, last_synced_block, chain_head_block_number),
        decreases chain_head_block_number - block_number,
    {
        if let Err(e) = add_state_change_to_cache(
            state_change_cache,
            StateChange::new(None, block_number),
        ) {
            return Err(e);
        }
        block_number = block_number + 1;
    }
    Ok(chain_head_block_number)
}

/// Handles the logs fetched for the blocks from the last synced block up to
/// the chain head, as a listener does. Either way the chain head becomes the
/// last synced block, which is returned. When no log came, an empty state
/// change is recorded for each block before the head; otherwise the cache is
/// left as it is and a batch is started for the logs.
pub fn handle_fetched_logs(
    state_change_cache: &mut StateChangeCache,
    last_synced_block: u64,
    chain_head_block_number: u64,
    has_logs: bool,
) -> (r: Result<(u64, Option<LogBatch>), StateChangeError>)
    ensures
        match r {
            Ok((synced_to, batch)) => {
                &&& synced_to == chain_head_block_number
                &&& !has_logs ==> {
                    &&& batch is None
                    &&& final(state_change_cache)@ == cache_after_empty_blocks(
                        old(state_change_cache)@,
                        last_synced_block,
                        chain_head_block_number,
                    )
                }
                &&& has_logs ==> {
                    &&& batch matches Some(b) && b.last_log_block_number is None
                        && b.state_changes@ == Seq::<Amm>::empty() && b.updated_amms@
                        == Seq::<Address>::empty()
                    &&& final(state_change_cache)@ == old(state_change_cache)@
                }
            },
            Err(_) => false,
        },
{
    if !has_logs {
        match record_blocks_without_logs(
            state_change_cache,
            last_synced_block,
            chain_head_block_number,
        ) {
            Ok(synced_to) => Ok((synced_to, None)),
            Err(e) => Err(e),
        }
    } else {
        Ok((chain_head_block_number, Some(LogBatch::new())))
    }
}

#[verifier::external_type_specification]
#[verifier::external_body]
pub struct ExFilter(Filter);

/// The first AMM of each variant in the sequence, in the order of the
/// sequence.
pub open spec fn variant_representatives(amms: Seq<Amm>) -> Seq<Amm>
    decreases amms.len(),
{
    if amms.len() == 0 {
        Seq::empty()
    } else {
        let earlier = variant_representatives(amms.drop_last());
        if exists|i: int| 0 <= i < earlier.len() && #[trigger] earlier[i].variant == amms.last().variant {
            earlier
        } else {
            earlier.push(amms.last())
        }
    }
}

/// The addresses of the AMMs whose event signatures the block filter asks
/// for: the first AMM of each variant, in the order the state holds them.
pub fn event_signature_sources(state: &StateSpace) -> (r: Vec<Address>)
    ensures
        r@ == variant_representatives(state.entries()).map_values(|amm: Amm| amm.address),
{
    let amms = state.amms();
    let ghost all = amms@;
    let mut variants: Vec<crate::amm::AmmVariant> = Vec::new();
    let mut sources: Vec<Address> = Vec::new();
    let mut i: usize = 0;
    while i < amms.len()
        invariant
            all == amms@,
            all == state.entries(),
            0 <= i <= all.len(),
            variants@ == variant_representatives(all.take(i as int)).map_values(
                |amm: Amm| amm.variant,
            ),
            sources@ == variant_representatives(all.take(i as int)).map_values(
                |amm: Amm| amm.address,
            ),
        decreases all.len() - i,
    {
        let amm = &amms[i];
        let ghost earlier = variant_representatives(all.take(i as int));
        proof {
            assert(all.take(i + 1).drop_last() =~= all.take(i as int));
            assert(all.take(i + 1).last() == all[i as int]);
        }
        let mut seen = false;
        let mut j: usize = 0;
        while j < variants.len()
            invariant
                0 <= j <= variants@.len(),
                variants@.len() == earlier.len(),
                forall|k: int| 0 <= k < variants@.len() ==> variants@[k] == #[trigger] earlier[k].variant,
                seen == exists|k: int| 0 <= k < j && #[trigger] earlier[k].variant == amm.variant,
            decreases variants@.len() - j,
        {
            if variants[j] == amm.variant {
                seen = true;
            }
            assert(variants@[j as int] == earlier[j as int].variant);
            j = j + 1;
        }
        if !seen {
            variants.push(amm.variant);
            sources.push(amm.address);
        }
        proof {
            assert(variants@ =~= variant_representatives(all.take(i + 1)).map_values(
                |amm: Amm| amm.variant,
            ));
            assert(sources@ =~= variant_representatives(all.take(i + 1)).map_values(
                |amm: Amm| amm.address,
            ));
        }
        i = i + 1;
    }
    assert(all.take(all.len() as int) =~= all);
    sources
}

/// The event signatures of the sources, one list per source, joined in
/// order.
pub open spec fn joined_signatures(signatures: Seq<Seq<[u8; 32]>>) -> Seq<[u8; 32]>
    decreases signatures.len(),
{
    if signatures.len() == 0 {
        Seq::empty()
    } else {
        joined_signatures(signatures.drop_last()) + signatures.last()
    }
}

/// Joins the event signatures of the sources into the filter's topic list.
pub fn block_filter_topics(event_signatures: &Vec<Vec<[u8; 32]>>) -> (r: Vec<[u8; 32]>)
    ensures
        r@ == joined_signatures(event_signatures@.map_values(|s: Vec<[u8; 32]>| s@)),
{
    let ghost all = event_signatures@.map_values(|s: Vec<[u8; 32]>| s@);
    let mut topics: Vec<[u8; 32]> = Vec::new();
    let mut i: usize = 0;
    while i < event_signatures.len()
        invariant
            all == event_signatures@.map_values(|s: Vec<[u8; 32]>| s@),
            0 <= i <= all.len(),
            topics@ == joined_signatures(all.take(i as int)),
        decreases all.len() - i,
    {
        let signatures = &event_signatures[i];
        let ghost before = topics@;
        let mut j: usize = 0;
        while j < signatures.len()
            invariant
                0 <= j <= signatures@.len(),
                topics@ == before + signatures@.take(j as int),
            decreases signatures@.len() - j,
        {
            topics.push(signatures[j]);
            assert(signatures@.take(j + 1) =~= signatures@.take(j as int).push(signatures@[j as int]));
            j = j + 1;
        }
        proof {
            assert(all.take(i + 1).drop_last() =~= all.take(i as int));
            assert(signatures@.take(signatures@.len() as int) =~= signatures@);
        }
        i = i + 1;
    }
    assert(all.take(all.len() as int) =~= all);
    topics
}

/// The log filter that `Filter::new().topic0(..)` builds from the event
/// signatures: one that matches logs whose first topic is one of them.
pub uninterp spec fn topic0_filter(topics: Seq<[u8; 32]>) -> Filter;

/// `Filter::new().topic0(..)`: a log filter that matches logs whose first
/// topic is one of the given event signatures. The filter depends on the
/// signatures alone (`new` starts from the default filter, `topic0` sets the
/// first topic); beyond that, nothing is stated of it.
#[verifier::external_body]
fn filter_with_topic0(topics: Vec<[u8; 32]>) -> (r: Filter)
    ensures
        r == topic0_filter(topics@),
{
    Filter::new().topic0(topics)
}

/// The filter for the logs that change the AMMs of the state: logs whose
/// first topic is an event signature of one of the sources that
/// `event_signature_sources` names, given here one list per source.
pub fn get_block_filter(event_signatures: &Vec<Vec<[u8; 32]>>) -> (r: Filter)
    ensures
        r == topic0_filter(joined_signatures(event_signatures@.map_values(|s: Vec<[u8; 32]>| s@))),
{
    let topics = block_filter_topics(event_signatures);
    filter_with_topic0(topics)
}

} // verus!
