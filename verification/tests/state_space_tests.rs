use state_space::amm::{address_eq, Address, Amm, AmmVariant};
use state_space::cache::{StateChangeCache, STATE_CHANGE_CACHE_CAPACITY};
use state_space::error::{EventLogError, StateChangeError};
use state_space::space::StateSpace;
use state_space::state::{
    add_state_change_to_cache, block_filter_topics, contains_address, event_signature_sources,
    get_block_filter, get_block_number_from_log, handle_chain_head, record_blocks_without_logs,
    unwind_state_changes, Log, LogBatch,
};
use state_space::state_change::StateChange;
use state_space::state_space_manager::StateSpaceManager;

fn addr(n: u8) -> Address {
    let mut a = [0u8; 20];
    a[19] = n;
    a
}

fn amm(n: u8, variant: AmmVariant, pool: u8) -> Amm {
    Amm::new(addr(n), variant, vec![pool])
}

fn pool_of(state: &StateSpace, n: u8) -> Option<Vec<u8>> {
    state.get(&addr(n)).map(|a| a.pool.clone())
}

fn log(n: u8, block: Option<u64>) -> Log {
    Log { address: addr(n), block_number: block }
}

fn cache_with(changes: Vec<StateChange>) -> StateChangeCache {
    // `changes` oldest first; each is pushed to the front.
    let mut cache = StateChangeCache::new();
    for c in changes {
        add_state_change_to_cache(&mut cache, c).unwrap();
    }
    cache
}

#[test]
fn address_eq_compares_all_bytes() {
    assert!(address_eq(&addr(1), &addr(1)));
    assert!(!address_eq(&addr(1), &addr(2)));
    let mut a = addr(1);
    a[0] = 9;
    assert!(!address_eq(&a, &addr(1)));
}

#[test]
fn amm_accessors() {
    let a = amm(3, AmmVariant::UniswapV3Pool, 7);
    assert_eq!(a.address(), addr(3));
    assert_eq!(a.variant(), AmmVariant::UniswapV3Pool);
    assert_eq!(a.pool, vec![7]);
}

#[test]
fn state_space_insert_and_get() {
    let mut state = StateSpace::new();
    assert!(!state.contains_key(&addr(1)));
    assert!(state.insert(amm(1, AmmVariant::UniswapV2Pool, 10)).is_none());
    assert!(state.insert(amm(2, AmmVariant::UniswapV2Pool, 20)).is_none());
    assert!(state.contains_key(&addr(1)));
    assert_eq!(pool_of(&state, 2), Some(vec![20]));
    let previous = state.insert(amm(1, AmmVariant::UniswapV2Pool, 11)).unwrap();
    assert_eq!(previous.pool, vec![10]);
    assert_eq!(pool_of(&state, 1), Some(vec![11]));
    assert_eq!(state.amms().len(), 2);
    assert!(state.get(&addr(3)).is_none());
}

#[test]
fn initialize_state_keeps_last_amm_of_each_address() {
    let state = StateSpaceManager::initialize_state(vec![
        amm(1, AmmVariant::UniswapV2Pool, 1),
        amm(2, AmmVariant::UniswapV3Pool, 2),
        amm(1, AmmVariant::UniswapV2Pool, 3),
    ]);
    assert_eq!(state.amms().len(), 2);
    assert_eq!(pool_of(&state, 1), Some(vec![3]));
    assert_eq!(pool_of(&state, 2), Some(vec![2]));
}

#[test]
fn initialize_state_of_nothing_is_empty() {
    let state = StateSpaceManager::initialize_state(vec![]);
    assert_eq!(state.amms().len(), 0);
}

#[test]
fn manager_new_starts_with_empty_cache() {
    let manager = StateSpaceManager::new(StateSpace::new(), 42);
    assert_eq!(manager.last_synced_block, 42);
    assert_eq!(manager.state_changes_cache.len(), 0);
}

#[test]
fn block_number_from_log() {
    assert_eq!(get_block_number_from_log(&log(1, Some(17))), Ok(17));
    assert_eq!(
        get_block_number_from_log(&log(1, None)),
        Err(EventLogError::LogBlockNumberNotFound)
    );
}

#[test]
fn add_puts_newest_first() {
    let cache = cache_with(vec![StateChange::new(None, 1), StateChange::new(None, 2)]);
    assert_eq!(cache.block_numbers(), vec![2, 1]);
    assert_eq!(cache.state_change(0).unwrap().block_number, 2);
    assert!(cache.state_change(2).is_none());
}

#[test]
fn add_to_full_cache_evicts_oldest() {
    let mut cache = StateChangeCache::new();
    for b in 0..STATE_CHANGE_CACHE_CAPACITY as u64 {
        add_state_change_to_cache(&mut cache, StateChange::new(None, b)).unwrap();
    }
    assert_eq!(cache.len(), 150);
    assert_eq!(add_state_change_to_cache(&mut cache, StateChange::new(None, 1000)), Ok(()));
    assert_eq!(cache.len(), 150);
    let blocks = cache.block_numbers();
    assert_eq!(blocks[0], 1000);
    assert_eq!(blocks[1], 149);
    assert_eq!(blocks[149], 1);
    assert!(!blocks.contains(&0));
}

#[test]
fn unwind_restores_snapshots_of_unwound_blocks() {
    let mut state = StateSpace::new();
    state.insert(amm(1, AmmVariant::UniswapV2Pool, 30));
    state.insert(amm(2, AmmVariant::UniswapV2Pool, 40));
    let mut cache = cache_with(vec![
        StateChange::new(None, 5),
        StateChange::new(Some(vec![amm(1, AmmVariant::UniswapV2Pool, 10)]), 9),
        StateChange::new(Some(vec![amm(1, AmmVariant::UniswapV2Pool, 20), amm(2, AmmVariant::UniswapV2Pool, 21)]), 10),
    ]);
    assert_eq!(unwind_state_changes(&mut state, &mut cache, 9), Ok(()));
    // block 10 first, then block 9: the older snapshot wins for address 1
    assert_eq!(pool_of(&state, 1), Some(vec![10]));
    assert_eq!(pool_of(&state, 2), Some(vec![21]));
    assert_eq!(cache.block_numbers(), vec![5]);
}

#[test]
fn unwind_to_block_after_newest_change_changes_nothing() {
    let mut state = StateSpace::new();
    state.insert(amm(1, AmmVariant::UniswapV2Pool, 30));
    let mut cache = cache_with(vec![StateChange::new(Some(vec![amm(1, AmmVariant::UniswapV2Pool, 1)]), 5)]);
    assert_eq!(unwind_state_changes(&mut state, &mut cache, 6), Ok(()));
    assert_eq!(pool_of(&state, 1), Some(vec![30]));
    assert_eq!(cache.block_numbers(), vec![5]);
}

#[test]
fn unwind_past_every_change_fails() {
    let mut state = StateSpace::new();
    state.insert(amm(1, AmmVariant::UniswapV2Pool, 30));
    let mut cache = cache_with(vec![StateChange::new(Some(vec![amm(1, AmmVariant::UniswapV2Pool, 1)]), 100)]);
    assert_eq!(
        unwind_state_changes(&mut state, &mut cache, 95),
        Err(StateChangeError::NoStateChangesInCache)
    );
    assert_eq!(cache.len(), 0);
    assert_eq!(pool_of(&state, 1), Some(vec![1]));
}

#[test]
fn unwind_of_empty_cache_fails() {
    let mut state = StateSpace::new();
    let mut cache = StateChangeCache::new();
    assert_eq!(
        unwind_state_changes(&mut state, &mut cache, 0),
        Err(StateChangeError::NoStateChangesInCache)
    );
}

#[test]
fn unwind_puts_back_unknown_addresses_too() {
    let mut state = StateSpace::new();
    let mut cache = cache_with(vec![
        StateChange::new(None, 1),
        StateChange::new(Some(vec![amm(7, AmmVariant::ERC4626Vault, 2)]), 3),
    ]);
    assert_eq!(unwind_state_changes(&mut state, &mut cache, 2), Ok(()));
    assert_eq!(pool_of(&state, 7), Some(vec![2]));
}

/// Runs the logs through a batch as a listener does, syncing a tracked AMM
/// by appending the log's block number to its pool state.
fn run_batch(state: &mut StateSpace, cache: &mut StateChangeCache, logs: &[Log]) -> Result<Vec<Address>, StateChangeError> {
    let mut batch = LogBatch::new();
    for l in logs {
        if batch.on_log(state, cache, l)? {
            let current = state.get(&l.address).unwrap();
            let mut pool = current.pool.clone();
            pool.push(l.block_number.unwrap() as u8);
            let synced = Amm::new(current.address, current.variant, pool);
            batch.on_synced(state, synced);
        }
    }
    Ok(batch.finish())
}

#[test]
fn batch_commits_each_completed_block() {
    let mut state = StateSpace::new();
    state.insert(amm(1, AmmVariant::UniswapV2Pool, 0));
    state.insert(amm(2, AmmVariant::UniswapV2Pool, 0));
    let mut cache = cache_with(vec![StateChange::new(None, 9)]);
    let logs = vec![log(1, Some(10)), log(9, Some(10)), log(2, Some(11)), log(9, Some(12)), log(1, Some(13))];
    let updated = run_batch(&mut state, &mut cache, &logs).unwrap();
    assert_eq!(updated, vec![addr(1), addr(2)]);
    // blocks 10, 11 and 12 are committed; 13, the last, is not
    assert_eq!(cache.block_numbers(), vec![12, 11, 10, 9]);
    let c10 = cache.state_change(2).unwrap();
    let snaps10 = c10.state_change.as_ref().unwrap();
    assert_eq!(snaps10.len(), 1);
    assert_eq!(snaps10[0].address, addr(1));
    assert_eq!(snaps10[0].pool, vec![0]);
    let c11 = cache.state_change(1).unwrap();
    assert_eq!(c11.state_change.as_ref().unwrap()[0].pool, vec![0]);
    assert!(cache.state_change(0).unwrap().state_change.is_none());
    assert_eq!(pool_of(&state, 1), Some(vec![0, 10, 13]));
    assert_eq!(pool_of(&state, 2), Some(vec![0, 11]));
}

#[test]
fn batch_then_unwind_restores_state() {
    let mut state = StateSpace::new();
    state.insert(amm(1, AmmVariant::UniswapV2Pool, 0));
    state.insert(amm(2, AmmVariant::UniswapV3Pool, 0));
    let mut cache = cache_with(vec![StateChange::new(None, 9)]);
    let logs = vec![log(1, Some(10)), log(2, Some(10)), log(2, Some(11)), log(3, Some(12))];
    run_batch(&mut state, &mut cache, &logs).unwrap();
    assert_eq!(cache.block_numbers(), vec![11, 10, 9]);
    assert_eq!(unwind_state_changes(&mut state, &mut cache, 10), Ok(()));
    assert_eq!(pool_of(&state, 1), Some(vec![0]));
    assert_eq!(pool_of(&state, 2), Some(vec![0]));
    assert_eq!(cache.block_numbers(), vec![9]);
}

#[test]
fn batch_reports_each_address_once() {
    let mut state = StateSpace::new();
    state.insert(amm(1, AmmVariant::UniswapV2Pool, 0));
    let mut cache = StateChangeCache::new();
    let logs = vec![log(1, Some(1)), log(1, Some(1)), log(1, Some(2))];
    let updated = run_batch(&mut state, &mut cache, &logs).unwrap();
    assert_eq!(updated, vec![addr(1)]);
    // both snapshots of block 1 are kept, in log order
    let c1 = cache.state_change(0).unwrap();
    let snaps = c1.state_change.as_ref().unwrap();
    assert_eq!(snaps.len(), 2);
    assert_eq!(snaps[0].pool, vec![0]);
    assert_eq!(snaps[1].pool, vec![0, 1]);
}

#[test]
fn batch_of_no_logs_reports_nothing() {
    let mut state = StateSpace::new();
    let mut cache = StateChangeCache::new();
    assert_eq!(run_batch(&mut state, &mut cache, &[]).unwrap(), Vec::<Address>::new());
    assert_eq!(cache.len(), 0);
}

#[test]
fn batch_refuses_log_without_block_number() {
    let mut state = StateSpace::new();
    state.insert(amm(1, AmmVariant::UniswapV2Pool, 0));
    let mut cache = StateChangeCache::new();
    let mut batch = LogBatch::new();
    assert_eq!(
        batch.on_log(&state, &mut cache, &log(1, None)),
        Err(StateChangeError::EventLogError(EventLogError::LogBlockNumberNotFound))
    );
    assert!(batch.last_log_block_number.is_none());
    assert_eq!(batch.on_log(&state, &mut cache, &log(1, Some(4))), Ok(true));
    assert_eq!(batch.on_log(&state, &mut cache, &log(2, Some(4))), Ok(false));
    assert_eq!(batch.last_log_block_number, Some(4));
}

#[test]
fn chain_head_after_last_synced_changes_nothing() {
    let mut state = StateSpace::new();
    let mut cache = cache_with(vec![StateChange::new(None, 5)]);
    assert_eq!(handle_chain_head(&mut state, &mut cache, 10, 11), Ok(10));
    assert_eq!(cache.block_numbers(), vec![5]);
}

#[test]
fn chain_head_reorg_unwinds() {
    let mut state = StateSpace::new();
    state.insert(amm(1, AmmVariant::UniswapV2Pool, 9));
    let mut cache = cache_with(vec![
        StateChange::new(None, 5),
        StateChange::new(Some(vec![amm(1, AmmVariant::UniswapV2Pool, 1)]), 8),
    ]);
    assert_eq!(handle_chain_head(&mut state, &mut cache, 10, 7), Ok(7));
    assert_eq!(pool_of(&state, 1), Some(vec![1]));
    assert_eq!(cache.block_numbers(), vec![5]);
}

#[test]
fn chain_head_reorg_past_cache_fails() {
    let mut state = StateSpace::new();
    let mut cache = cache_with(vec![StateChange::new(None, 100)]);
    assert_eq!(
        handle_chain_head(&mut state, &mut cache, 100, 95),
        Err(StateChangeError::NoStateChangesInCache)
    );
}

#[test]
fn blocks_without_logs_get_empty_changes() {
    let mut cache = StateChangeCache::new();
    assert_eq!(record_blocks_without_logs(&mut cache, 3, 6), Ok(6));
    assert_eq!(cache.block_numbers(), vec![5, 4, 3]);
    assert!(cache.state_change(0).unwrap().state_change.is_none());
    assert_eq!(record_blocks_without_logs(&mut cache, 6, 6), Ok(6));
    assert_eq!(cache.len(), 3);
}

#[test]
fn event_signature_sources_one_per_variant() {
    let mut state = StateSpace::new();
    state.insert(amm(1, AmmVariant::UniswapV2Pool, 0));
    state.insert(amm(2, AmmVariant::UniswapV2Pool, 0));
    state.insert(amm(3, AmmVariant::ERC4626Vault, 0));
    state.insert(amm(4, AmmVariant::UniswapV3Pool, 0));
    state.insert(amm(5, AmmVariant::ERC4626Vault, 0));
    assert_eq!(event_signature_sources(&state), vec![addr(1), addr(3), addr(4)]);
    assert_eq!(event_signature_sources(&StateSpace::new()), Vec::<Address>::new());
}

#[test]
fn block_filter_topics_are_joined_in_order() {
    let sigs = vec![vec![[1u8; 32]], vec![], vec![[2u8; 32], [3u8; 32]]];
    assert_eq!(block_filter_topics(&sigs), vec![[1u8; 32], [2u8; 32], [3u8; 32]]);
    let _filter = get_block_filter(&sigs);
}

#[test]
fn contains_address_finds_listed() {
    let v = vec![addr(1), addr(2)];
    assert!(contains_address(&v, &addr(2)));
    assert!(!contains_address(&v, &addr(3)));
}

#[test]
fn error_messages() {
    assert_eq!(StateChangeError::NoStateChangesInCache.message(), "No state changes in cache");
    assert_eq!(StateChangeError::CapacityError.message(), "State change cache capacity error");
    assert_eq!(
        StateChangeError::EventLogError(EventLogError::LogBlockNumberNotFound).message(),
        "Event log error"
    );
    assert_eq!(StateChangeError::from(EventLogError::LogBlockNumberNotFound), StateChangeError::EventLogError(EventLogError::LogBlockNumberNotFound));
}

#[test]
fn unwind_undoes_add_to_full_cache() {
    let mut cache = StateChangeCache::new();
    for b in 0..STATE_CHANGE_CACHE_CAPACITY as u64 {
        add_state_change_to_cache(&mut cache, StateChange::new(None, b)).unwrap();
    }
    let mut state = StateSpace::new();
    state.insert(amm(1, AmmVariant::UniswapV2Pool, 5));
    add_state_change_to_cache(
        &mut cache,
        StateChange::new(Some(vec![amm(1, AmmVariant::UniswapV2Pool, 4)]), 500),
    )
    .unwrap();
    assert_eq!(unwind_state_changes(&mut state, &mut cache, 150), Ok(()));
    assert_eq!(pool_of(&state, 1), Some(vec![4]));
    assert_eq!(cache.len(), 149);
    assert_eq!(cache.block_numbers()[0], 149);
}

#[test]
fn two_logs_of_one_pool_in_a_block_restore_the_middle_value() {
    // The snapshots of a block are put back in log order, so the later one,
    // taken after the first sync, is what an unwind leaves.
    let mut state = StateSpace::new();
    state.insert(amm(1, AmmVariant::UniswapV2Pool, 0));
    let mut cache = cache_with(vec![StateChange::new(None, 9)]);
    let logs = vec![log(1, Some(10)), log(1, Some(10)), log(2, Some(11))];
    run_batch(&mut state, &mut cache, &logs).unwrap();
    assert_eq!(pool_of(&state, 1), Some(vec![0, 10, 10]));
    assert_eq!(unwind_state_changes(&mut state, &mut cache, 10), Ok(()));
    assert_eq!(pool_of(&state, 1), Some(vec![0, 10]));
}

#[test]
fn block_filter_matches_joined_signatures_as_first_topic() {
    let sigs = vec![vec![[1u8; 32]], vec![[2u8; 32], [3u8; 32]]];
    let filter = get_block_filter(&sigs);
    let expected = ethers::types::Filter::new().topic0(vec![[1u8; 32], [2u8; 32], [3u8; 32]]);
    assert_eq!(filter, expected);
    assert!(filter.topics[0].is_some());
    assert!(filter.topics[1].is_none());
    assert_ne!(filter, ethers::types::Filter::new());
}

#[test]
fn fetched_logs_without_logs_record_empty_blocks() {
    let mut cache = StateChangeCache::new();
    let (synced_to, batch) =
        state_space::state::handle_fetched_logs(&mut cache, 3, 5, false).unwrap();
    assert_eq!(synced_to, 5);
    assert!(batch.is_none());
    assert_eq!(cache.block_numbers(), vec![4, 3]);
}

#[test]
fn fetched_logs_with_logs_start_a_batch() {
    let mut cache = cache_with(vec![StateChange::new(None, 1)]);
    let (synced_to, batch) =
        state_space::state::handle_fetched_logs(&mut cache, 3, 5, true).unwrap();
    assert_eq!(synced_to, 5);
    let batch = batch.unwrap();
    assert!(batch.last_log_block_number.is_none());
    assert!(batch.state_changes.is_empty());
    assert!(batch.updated_amms.is_empty());
    assert_eq!(cache.block_numbers(), vec![1]);
}

#[test]
fn state_space_keeps_first_insertion_order() {
    let mut state = StateSpace::new();
    state.insert(amm(3, AmmVariant::UniswapV2Pool, 1));
    state.insert(amm(1, AmmVariant::UniswapV2Pool, 1));
    state.insert(amm(3, AmmVariant::UniswapV2Pool, 2));
    let order: Vec<Address> = state.amms().iter().map(|a| a.address).collect();
    assert_eq!(order, vec![addr(3), addr(1)]);
    assert_eq!(state.amms()[0].pool, vec![2]);
}

#[test]
fn many_adds_keep_newest_changes() {
    let mut cache = StateChangeCache::new();
    for b in 0..400u64 {
        add_state_change_to_cache(&mut cache, StateChange::new(None, b)).unwrap();
    }
    let blocks = cache.block_numbers();
    assert_eq!(blocks.len(), 150);
    for (k, b) in blocks.iter().enumerate() {
        assert_eq!(*b, 399 - k as u64);
    }
}

#[test]
fn same_variants_give_same_sources_count() {
    let mut one = StateSpace::new();
    one.insert(amm(1, AmmVariant::UniswapV2Pool, 0));
    one.insert(amm(2, AmmVariant::ERC4626Vault, 0));
    let mut other = StateSpace::new();
    other.insert(amm(5, AmmVariant::ERC4626Vault, 0));
    other.insert(amm(6, AmmVariant::UniswapV2Pool, 0));
    other.insert(amm(7, AmmVariant::UniswapV2Pool, 0));
    assert_eq!(event_signature_sources(&one).len(), event_signature_sources(&other).len());
    other.insert(amm(8, AmmVariant::ERC4626Vault, 0));
    assert_eq!(event_signature_sources(&other), vec![addr(5), addr(6)]);
}
