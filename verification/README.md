# state_space

Keeps the state of a set of automated market makers (AMMs) in step with a
chain, and rolls it back when the chain reorganises.

- `src/` is the verified library:
  - `amm.rs`: addresses and the AMM as the state space holds it;
  - `space.rs`: `StateSpace`, the map from address to AMM;
  - `state_change.rs`, `cache.rs`: per-block snapshots and the bounded cache
    (an `arraydeque::ArrayDeque` of 150) that holds them, newest first;
  - `state.rs`: adding and unwinding state changes, the steps by which a
    batch of logs is applied, the decisions a listener takes on each new
    chain head, and the block filter;
  - `state_space_manager.rs`: a state space with its last synced block and
    cache, and building a state space from a list of AMMs;
  - `laws.rs`: what holds across these operations: unwinding recorded
    blocks (changes that satisfy `records_block`) restores the earlier state,
    the cache keeps the newest 150 changes, and the filter topics depend only
    on which kinds of AMM the state holds;
  - `batch_laws.rs`: a batch of logs followed by an unwind to its first block
    restores the state, when block numbers never decrease and no address
    occurs twice in one block. A block that syncs one AMM twice is not
    restored to its value before the block, and the AMMs touched only in the
    batch's last block keep their synced value, as that block is not
    committed.
- `app/` drives the library from an asynchronous listener: it subscribes to
  blocks, fetches logs, syncs pools with `damms`, and sends what changed.
- `tests/` runs the library on concrete values.
