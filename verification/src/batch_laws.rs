use vstd::prelude::*;

use crate::amm::{Address, Amm};
use crate::cache::STATE_CHANGE_CACHE_CAPACITY;
use crate::laws::{
    law_commit_holds_pending, law_no_snapshots_record_no_change, law_sync_keeps_record,
    law_unwind_restores_history, records_block, records_snapshots, snapshots_of,
};
use crate::space::{holds_address, keyed_by_address};
use crate::state::{
    cache_after_add, insert_amms, lemma_changes_to_unwind, on_log_step, on_synced_step,
    pending_state_change, restore_state_changes, unwound, Log, LogBatch,
};
use crate::error::StateChangeError;
use crate::state_change::StateChange;

verus! {

/// The block number of a log (0 for a log without one).
pub open spec fn log_block(log: Log) -> u64 {
    match log.block_number {
        Some(b) => b,
        None => 0,
    }
}

/// How many times the block number changes from one log to the next among
/// the first `i` logs: the number of state changes a batch commits for them.
pub open spec fn block_changes(logs: Seq<Log>, i: int) -> nat
    decreases i,
{
    if i <= 1 {
        0
    } else {
        block_changes(logs, i - 1) + if log_block(logs[i - 1]) != log_block(logs[i - 2]) {
            1nat
        } else {
            0nat
        }
    }
}

/// Some state change of the sequence holds a snapshot of the address.
pub open spec fn covered(changes: Seq<StateChange>, a: Address) -> bool {
    exists|j: int| 0 <= j < changes.len() && holds_address(#[trigger] snapshots_of(changes[j]), a)
}

/// The `i`-th log of a batch, as a listener drives it: `on_log` takes the
/// batch from `batches[i]` to `mids[i]` and the cache from `caches[i]` to
/// `caches[i + 1]`; when the log belongs to an AMM of the state, the AMM is
/// synced and `on_synced` takes the batch on to `batches[i + 1]` and the
/// state from `states[i]` to `states[i + 1]`; otherwise both stay.
pub open spec fn run_step_at(
    states: Seq<Map<Address, Amm>>,
    caches: Seq<Seq<StateChange>>,
    batches: Seq<LogBatch>,
    mids: Seq<LogBatch>,
    logs: Seq<Log>,
    synced: Seq<Amm>,
    i: int,
) -> bool {
    let held = states[i].contains_key(logs[i].address);
    &&& on_log_step(
        batches[i],
        states[i],
        caches[i],
        logs[i],
        mids[i],
        caches[i + 1],
        Ok::<bool, StateChangeError>(held),
    )
    &&& if held {
        on_synced_step(mids[i], states[i], synced[i], batches[i + 1], states[i + 1])
    } else {
        batches[i + 1] == mids[i] && states[i + 1] == states[i]
    }
}

/// A run of a fresh batch over the logs, step by step as `run_step_at` says.
pub open spec fn batch_run(
    states: Seq<Map<Address, Amm>>,
    caches: Seq<Seq<StateChange>>,
    batches: Seq<LogBatch>,
    mids: Seq<LogBatch>,
    logs: Seq<Log>,
    synced: Seq<Amm>,
) -> bool {
    &&& states.len() == logs.len() + 1
    &&& caches.len() == logs.len() + 1
    &&& batches.len() == logs.len() + 1
    &&& mids.len() == logs.len()
    &&& synced.len() == logs.len()
    &&& batches[0].last_log_block_number is None
    &&& batches[0].state_changes@ == Seq::<Amm>::empty()
    &&& forall|i: int|
        0 <= i < logs.len() ==> #[trigger] run_step_at(states, caches, batches, mids, logs, synced, i)
}

/// What holds after the first `i` logs of a run: `hist` holds the state at
/// the start of each committed block and of the current one, `fresh` the
/// changes committed so far, newest first, each recording its block; the
/// pending snapshots record the current block so far and hold exactly the
/// AMMs of its logs; every AMM of an earlier block is covered by `fresh`.
pub open spec fn run_inv(
    states: Seq<Map<Address, Amm>>,
    caches: Seq<Seq<StateChange>>,
    batches: Seq<LogBatch>,
    logs: Seq<Log>,
    i: int,
    hist: Seq<Map<Address, Amm>>,
    fresh: Seq<StateChange>,
) -> bool {
    let s0 = states[0];
    let pending = batches[i].state_changes@;
    &&& 0 <= i <= logs.len()
    &&& keyed_by_address(states[i])
    &&& states[i].dom() == s0.dom()
    &&& hist.len() == fresh.len() + 1
    &&& hist[0] == s0
    &&& keyed_by_address(hist.last())
    &&& forall|j: int|
        0 <= j < fresh.len() ==> records_block(
            hist[hist.len() - 2 - j],
            hist[hist.len() - 1 - j],
            #[trigger] fresh[j],
        )
    &&& forall|j: int|
        0 <= j < fresh.len() ==> #[trigger] fresh[j].block_number >= log_block(logs[0])
    &&& caches[i] == fresh + caches[0]
    &&& fresh.len() == block_changes(logs, i)
    &&& records_snapshots(hist.last(), states[i], pending)
    &&& i == 0 ==> batches[0].last_log_block_number is None && pending == Seq::<Amm>::empty()
    &&& i > 0 ==> batches[i].last_log_block_number == Some(log_block(logs[i - 1]))
    &&& i > 0 ==> forall|a: Address|
        #[trigger] holds_address(pending, a) ==> exists|j: int|
            0 <= j < i && #[trigger] logs[j].address == a && log_block(logs[j]) == log_block(
                logs[i - 1],
            )
    &&& i > 0 ==> forall|j: int|
        0 <= j < i && log_block(#[trigger] logs[j]) == log_block(logs[i - 1]) && s0.contains_key(
            logs[j].address,
        ) ==> holds_address(pending, logs[j].address)
    &&& i > 0 ==> forall|j: int|
        0 <= j < i && log_block(#[trigger] logs[j]) != log_block(logs[i - 1]) && s0.contains_key(
            logs[j].address,
        ) ==> covered(fresh, logs[j].address)
}

proof fn lemma_block_changes_monotone(logs: Seq<Log>, i: int, j: int)
    requires
        i <= j,
    ensures
        block_changes(logs, i) <= block_changes(logs, j),
    decreases j - i,
{
    if i < j {
        lemma_block_changes_monotone(logs, i, j - 1);
    }
}

/// The run conditions under which `run_inv` carries from log to log.
pub open spec fn run_conditions(
    states: Seq<Map<Address, Amm>>,
    caches: Seq<Seq<StateChange>>,
    batches: Seq<LogBatch>,
    mids: Seq<LogBatch>,
    logs: Seq<Log>,
    synced: Seq<Amm>,
) -> bool {
    &&& batch_run(states, caches, batches, mids, logs, synced)
    &&& forall|i: int| 0 <= i < logs.len() ==> (#[trigger] logs[i]).block_number is Some
    &&& forall|i: int, j: int|
        0 <= i <= j < logs.len() ==> log_block(#[trigger] logs[i]) <= log_block(#[trigger] logs[j])
    &&& forall|i: int, j: int|
        0 <= i < logs.len() && 0 <= j < logs.len() && i != j && log_block(#[trigger] logs[i])
            == log_block(#[trigger] logs[j]) ==> logs[i].address != logs[j].address
    &&& forall|i: int| 0 <= i < logs.len() ==> (#[trigger] synced[i]).address == logs[i].address
    &&& keyed_by_address(states[0])
    &&& caches[0].len() + block_changes(logs, logs.len() as int) <= STATE_CHANGE_CACHE_CAPACITY
}

proof fn lemma_run_inv(
    states: Seq<Map<Address, Amm>>,
    caches: Seq<Seq<StateChange>>,
    batches: Seq<LogBatch>,
    mids: Seq<LogBatch>,
    logs: Seq<Log>,
    synced: Seq<Amm>,
    i: int,
) -> (r: (Seq<Map<Address, Amm>>, Seq<StateChange>))
    requires
        run_conditions(states, caches, batches, mids, logs, synced),
        0 <= i <= logs.len(),
    ensures
        run_inv(states, caches, batches, logs, i, r.0, r.1),
    decreases i,
{
    let s0 = states[0];
    if i == 0 {
        let hist = seq![s0];
        let fresh = Seq::<StateChange>::empty();
        assert(caches[0] =~= fresh + caches[0]);
        law_no_snapshots_record_no_change(s0);
        assert(batches[0].state_changes@ =~= Seq::<Amm>::empty());
        (hist, fresh)
    } else {
        let (hist, fresh) = lemma_run_inv(states, caches, batches, mids, logs, synced, i - 1);
        let k = i - 1;
        assert(run_step_at(states, caches, batches, mids, logs, synced, k));
        let log = logs[k];
        let bn = log_block(log);
        assert(log.block_number is Some);
        let pre = batches[k];
        let mid = mids[k];
        let pending = pre.state_changes@;
        let held = states[k].contains_key(log.address);
        let commit = k > 0 && bn != log_block(logs[k - 1]);
        let last = if k == 0 {
            bn
        } else {
            log_block(logs[k - 1])
        };
        assert(pre.last_log_block_number == if k == 0 {
            None
        } else {
            Some(last)
        });
        assert(mid.last_log_block_number == Some(bn));
        // block count and cache length
        assert(block_changes(logs, i) == block_changes(logs, k) + if commit {
            1nat
        } else {
            0nat
        });
        lemma_block_changes_monotone(logs, i, logs.len() as int);
        let (hist2, fresh2) = if commit {
            let c = pending_state_change(pre.state_changes, last);
            law_commit_holds_pending(pre.state_changes, last);
            assert(caches[k].len() == fresh.len() + caches[0].len());
            assert(caches[k].len() != STATE_CHANGE_CACHE_CAPACITY);
            assert(caches[i] == cache_after_add(caches[k], c));
            let fresh2 = seq![c] + fresh;
            let hist2 = hist.push(states[k]);
            assert(caches[i] =~= fresh2 + caches[0]);
            assert forall|j: int| 0 <= j < fresh2.len() implies records_block(
                hist2[hist2.len() - 2 - j],
                hist2[hist2.len() - 1 - j],
                #[trigger] fresh2[j],
            ) by {
                if j == 0 {
                    assert(fresh2[0] == c);
                } else {
                    assert(fresh2[j] == fresh[j - 1]);
                    assert(hist2[hist2.len() - 2 - j] == hist[hist.len() - 2 - (j - 1)]);
                    assert(hist2[hist2.len() - 1 - j] == hist[hist.len() - 1 - (j - 1)]);
                }
            }
            assert forall|j: int| 0 <= j < fresh2.len() implies #[trigger] fresh2[j].block_number
                >= log_block(logs[0]) by {
                if j == 0 {
                    assert(log_block(logs[0]) <= log_block(logs[k - 1]));
                } else {
                    assert(fresh2[j] == fresh[j - 1]);
                }
            }
            assert forall|j: int|
                0 <= j < k && log_block(#[trigger] logs[j]) != bn && s0.contains_key(
                    logs[j].address,
                ) implies covered(fresh2, logs[j].address) by {
                if log_block(logs[j]) == log_block(logs[k - 1]) {
                    assert(holds_address(pending, logs[j].address));
                    assert(snapshots_of(fresh2[0]) == pending);
                } else {
                    let t = choose|t: int|
                        0 <= t < fresh.len() && holds_address(
                            #[trigger] snapshots_of(fresh[t]),
                            logs[j].address,
                        );
                    assert(fresh2[t + 1] == fresh[t]);
                }
            }
            law_no_snapshots_record_no_change(states[k]);
            (hist2, fresh2)
        } else {
            assert(caches[i] == caches[k]);
            assert(mid.state_changes == pre.state_changes);
            (hist, fresh)
        };
        let mpending = mid.state_changes@;
        assert(records_snapshots(hist2.last(), states[k], mpending));
        assert(keyed_by_address(hist2.last()));
        // provenance of the pending snapshots before the sync
        assert(forall|a: Address|
            #[trigger] holds_address(mpending, a) ==> exists|j: int|
                0 <= j < k && #[trigger] logs[j].address == a && log_block(logs[j]) == bn);
        if held {
            let a = log.address;
            let x = synced[k];
            assert(x.address == a);
            assert(!holds_address(mpending, a)) by {
                if holds_address(mpending, a) {
                    let j = choose|j: int|
                        0 <= j < k && #[trigger] logs[j].address == a && log_block(logs[j]) == bn;
                    assert(logs[j].address != logs[k].address);
                }
            }
            law_sync_keeps_record(hist2.last(), states[k], mpending, x);
            assert(states[i] == states[k].insert(a, x));
            assert(batches[i].state_changes@ == mpending.push(states[k][a]));
            assert(states[k][a].address == a);
            assert(states[i].dom() =~= s0.dom());
            assert forall|b: Address| #[trigger] holds_address(batches[i].state_changes@, b) implies exists|j: int|
                0 <= j < i && #[trigger] logs[j].address == b && log_block(logs[j]) == bn by {
                let p = batches[i].state_changes@;
                let t = choose|t: int| 0 <= t < p.len() && #[trigger] p[t].address == b;
                if t < mpending.len() {
                    assert(p[t] == mpending[t]);
                    assert(holds_address(mpending, b));
                } else {
                    assert(logs[k].address == b);
                }
            }
            assert forall|j: int|
                0 <= j < i && log_block(#[trigger] logs[j]) == bn && s0.contains_key(
                    logs[j].address,
                ) implies holds_address(batches[i].state_changes@, logs[j].address) by {
                let p = batches[i].state_changes@;
                if j == k {
                    assert(p[p.len() - 1].address == a);
                } else {
                    assert(log_block(logs[j]) <= log_block(logs[k - 1]));
                    assert(holds_address(pending, logs[j].address));
                    let t = choose|t: int| 0 <= t < pending.len() && #[trigger] pending[t].address == logs[j].address;
                    assert(p[t] == pending[t]);
                }
            }
        } else {
            assert(states[i] == states[k]);
            assert(batches[i] == mid);
            assert forall|j: int|
                0 <= j < i && log_block(#[trigger] logs[j]) == bn && s0.contains_key(
                    logs[j].address,
                ) implies holds_address(batches[i].state_changes@, logs[j].address) by {
                if j < k {
                    assert(log_block(logs[j]) <= log_block(logs[k - 1]));
                    assert(holds_address(pending, logs[j].address));
                }
            }
        }
        assert(forall|j: int|
            0 <= j < i && log_block(#[trigger] logs[j]) != bn && s0.contains_key(
                logs[j].address,
            ) ==> covered(fresh2, logs[j].address));
        (hist2, fresh2)
    }
}

/// Two states agree at an address: both hold it or neither does, and with
/// the same AMM.
pub open spec fn agree_at(s: Map<Address, Amm>, t: Map<Address, Amm>, a: Address) -> bool {
    &&& s.contains_key(a) == t.contains_key(a)
    &&& s.contains_key(a) ==> s[a] == t[a]
}

proof fn lemma_insert_amms_agree(
    s: Map<Address, Amm>,
    t: Map<Address, Amm>,
    amms: Seq<Amm>,
    a: Address,
)
    requires
        agree_at(s, t, a) || holds_address(amms, a),
    ensures
        agree_at(insert_amms(s, amms), insert_amms(t, amms), a),
    decreases amms.len(),
{
    if amms.len() > 0 {
        let rest = amms.drop_last();
        if amms.last().address != a {
            if holds_address(amms, a) {
                let i = choose|i: int| 0 <= i < amms.len() && #[trigger] amms[i].address == a;
                assert(i != amms.len() - 1);
                assert(rest[i] == amms[i]);
            }
            lemma_insert_amms_agree(s, t, rest, a);
        }
    }
}

proof fn lemma_restore_agree(
    s: Map<Address, Amm>,
    t: Map<Address, Amm>,
    changes: Seq<StateChange>,
    a: Address,
)
    requires
        agree_at(s, t, a) || covered(changes, a),
    ensures
        agree_at(restore_state_changes(s, changes), restore_state_changes(t, changes), a),
    decreases changes.len(),
{
    if changes.len() > 0 {
        let rest = changes.drop_last();
        let last = changes.last();
        let s1 = restore_state_changes(s, rest);
        let t1 = restore_state_changes(t, rest);
        if agree_at(s, t, a) || covered(rest, a) {
            lemma_restore_agree(s, t, rest, a);
        } else {
            let j = choose|j: int|
                0 <= j < changes.len() && holds_address(#[trigger] snapshots_of(changes[j]), a);
            if j < changes.len() - 1 {
                assert(rest[j] == changes[j]);
                assert(covered(rest, a));
            }
            assert(holds_address(snapshots_of(last), a));
        }
        match last.state_change {
            Some(amms) => {
                lemma_insert_amms_agree(s1, t1, amms@, a);
            },
            None => {},
        }
    }
}

proof fn lemma_insert_amms_dom(s: Map<Address, Amm>, amms: Seq<Amm>, a: Address)
    ensures
        insert_amms(s, amms).contains_key(a) == (s.contains_key(a) || holds_address(amms, a)),
    decreases amms.len(),
{
    if amms.len() > 0 {
        let rest = amms.drop_last();
        lemma_insert_amms_dom(s, rest, a);
        if holds_address(rest, a) {
            let i = choose|i: int| 0 <= i < rest.len() && #[trigger] rest[i].address == a;
            assert(amms[i] == rest[i]);
        }
        if holds_address(amms, a) && amms.last().address != a {
            let i = choose|i: int| 0 <= i < amms.len() && #[trigger] amms[i].address == a;
            assert(rest[i] == amms[i]);
        }
        if amms.last().address == a {
            assert(amms[amms.len() - 1].address == a);
        }
    }
}

proof fn lemma_restore_dom(s: Map<Address, Amm>, changes: Seq<StateChange>, a: Address)
    ensures
        restore_state_changes(s, changes).contains_key(a) == (s.contains_key(a) || covered(
            changes,
            a,
        )),
    decreases changes.len(),
{
    if changes.len() > 0 {
        let rest = changes.drop_last();
        let last = changes.last();
        lemma_restore_dom(s, rest, a);
        match last.state_change {
            Some(amms) => {
                lemma_insert_amms_dom(restore_state_changes(s, rest), amms@, a);
            },
            None => {
                assert(snapshots_of(last) =~= Seq::<Amm>::empty());
                assert(!holds_address(snapshots_of(last), a));
            },
        }
        if holds_address(snapshots_of(last), a) {
            assert(changes[changes.len() - 1] == last);
            assert(covered(changes, a));
        }
        if covered(rest, a) {
            let j = choose|j: int|
                0 <= j < rest.len() && holds_address(#[trigger] snapshots_of(rest[j]), a);
            assert(changes[j] == rest[j]);
        }
        if covered(changes, a) {
            let j = choose|j: int|
                0 <= j < changes.len() && holds_address(#[trigger] snapshots_of(changes[j]), a);
            if j < changes.len() - 1 {
                assert(rest[j] == changes[j]);
            }
        }
    }
}

/// A batch followed by an unwind restores the state from before the batch.
/// Run a fresh batch over logs whose block numbers never decrease, in which
/// no address occurs twice in one block, syncing each AMM the logs touch (an
/// AMM keeps its address when synced), from a cache whose newest change is
/// older than the first log's block and which has room for every block the
/// batch commits. Unwinding to the first log's block then succeeds, leaves
/// the cache as it was before the batch, and gives back every AMM of the
/// state as it was before the batch, save the AMMs touched in the last block
/// only (whose block the batch does not commit), which keep their synced
/// value. The state holds the same addresses as before.
pub proof fn law_batch_then_unwind_restores_state(
    states: Seq<Map<Address, Amm>>,
    caches: Seq<Seq<StateChange>>,
    batches: Seq<LogBatch>,
    mids: Seq<LogBatch>,
    logs: Seq<Log>,
    synced: Seq<Amm>,
    new_state: Map<Address, Amm>,
    new_changes: Seq<StateChange>,
    r: Result<(), StateChangeError>,
)
    requires
        run_conditions(states, caches, batches, mids, logs, synced),
        logs.len() > 0,
        caches[0].len() > 0,
        caches[0][0].block_number < log_block(logs[0]),
        unwound(states.last(), caches.last(), log_block(logs[0]), new_state, new_changes, r),
    ensures
        r is Ok,
        new_changes == caches[0],
        new_state.dom() == states[0].dom(),
        forall|a: Address|
            states[0].contains_key(a) && ((exists|j: int|
                0 <= j < logs.len() && #[trigger] logs[j].address == a && log_block(logs[j])
                    < log_block(logs.last())) || !(exists|j: int|
                0 <= j < logs.len() && #[trigger] logs[j].address == a && log_block(logs[j])
                    == log_block(logs.last()))) ==> new_state[a] == states[0][a],
{
    let n = logs.len() as int;
    let (hist, fresh) = lemma_run_inv(states, caches, batches, mids, logs, synced, n);
    let s0 = states[0];
    let c0 = caches[0];
    let cn = caches[n];
    let m = fresh.len() as int;
    let b = log_block(logs[0]);
    assert forall|j: int| 0 <= j < m implies #[trigger] cn[j].block_number >= b by {
        assert(cn[j] == fresh[j]);
    }
    assert(cn[m] == c0[0]);
    lemma_changes_to_unwind(cn, b, m);
    assert(cn.take(m) =~= fresh);
    assert(cn.skip(m) =~= c0);
    law_unwind_restores_history(hist, fresh, m);
    assert(fresh.take(m) =~= fresh);
    let back = hist.last();
    let sn = states[n];
    let pending = batches[n].state_changes@;
    assert(restore_state_changes(back, fresh) == s0);
    assert(new_state == restore_state_changes(sn, fresh));
    assert forall|a: Address| #[trigger] new_state.contains_key(a) == s0.contains_key(a) by {
        lemma_restore_dom(sn, fresh, a);
        lemma_restore_dom(back, fresh, a);
    }
    assert(new_state.dom() =~= s0.dom());
    assert forall|a: Address|
        s0.contains_key(a) && ((exists|j: int|
            0 <= j < logs.len() && #[trigger] logs[j].address == a && log_block(logs[j])
                < log_block(logs.last())) || !(exists|j: int|
            0 <= j < logs.len() && #[trigger] logs[j].address == a && log_block(logs[j])
                == log_block(logs.last()))) implies new_state[a] == s0[a] by {
        assert(logs.last() == logs[n - 1]);
        if exists|j: int|
            0 <= j < logs.len() && #[trigger] logs[j].address == a && log_block(logs[j])
                < log_block(logs.last()) {
            let j = choose|j: int|
                0 <= j < logs.len() && #[trigger] logs[j].address == a && log_block(logs[j])
                    < log_block(logs.last());
            assert(log_block(logs[j]) != log_block(logs[n - 1]));
            assert(covered(fresh, logs[j].address));
            lemma_restore_agree(sn, back, fresh, a);
        } else {
            assert(!holds_address(pending, a));
            assert(back.contains_key(a));
            assert(agree_at(sn, back, a));
            lemma_restore_agree(sn, back, fresh, a);
        }
    }
}

/// `on_log` says of a log with a block number whether the state holds the
/// log's address, whatever logs came before it: a log of an AMM of the state
/// is always to be applied to that AMM. A log without a block number is
/// refused.
pub proof fn law_on_log_answers_whether_held(
    pre: LogBatch,
    state: Map<Address, Amm>,
    changes: Seq<StateChange>,
    log: Log,
    post: LogBatch,
    new_changes: Seq<StateChange>,
    r: Result<bool, StateChangeError>,
)
    requires
        on_log_step(pre, state, changes, log, post, new_changes, r),
    ensures
        log.block_number is Some ==> r == Ok::<bool, StateChangeError>(
            state.contains_key(log.address),
        ),
        log.block_number is None ==> r is Err,
{
}

/// The `i`-th log of a batch as a listener drives it, going by what `on_log`
/// answers: `on_log` takes the batch from `batches[i]` to `mids[i]` and the
/// cache from `caches[i]` to `caches[i + 1]`, answering `answers[i]`; when
/// it answers `Ok(true)`, the AMM is synced and `on_synced` takes the batch
/// on to `batches[i + 1]` and the state from `states[i]` to `states[i + 1]`;
/// otherwise both stay.
pub open spec fn driven_step_at(
    states: Seq<Map<Address, Amm>>,
    caches: Seq<Seq<StateChange>>,
    batches: Seq<LogBatch>,
    mids: Seq<LogBatch>,
    logs: Seq<Log>,
    synced: Seq<Amm>,
    answers: Seq<Result<bool, StateChangeError>>,
    i: int,
) -> bool {
    &&& on_log_step(batches[i], states[i], caches[i], logs[i], mids[i], caches[i + 1], answers[i])
    &&& if answers[i] == Ok::<bool, StateChangeError>(true) {
        on_synced_step(mids[i], states[i], synced[i], batches[i + 1], states[i + 1])
    } else {
        batches[i + 1] == mids[i] && states[i + 1] == states[i]
    }
}

/// A run of a fresh batch over logs that all have block numbers, driven by
/// what `on_log` answers.
pub open spec fn driven_run(
    states: Seq<Map<Address, Amm>>,
    caches: Seq<Seq<StateChange>>,
    batches: Seq<LogBatch>,
    mids: Seq<LogBatch>,
    logs: Seq<Log>,
    synced: Seq<Amm>,
    answers: Seq<Result<bool, StateChangeError>>,
) -> bool {
    &&& states.len() == logs.len() + 1
    &&& caches.len() == logs.len() + 1
    &&& batches.len() == logs.len() + 1
    &&& mids.len() == logs.len()
    &&& synced.len() == logs.len()
    &&& answers.len() == logs.len()
    &&& batches[0].updated_amms@ == Seq::<Address>::empty()
    &&& forall|i: int| 0 <= i < logs.len() ==> (#[trigger] logs[i]).block_number is Some
    &&& forall|i: int|
        0 <= i < logs.len() ==> #[trigger] driven_step_at(
            states,
            caches,
            batches,
            mids,
            logs,
            synced,
            answers,
            i,
        )
}

/// The `j`-th log of the run belongs to an AMM that the state held when the
/// log came.
pub open spec fn held_at(states: Seq<Map<Address, Amm>>, logs: Seq<Log>, j: int) -> bool {
    states[j].contains_key(logs[j].address)
}

/// The `j`-th log is among the first `i`, of the address `a`, and its AMM
/// was held by the state when it came.
pub open spec fn held_log_of(
    states: Seq<Map<Address, Amm>>,
    logs: Seq<Log>,
    a: Address,
    i: int,
    j: int,
) -> bool {
    0 <= j < i && logs[j].address == a && held_at(states, logs, j)
}

/// Among the first `i` logs, one of an AMM held at address `a` comes before
/// every one of an AMM held at address `b`.
pub open spec fn comes_first(
    states: Seq<Map<Address, Amm>>,
    logs: Seq<Log>,
    a: Address,
    b: Address,
    i: int,
) -> bool {
    exists|j1: int|
        #[trigger] held_log_of(states, logs, a, i, j1) && forall|j2: int|
            #[trigger] held_log_of(states, logs, b, i, j2) ==> j1 < j2
}

/// What the batch reports after the first `i` logs: each address once, the
/// addresses being those of the logs so far whose AMM the state held, in the
/// order in which such a log first came.
pub open spec fn reports_held_addresses(
    states: Seq<Map<Address, Amm>>,
    logs: Seq<Log>,
    updated: Seq<Address>,
    i: int,
) -> bool {
    &&& updated.no_duplicates()
    &&& forall|a: Address|
        #[trigger] updated.contains(a) <==> exists|j: int| #[trigger] held_log_of(states, logs, a, i, j)
    &&& forall|p: int, q: int|
        #![trigger updated[p], updated[q]]
        0 <= p < q < updated.len() ==> comes_first(states, logs, updated[p], updated[q], i)
}

proof fn lemma_driven_reports(
    states: Seq<Map<Address, Amm>>,
    caches: Seq<Seq<StateChange>>,
    batches: Seq<LogBatch>,
    mids: Seq<LogBatch>,
    logs: Seq<Log>,
    synced: Seq<Amm>,
    answers: Seq<Result<bool, StateChangeError>>,
    i: int,
)
    requires
        driven_run(states, caches, batches, mids, logs, synced, answers),
        0 <= i <= logs.len(),
    ensures
        reports_held_addresses(states, logs, batches[i].updated_amms@, i),
    decreases i,
{
    if i == 0 {
        assert(batches[0].updated_amms@ =~= Seq::<Address>::empty());
    } else {
        let k = i - 1;
        lemma_driven_reports(states, caches, batches, mids, logs, synced, answers, k);
        assert(driven_step_at(states, caches, batches, mids, logs, synced, answers, k));
        assert(logs[k].block_number is Some);
        let u = batches[k].updated_amms@;
        let u2 = batches[i].updated_amms@;
        let a = logs[k].address;
        let held = held_at(states, logs, k);
        assert(answers[k] == Ok::<bool, StateChangeError>(held));
        assert(mids[k].updated_amms@ == u2);
        // a held log among the first `i` is one among the first `k`, or the `k`-th
        assert forall|b: Address, j: int| #[trigger] held_log_of(states, logs, b, i, j) == (
        held_log_of(states, logs, b, k, j) || (j == k && b == a && held)) by {}
        assert forall|b: Address| #[trigger] u2.contains(b) <==> exists|j: int| #[trigger] held_log_of(states, logs, b, i, j) by {
            if exists|j: int| #[trigger] held_log_of(states, logs, b, i, j) {
                let j = choose|j: int| #[trigger] held_log_of(states, logs, b, i, j);
                if j < k {
                    assert(held_log_of(states, logs, b, k, j));
                    assert(u.contains(b));
                }
            }
            if u.contains(b) {
                let j = choose|j: int| #[trigger] held_log_of(states, logs, b, k, j);
                assert(held_log_of(states, logs, b, i, j));
            }
            if held && !u.contains(a) {
                assert(u2 == u.push(a));
                if u2.contains(b) {
                    let t = choose|t: int| 0 <= t < u2.len() && u2[t] == b;
                    if t < u.len() {
                        assert(u[t] == b);
                        assert(u.contains(b));
                    } else {
                        assert(held_log_of(states, logs, b, i, k));
                    }
                }
                if u.contains(b) {
                    let t = choose|t: int| 0 <= t < u.len() && u[t] == b;
                    assert(u2[t] == b);
                }
                if b == a {
                    assert(u2[u.len() as int] == a);
                }
            } else {
                assert(u2 == u);
                if b == a && held {
                    assert(u.contains(a));
                }
            }
        }
        // an earlier first log stays first
        assert forall|b: Address, c: Address|
            comes_first(states, logs, b, c, k) && !(c == a && held && !u.contains(a)) && (c == a && held ==> u.contains(a))
                implies comes_first(states, logs, b, c, i) by {
            let j1 = choose|j1: int|
                #[trigger] held_log_of(states, logs, b, k, j1) && forall|j2: int|
                    #[trigger] held_log_of(states, logs, c, k, j2) ==> j1 < j2;
            assert(held_log_of(states, logs, b, i, j1));
            assert forall|j2: int| #[trigger] held_log_of(states, logs, c, i, j2) implies j1 < j2 by {
                if j2 == k && c == a && held {
                    assert(u.contains(a));
                    let j3 = choose|j3: int| #[trigger] held_log_of(states, logs, a, k, j3);
                    assert(j1 < j3);
                } else {
                    assert(held_log_of(states, logs, c, k, j2));
                }
            }
        }
        if held && !u.contains(a) {
            assert(u2 == u.push(a));
            assert(u2.no_duplicates()) by {
                assert forall|x: int, y: int| 0 <= x < u2.len() && 0 <= y < u2.len() && x != y implies u2[x] != u2[y] by {
                    if x < u.len() && y < u.len() {
                        assert(u2[x] == u[x] && u2[y] == u[y]);
                    } else if x < u.len() {
                        assert(u2[x] == u[x]);
                        assert(u.contains(u[x]));
                    } else {
                        assert(u2[y] == u[y]);
                        assert(u.contains(u[y]));
                    }
                }
            }
            assert forall|p: int, q: int|
                #![trigger u2[p], u2[q]]
                0 <= p < q < u2.len() implies comes_first(states, logs, u2[p], u2[q], i) by {
                assert(u2[p] == u[p]);
                if q < u.len() {
                    assert(u2[q] == u[q]);
                    assert(comes_first(states, logs, u[p], u[q], k));
                    assert(u[q] != a) by {
                        assert(u.contains(u[q]));
                    }
                } else {
                    assert(u2[q] == a);
                    assert(u.contains(u[p]));
                    let j1 = choose|j1: int| #[trigger] held_log_of(states, logs, u[p], k, j1);
                    assert(held_log_of(states, logs, u[p], i, j1));
                    assert forall|j2: int| #[trigger] held_log_of(states, logs, a, i, j2) implies j1 < j2 by {
                        if j2 < k {
                            assert(held_log_of(states, logs, a, k, j2));
                            assert(u.contains(a));
                        }
                    }
                }
            }
        } else {
            assert(u2 == u);
            assert forall|p: int, q: int|
                #![trigger u2[p], u2[q]]
                0 <= p < q < u2.len() implies comes_first(states, logs, u2[p], u2[q], i) by {
                assert(comes_first(states, logs, u[p], u[q], k));
                if u[q] == a && held {
                    assert(u.contains(u[q]));
                }
            }
        }
    }
}

/// After a batch, the addresses that `finish` reports are exactly the
/// distinct addresses of the batch's logs that the state held when each log
/// came, each once, in the order in which such a log first came: every AMM a
/// log was applied to is reported, and no other.
pub proof fn law_batch_reports_updated_amms(
    states: Seq<Map<Address, Amm>>,
    caches: Seq<Seq<StateChange>>,
    batches: Seq<LogBatch>,
    mids: Seq<LogBatch>,
    logs: Seq<Log>,
    synced: Seq<Amm>,
    answers: Seq<Result<bool, StateChangeError>>,
)
    requires
        driven_run(states, caches, batches, mids, logs, synced, answers),
    ensures
        reports_held_addresses(states, logs, batches.last().updated_amms@, logs.len() as int),
        forall|j: int| 0 <= j < logs.len() ==> #[trigger] answers[j] == Ok::<bool, StateChangeError>(
            held_at(states, logs, j),
        ),
{
    lemma_driven_reports(states, caches, batches, mids, logs, synced, answers, logs.len() as int);
    assert forall|j: int| 0 <= j < logs.len() implies #[trigger] answers[j] == Ok::<bool, StateChangeError>(
        held_at(states, logs, j),
    ) by {
        assert(driven_step_at(states, caches, batches, mids, logs, synced, answers, j));
        assert(logs[j].block_number is Some);
    }
}

} // verus!
