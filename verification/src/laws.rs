use vstd::prelude::*;

use crate::amm::{Address, Amm, AmmVariant};
use crate::cache::STATE_CHANGE_CACHE_CAPACITY;
use crate::space::{addresses_distinct, holds_address, keyed_by_address};
use crate::state::{
    cache_after_add, cache_after_empty_blocks, changes_to_unwind, insert_amms, joined_signatures, pending_state_change,
    restore_state_change, restore_state_changes, variant_representatives,
};
use crate::state_change::StateChange;
use crate::state_space_manager::initial_state_map;

verus! {

/// The snapshots that a state change holds, none for an empty change.
pub open spec fn snapshots_of(state_change: StateChange) -> Seq<Amm> {
    match state_change.state_change {
        Some(amms) => amms@,
        None => Seq::empty(),
    }
}

/// The snapshots record the change that took the state from `before` to
/// `after`: they are AMMs of `before`, each as it stood there and each
/// address once, and no other AMM changed, nor the set of addresses.
pub open spec fn records_snapshots(
    before: Map<Address, Amm>,
    after: Map<Address, Amm>,
    snapshots: Seq<Amm>,
) -> bool {
    &&& addresses_distinct(snapshots)
    &&& forall|i: int|
        0 <= i < snapshots.len() ==> before.contains_key(#[trigger] snapshots[i].address)
            && before[snapshots[i].address] == snapshots[i]
    &&& after.dom() == before.dom()
    &&& forall|a: Address|
        #[trigger] before.contains_key(a) && !holds_address(snapshots, a) ==> after[a] == before[a]
}

/// The state change records the block that took the state from `before` to
/// `after`.
pub open spec fn records_block(
    before: Map<Address, Amm>,
    after: Map<Address, Amm>,
    state_change: StateChange,
) -> bool {
    records_snapshots(before, after, snapshots_of(state_change))
}

/// Putting AMMs of distinct addresses in a state gives each of their
/// addresses its AMM and leaves every other address as it was.
pub proof fn lemma_insert_amms(state: Map<Address, Amm>, amms: Seq<Amm>)
    requires
        addresses_distinct(amms),
    ensures
        forall|i: int|
            0 <= i < amms.len() ==> insert_amms(state, amms).contains_key(
                #[trigger] amms[i].address,
            ) && insert_amms(state, amms)[amms[i].address] == amms[i],
        forall|a: Address|
            !holds_address(amms, a) ==> (#[trigger] insert_amms(state, amms).contains_key(a)
                == state.contains_key(a)) && (state.contains_key(a) ==> insert_amms(
                state,
                amms,
            )[a] == state[a]),
    decreases amms.len(),
{
    if amms.len() > 0 {
        let rest = amms.drop_last();
        assert(addresses_distinct(rest)) by {
            assert forall|i: int, j: int|
                0 <= i < rest.len() && 0 <= j < rest.len() && i != j implies #[trigger] rest[i].address
                != #[trigger] rest[j].address by {
                assert(rest[i] == amms[i] && rest[j] == amms[j]);
            }
        }
        lemma_insert_amms(state, rest);
        let last = amms.last();
        assert forall|i: int| 0 <= i < amms.len() implies insert_amms(state, amms).contains_key(
            #[trigger] amms[i].address,
        ) && insert_amms(state, amms)[amms[i].address] == amms[i] by {
            if i < amms.len() - 1 {
                assert(rest[i] == amms[i]);
                assert(amms[i].address != amms[amms.len() - 1].address);
            }
        }
        assert forall|a: Address| !holds_address(amms, a) implies (#[trigger] insert_amms(
            state,
            amms,
        ).contains_key(a) == state.contains_key(a)) && (state.contains_key(a) ==> insert_amms(
            state,
            amms,
        )[a] == state[a]) by {
            if holds_address(rest, a) {
                let i = choose|i: int| 0 <= i < rest.len() && #[trigger] rest[i].address == a;
                assert(rest[i] == amms[i]);
                assert(amms[i].address == a);
            }
            assert(!holds_address(rest, a));
            assert(insert_amms(state, rest).contains_key(a) == state.contains_key(a));
            if amms[amms.len() - 1].address == a {
                assert(holds_address(amms, a));
            }
            assert(insert_amms(state, amms) == insert_amms(state, rest).insert(last.address, last));
        }
    }
}

/// Rolling back one block restores the state from before it: putting the
/// snapshots of a state change that records the block back over the state
/// after the block gives the state before the block.
pub proof fn law_restore_undoes_block(
    before: Map<Address, Amm>,
    after: Map<Address, Amm>,
    state_change: StateChange,
)
    requires
        records_block(before, after, state_change),
    ensures
        restore_state_change(after, state_change) == before,
{
    let snapshots = snapshots_of(state_change);
    lemma_insert_amms(after, snapshots);
    let restored = insert_amms(after, snapshots);
    assert(restore_state_change(after, state_change) == restored);
    assert forall|a: Address| #[trigger] restored.contains_key(a) == before.contains_key(a) by {
        if holds_address(snapshots, a) {
            let i = choose|i: int| 0 <= i < snapshots.len() && #[trigger] snapshots[i].address == a;
        }
    }
    assert forall|a: Address| #[trigger] restored.contains_key(a) implies restored[a] == before[a] by {
        if holds_address(snapshots, a) {
            let i = choose|i: int| 0 <= i < snapshots.len() && #[trigger] snapshots[i].address == a;
        }
    }
    assert(restored =~= before);
}

/// Rolling back several blocks restores the state from before the oldest of
/// them: when `states` is the history of the state, oldest first, and each
/// change of `changes` (newest first, as the cache holds them) records the
/// block between two consecutive states, putting back the snapshots of the
/// newest `k` changes over the current state gives the state from `k` blocks
/// before.
pub proof fn law_unwind_restores_history(
    states: Seq<Map<Address, Amm>>,
    changes: Seq<StateChange>,
    k: int,
)
    requires
        states.len() == changes.len() + 1,
        forall|i: int|
            0 <= i < changes.len() ==> records_block(
                states[states.len() - 2 - i],
                states[states.len() - 1 - i],
                #[trigger] changes[i],
            ),
        0 <= k <= changes.len(),
    ensures
        restore_state_changes(states.last(), changes.take(k)) == states[states.len() - 1 - k],
    decreases k,
{
    if k > 0 {
        law_unwind_restores_history(states, changes, k - 1);
        assert(changes.take(k).drop_last() =~= changes.take(k - 1));
        assert(changes.take(k).last() == changes[k - 1]);
        law_restore_undoes_block(
            states[states.len() - 2 - (k - 1)],
            states[states.len() - 1 - (k - 1)],
            changes[k - 1],
        );
    }
}

/// Before any log of a block, no snapshot is needed: the empty snapshots
/// record the state's unchanged self.
pub proof fn law_no_snapshots_record_no_change(state: Map<Address, Amm>)
    ensures
        records_snapshots(state, state, Seq::empty()),
{
}

/// Syncing an AMM keeps the record of its block: when the pending snapshots
/// record the block so far and the AMM has not been synced in the block
/// yet, putting the synced AMM in the state and the AMM it replaces among
/// the snapshots (what `LogBatch::on_synced` does) again records the block.
pub proof fn law_sync_keeps_record(
    before: Map<Address, Amm>,
    current: Map<Address, Amm>,
    snapshots: Seq<Amm>,
    synced: Amm,
)
    requires
        keyed_by_address(before),
        records_snapshots(before, current, snapshots),
        current.contains_key(synced.address),
        !holds_address(snapshots, synced.address),
    ensures
        records_snapshots(
            before,
            current.insert(synced.address, synced),
            snapshots.push(current[synced.address]),
        ),
{
    let a = synced.address;
    let p = snapshots.push(current[a]);
    let after = current.insert(a, synced);
    assert(before.contains_key(a));
    assert(current[a] == before[a]);
    assert(addresses_distinct(p)) by {
        assert forall|i: int, j: int|
            0 <= i < p.len() && 0 <= j < p.len() && i != j implies #[trigger] p[i].address
            != #[trigger] p[j].address by {
            if i < snapshots.len() && j < snapshots.len() {
                assert(p[i] == snapshots[i] && p[j] == snapshots[j]);
            } else if i < snapshots.len() {
                assert(p[i] == snapshots[i]);
            } else {
                assert(p[j] == snapshots[j]);
            }
        }
    }
    assert forall|i: int| 0 <= i < p.len() implies before.contains_key(#[trigger] p[i].address)
        && before[p[i].address] == p[i] by {
        if i < snapshots.len() {
            assert(p[i] == snapshots[i]);
        }
    }
    assert(after.dom() =~= before.dom());
    assert forall|b: Address| #[trigger] before.contains_key(b) && !holds_address(p, b) implies after[b]
        == before[b] by {
        assert(p[snapshots.len() as int].address == a);
        if holds_address(snapshots, b) {
            let i = choose|i: int| 0 <= i < snapshots.len() && #[trigger] snapshots[i].address == b;
            assert(p[i] == snapshots[i]);
        }
    }
}

/// Unwinding to a block after every older change in the cache, but not after
/// the change just added, rolls back exactly that change: one change is
/// unwound, its snapshots are put back, and the cache is left as it was
/// before the change was added (less its oldest change, when it was full).
pub proof fn law_unwind_undoes_add(
    state: Map<Address, Amm>,
    changes: Seq<StateChange>,
    state_change: StateChange,
    block_to_unwind: u64,
)
    requires
        0 < changes.len() <= STATE_CHANGE_CACHE_CAPACITY,
        changes[0].block_number < block_to_unwind <= state_change.block_number,
    ensures
        ({
            let added = cache_after_add(changes, state_change);
            let kept = if changes.len() == STATE_CHANGE_CACHE_CAPACITY {
                changes.drop_last()
            } else {
                changes
            };
            &&& changes_to_unwind(added, block_to_unwind) == 1
            &&& 1 < added.len()
            &&& restore_state_changes(state, added.take(1)) == restore_state_change(
                state,
                state_change,
            )
            &&& added.skip(1) == kept
        }),
{
    let added = cache_after_add(changes, state_change);
    let kept = if changes.len() == STATE_CHANGE_CACHE_CAPACITY {
        changes.drop_last()
    } else {
        changes
    };
    assert(kept[0] == changes[0]);
    assert(added[0] == state_change);
    assert(changes_to_unwind(kept, block_to_unwind) == 0);
    assert(added[1] == kept[0]);
    assert(added.drop_first() =~= kept);
    assert(added.take(1) =~= seq![state_change]);
    assert(seq![state_change].drop_last() =~= Seq::<StateChange>::empty());
    assert(seq![state_change].last() == state_change);
    assert(restore_state_changes(state, Seq::<StateChange>::empty()) == state);
    assert(added.skip(1) =~= kept);
}

/// The state change that a batch commits for a block holds exactly the
/// snapshots pending for that block.
pub proof fn law_commit_holds_pending(pending: Vec<Amm>, block_number: u64)
    ensures
        snapshots_of(pending_state_change(pending, block_number)) == pending@,
        pending_state_change(pending, block_number).block_number == block_number,
{
    if pending@.len() == 0 {
        assert(pending@ =~= Seq::<Amm>::empty());
    }
}

/// A batch reports each touched address once: adding an address only when
/// it is not yet listed (what `LogBatch::on_log` does) keeps the list free of
/// duplicates.
pub proof fn law_updated_amms_distinct(updated: Seq<Address>, address: Address)
    requires
        updated.no_duplicates(),
    ensures
        (if updated.contains(address) {
            updated
        } else {
            updated.push(address)
        }).no_duplicates(),
{
    if !updated.contains(address) {
        let p = updated.push(address);
        assert forall|i: int, j: int| 0 <= i < p.len() && 0 <= j < p.len() && i != j implies p[i]
            != p[j] by {
            if i < updated.len() && j < updated.len() {
                assert(p[i] == updated[i] && p[j] == updated[j]);
            } else if i < updated.len() {
                assert(p[i] == updated[i]);
                assert(updated.contains(updated[i]));
            } else {
                assert(p[j] == updated[j]);
                assert(updated.contains(updated[j]));
            }
        }
    }
}

/// Initialising a state space from a list of AMMs holds exactly the
/// addresses of the list, each under the last AMM of the list that has it.
pub proof fn law_initial_state_holds_listed_addresses(amms: Seq<Amm>)
    ensures
        keyed_by_address(initial_state_map(amms)),
        forall|a: Address| #[trigger]
            initial_state_map(amms).contains_key(a) == holds_address(amms, a),
        forall|i: int|
            0 <= i < amms.len() && (forall|j: int| i < j < amms.len() ==> amms[j].address
                != amms[i].address) ==> #[trigger] initial_state_map(amms)[amms[i].address]
                == amms[i],
    decreases amms.len(),
{
    if amms.len() > 0 {
        let rest = amms.drop_last();
        law_initial_state_holds_listed_addresses(rest);
        let last = amms.last();
        assert forall|a: Address| #[trigger] initial_state_map(amms).contains_key(a) == holds_address(
            amms,
            a,
        ) by {
            if holds_address(rest, a) {
                let i = choose|i: int| 0 <= i < rest.len() && #[trigger] rest[i].address == a;
                assert(amms[i] == rest[i]);
            }
            if holds_address(amms, a) && a != last.address {
                let i = choose|i: int| 0 <= i < amms.len() && #[trigger] amms[i].address == a;
                assert(i != amms.len() - 1);
                assert(rest[i] == amms[i]);
            }
            if a == last.address {
                assert(amms[amms.len() - 1].address == a);
            }
        }
        assert forall|i: int|
            0 <= i < amms.len() && (forall|j: int| i < j < amms.len() ==> amms[j].address
                != amms[i].address) implies #[trigger] initial_state_map(amms)[amms[i].address]
            == amms[i] by {
            if i < amms.len() - 1 {
                assert(rest[i] == amms[i]);
                assert(amms[amms.len() - 1].address != amms[i].address);
                assert forall|j: int| i < j < rest.len() implies rest[j].address != rest[i].address by {
                    assert(rest[j] == amms[j]);
                }
            }
        }
    }
}

/// The cache after the state changes are added one after the other, in the
/// order given.
pub open spec fn cache_after_adds(changes: Seq<StateChange>, added: Seq<StateChange>) -> Seq<
    StateChange,
>
    decreases added.len(),
{
    if added.len() == 0 {
        changes
    } else {
        cache_after_add(cache_after_adds(changes, added.drop_last()), added.last())
    }
}

/// Adding state changes one by one to an empty cache keeps the newest
/// `STATE_CHANGE_CACHE_CAPACITY` of them, newest first: after `n` adds the
/// cache holds `min(n, 150)` changes, the `k`-th from the front being the
/// `k`-th newest added.
pub proof fn law_adds_keep_newest(added: Seq<StateChange>)
    ensures
        ({
            let c = cache_after_adds(Seq::empty(), added);
            let n = added.len();
            let kept = if n < STATE_CHANGE_CACHE_CAPACITY {
                n
            } else {
                STATE_CHANGE_CACHE_CAPACITY as nat
            };
            &&& c.len() == kept
            &&& forall|k: int| 0 <= k < kept ==> #[trigger] c[k] == added[n - 1 - k]
        }),
    decreases added.len(),
{
    if added.len() > 0 {
        let rest = added.drop_last();
        law_adds_keep_newest(rest);
        let c0 = cache_after_adds(Seq::empty(), rest);
        let c = cache_after_adds(Seq::empty(), added);
        let n = added.len();
        assert(c == cache_after_add(c0, added.last()));
        assert forall|k: int| 0 <= k < c.len() implies #[trigger] c[k] == added[n - 1 - k] by {
            if k > 0 {
                assert(c[k] == c0[k - 1]);
                assert(rest[rest.len() - 1 - (k - 1)] == added[n - 1 - k]);
            }
        }
    }
}

/// Some AMM of the sequence is of the variant.
pub open spec fn has_variant(amms: Seq<Amm>, v: AmmVariant) -> bool {
    exists|i: int| 0 <= i < amms.len() && #[trigger] amms[i].variant == v
}

/// How many variants occur in the sequence.
pub open spec fn variant_count(amms: Seq<Amm>) -> nat {
    (if has_variant(amms, AmmVariant::UniswapV2Pool) {
        1nat
    } else {
        0nat
    }) + (if has_variant(amms, AmmVariant::UniswapV3Pool) {
        1nat
    } else {
        0nat
    }) + (if has_variant(amms, AmmVariant::ERC4626Vault) {
        1nat
    } else {
        0nat
    })
}

/// The filter topics of the sources of the AMMs, when each source's event
/// signatures are those of its variant.
pub open spec fn source_topics(
    amms: Seq<Amm>,
    signatures: spec_fn(AmmVariant) -> Seq<[u8; 32]>,
) -> Seq<[u8; 32]> {
    joined_signatures(variant_representatives(amms).map_values(|r: Amm| signatures(r.variant)))
}

/// How many topics the variants that occur in the sequence have together.
pub open spec fn variant_topic_total(
    amms: Seq<Amm>,
    signatures: spec_fn(AmmVariant) -> Seq<[u8; 32]>,
) -> nat {
    (if has_variant(amms, AmmVariant::UniswapV2Pool) {
        signatures(AmmVariant::UniswapV2Pool).len()
    } else {
        0nat
    }) + (if has_variant(amms, AmmVariant::UniswapV3Pool) {
        signatures(AmmVariant::UniswapV3Pool).len()
    } else {
        0nat
    }) + (if has_variant(amms, AmmVariant::ERC4626Vault) {
        signatures(AmmVariant::ERC4626Vault).len()
    } else {
        0nat
    })
}

/// The sources name one AMM of each variant that occurs, and no other: their
/// variants are distinct and are exactly the variants of the AMMs.
pub proof fn law_sources_one_per_variant(amms: Seq<Amm>)
    ensures
        forall|v: AmmVariant| #[trigger]
            has_variant(variant_representatives(amms), v) == has_variant(amms, v),
        forall|i: int, j: int|
            0 <= i < j < variant_representatives(amms).len() ==> #[trigger] variant_representatives(
                amms,
            )[i].variant != #[trigger] variant_representatives(amms)[j].variant,
        variant_representatives(amms).len() == variant_count(amms),
    decreases amms.len(),
{
    if amms.len() > 0 {
        let rest = amms.drop_last();
        let last = amms.last();
        law_sources_one_per_variant(rest);
        let earlier = variant_representatives(rest);
        let reps = variant_representatives(amms);
        assert forall|v: AmmVariant| #[trigger] has_variant(amms, v) == (has_variant(rest, v) || last.variant == v) by {
            if has_variant(rest, v) {
                let i = choose|i: int| 0 <= i < rest.len() && #[trigger] rest[i].variant == v;
                assert(amms[i] == rest[i]);
            }
            if has_variant(amms, v) && last.variant != v {
                let i = choose|i: int| 0 <= i < amms.len() && #[trigger] amms[i].variant == v;
                assert(rest[i] == amms[i]);
            }
            if last.variant == v {
                assert(amms[amms.len() - 1].variant == v);
            }
        }
        if has_variant(earlier, last.variant) {
            assert(reps == earlier);
        } else {
            assert(reps == earlier.push(last));
            assert forall|v: AmmVariant| #[trigger] has_variant(reps, v) == (has_variant(earlier, v) || last.variant == v) by {
                if has_variant(earlier, v) {
                    let i = choose|i: int| 0 <= i < earlier.len() && #[trigger] earlier[i].variant == v;
                    assert(reps[i] == earlier[i]);
                }
                if has_variant(reps, v) && last.variant != v {
                    let i = choose|i: int| 0 <= i < reps.len() && #[trigger] reps[i].variant == v;
                    assert(earlier[i] == reps[i]);
                }
                if last.variant == v {
                    assert(reps[reps.len() - 1].variant == v);
                }
            }
            assert forall|i: int, j: int| 0 <= i < j < reps.len() implies #[trigger] reps[i].variant
                != #[trigger] reps[j].variant by {
                if j < earlier.len() {
                    assert(reps[i] == earlier[i] && reps[j] == earlier[j]);
                } else {
                    assert(reps[i] == earlier[i]);
                    assert(has_variant(earlier, earlier[i].variant));
                }
            }
        }
    }
}

/// The topics of the sources are the event signatures of the variants that
/// occur, each variant's once: a topic is among them exactly when it is a
/// signature of some variant that occurs, and there are as many as those
/// variants have together.
pub proof fn law_source_topics(amms: Seq<Amm>, signatures: spec_fn(AmmVariant) -> Seq<[u8; 32]>)
    ensures
        source_topics(amms, signatures).len() == variant_topic_total(amms, signatures),
        forall|t: [u8; 32]| #[trigger]
            source_topics(amms, signatures).contains(t) == exists|v: AmmVariant|
                has_variant(amms, v) && #[trigger] signatures(v).contains(t),
    decreases amms.len(),
{
    if amms.len() > 0 {
        let rest = amms.drop_last();
        let last = amms.last();
        law_source_topics(rest, signatures);
        law_sources_one_per_variant(rest);
        let earlier = variant_representatives(rest);
        let reps = variant_representatives(amms);
        let f = |r: Amm| signatures(r.variant);
        assert forall|v: AmmVariant| #[trigger] has_variant(amms, v) == (has_variant(rest, v) || last.variant == v) by {
            if has_variant(rest, v) {
                let i = choose|i: int| 0 <= i < rest.len() && #[trigger] rest[i].variant == v;
                assert(amms[i] == rest[i]);
            }
            if has_variant(amms, v) && last.variant != v {
                let i = choose|i: int| 0 <= i < amms.len() && #[trigger] amms[i].variant == v;
                assert(rest[i] == amms[i]);
            }
            if last.variant == v {
                assert(amms[amms.len() - 1].variant == v);
            }
        }
        if has_variant(earlier, last.variant) {
            assert(reps == earlier);
            assert(source_topics(amms, signatures) == source_topics(rest, signatures));
        } else {
            assert(reps == earlier.push(last));
            assert(reps.map_values(f) =~= earlier.map_values(f).push(signatures(last.variant)));
            assert(reps.map_values(f).drop_last() =~= earlier.map_values(f));
            let st = source_topics(amms, signatures);
            assert(st == source_topics(rest, signatures) + signatures(last.variant));
            assert forall|t: [u8; 32]| #[trigger] st.contains(t) == exists|v: AmmVariant|
                has_variant(amms, v) && #[trigger] signatures(v).contains(t) by {
                let se = source_topics(rest, signatures);
                if st.contains(t) {
                    let i = choose|i: int| 0 <= i < st.len() && st[i] == t;
                    if i < se.len() {
                        assert(se[i] == t);
                        assert(se.contains(t));
                    } else {
                        assert(signatures(last.variant)[i - se.len()] == t);
                        assert(signatures(last.variant).contains(t));
                        assert(has_variant(amms, last.variant));
                    }
                }
                if exists|v: AmmVariant| has_variant(amms, v) && #[trigger] signatures(v).contains(t) {
                    let v = choose|v: AmmVariant| has_variant(amms, v) && #[trigger] signatures(v).contains(t);
                    if has_variant(rest, v) {
                        assert(se.contains(t));
                        let i = choose|i: int| 0 <= i < se.len() && se[i] == t;
                        assert(st[i] == t);
                    } else {
                        assert(v == last.variant);
                        let sig = signatures(last.variant);
                        let i = choose|i: int| 0 <= i < sig.len() && sig[i] == t;
                        assert(st[se.len() + i] == t);
                    }
                }
            }
        }
    } else {
        assert(variant_representatives(amms) =~= Seq::<Amm>::empty());
        assert(variant_representatives(amms).map_values(|r: Amm| signatures(r.variant)) =~= Seq::<
            Seq<[u8; 32]>,
        >::empty());
    }
}

/// Two states in which the same variants occur have as many sources, of the
/// same variants, and the same filter topics, as many of them, when each
/// source's event signatures are those of its variant; adding an AMM of a
/// variant that already occurs changes neither.
pub proof fn law_same_variants_same_topics(
    amms: Seq<Amm>,
    other: Seq<Amm>,
    signatures: spec_fn(AmmVariant) -> Seq<[u8; 32]>,
)
    requires
        forall|v: AmmVariant| #[trigger] has_variant(amms, v) == has_variant(other, v),
    ensures
        variant_representatives(amms).len() == variant_representatives(other).len(),
        forall|v: AmmVariant|
            #[trigger] has_variant(variant_representatives(amms), v) == has_variant(
                variant_representatives(other),
                v,
            ),
        source_topics(amms, signatures).len() == source_topics(other, signatures).len(),
        forall|t: [u8; 32]| #[trigger]
            source_topics(amms, signatures).contains(t) == source_topics(other, signatures).contains(
                t,
            ),
{
    law_sources_one_per_variant(amms);
    law_sources_one_per_variant(other);
    law_source_topics(amms, signatures);
    law_source_topics(other, signatures);
    assert(has_variant(amms, AmmVariant::UniswapV2Pool) == has_variant(other, AmmVariant::UniswapV2Pool));
    assert(has_variant(amms, AmmVariant::UniswapV3Pool) == has_variant(other, AmmVariant::UniswapV3Pool));
    assert(has_variant(amms, AmmVariant::ERC4626Vault) == has_variant(other, AmmVariant::ERC4626Vault));
    assert forall|t: [u8; 32]| #[trigger]
        source_topics(amms, signatures).contains(t) == source_topics(other, signatures).contains(t) by {
        if exists|v: AmmVariant| has_variant(amms, v) && #[trigger] signatures(v).contains(t) {
            let v = choose|v: AmmVariant| has_variant(amms, v) && #[trigger] signatures(v).contains(t);
            assert(has_variant(other, v));
        }
        if exists|v: AmmVariant| has_variant(other, v) && #[trigger] signatures(v).contains(t) {
            let v = choose|v: AmmVariant| has_variant(other, v) && #[trigger] signatures(v).contains(t);
            assert(has_variant(amms, v));
        }
    }
}

proof fn lemma_empty_blocks_step(changes: Seq<StateChange>, from: u64, to: u64)
    requires
        from <= to < u64::MAX,
    ensures
        cache_after_empty_blocks(changes, from, (to + 1) as u64) == cache_after_add(
            cache_after_empty_blocks(changes, from, to),
            StateChange { state_change: None, block_number: to },
        ),
    decreases to - from,
{
    let c1 = cache_after_add(changes, StateChange { state_change: None, block_number: from });
    if from < to {
        lemma_empty_blocks_step(c1, (from + 1) as u64, to);
    } else {
        assert(cache_after_empty_blocks(c1, (from + 1) as u64, (to + 1) as u64) == c1);
    }
}

/// Recording the blocks from `from` up to, not including, `to` as blocks
/// without logs puts an empty state change for each of them at the front of
/// the cache, newest block first: after it, the cache's first
/// `min(to - from, 150)` changes are empty changes of blocks `to - 1`,
/// `to - 2`, and so on, followed by the cache's earlier changes, newest
/// first, as many as fit, and the cache holds `min(c + (to - from), 150)`
/// changes, where `c` is how many it held before.
pub proof fn law_empty_blocks_recorded(changes: Seq<StateChange>, from: u64, to: u64)
    requires
        from <= to,
        changes.len() <= STATE_CHANGE_CACHE_CAPACITY,
    ensures
        ({
            let r = cache_after_empty_blocks(changes, from, to);
            let d = to - from;
            let kept = if d < STATE_CHANGE_CACHE_CAPACITY {
                d
            } else {
                STATE_CHANGE_CACHE_CAPACITY as int
            };
            let total = if changes.len() + d < STATE_CHANGE_CACHE_CAPACITY {
                changes.len() + d
            } else {
                STATE_CHANGE_CACHE_CAPACITY as int
            };
            &&& r.len() == total
            &&& forall|k: int|
                0 <= k < kept ==> #[trigger] r[k] == StateChange {
                    state_change: None,
                    block_number: (to - 1 - k) as u64,
                }
            &&& forall|k: int| kept <= k < total ==> #[trigger] r[k] == changes[k - d]
        }),
    decreases to - from,
{
    if from < to {
        let t = (to - 1) as u64;
        law_empty_blocks_recorded(changes, from, t);
        lemma_empty_blocks_step(changes, from, t);
        let prev = cache_after_empty_blocks(changes, from, t);
        let r = cache_after_empty_blocks(changes, from, to);
        let x = StateChange { state_change: None, block_number: t };
        assert(r == cache_after_add(prev, x));
        let d = to - from;
        let kept = if d < STATE_CHANGE_CACHE_CAPACITY {
            d
        } else {
            STATE_CHANGE_CACHE_CAPACITY as int
        };
        let total = if changes.len() + d < STATE_CHANGE_CACHE_CAPACITY {
            changes.len() + d
        } else {
            STATE_CHANGE_CACHE_CAPACITY as int
        };
        assert(r.len() == total);
        assert forall|k: int|
            0 <= k < kept implies #[trigger] r[k] == StateChange {
                state_change: None,
                block_number: (to - 1 - k) as u64,
            } by {
            if k > 0 {
                assert(r[k] == prev[k - 1]);
            }
        }
        assert forall|k: int| kept <= k < total implies #[trigger] r[k] == changes[k - d] by {
            assert(r[k] == prev[k - 1]);
        }
    }
}

} // verus!
