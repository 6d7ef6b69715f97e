//! The library-wide retention laws, stated over the mathematical model: a
//! store's observable state is its commit history together with the progress
//! watermark ([`read_result`] is what [`StateStore::get_account_state_by_root`]
//! returns, by its contract), and the worker's handling of a drained batch
//! moves the watermark to [`new_progress`] (by [`Worker::work_loop`]'s
//! contract).

use vstd::prelude::*;

use crate::controller::prune_target;
use crate::store::{
    committed_value, inv_core, leaf_live, leaf_stored, read_result, stale_entry_live, stale_since,
    History, LeafNode, StaleNodeIndexEntry,
};
use crate::worker::{has_quit, lemma_max_target_in_batch, max_prune_target, new_progress, Command};
use crate::Error;

verus! {

/// Monotonic retention: advancing the watermark from `p1` to `p2` disturbs no
/// read of a version at or above `p2` — every retained version stays fully
/// readable, returning exactly its committed value, as before the advance —
/// and makes every version strictly below `p2` unreadable.
pub proof fn lemma_monotonic_retention(h: History, p1: u64, p2: u64, version: u64, a: u64)
    requires
        p1 <= p2,
    ensures
        p2 <= version && (version as int) < h.len() ==> read_result(h, p2, version, a)
            == read_result(h, p1, version, a) && read_result(h, p2, version, a) == Ok::<
            Option<Seq<u8>>,
            Error,
        >(committed_value(h, version, a)),
        version < p2 || (version as int) >= h.len() ==> read_result(h, p2, version, a) == Err::<
            Option<Seq<u8>>,
            Error,
        >(Error::RootNotFound),
{
}

/// No over-pruning: when every queued request asks for at most the floor of
/// the latest call — targets are non-decreasing, so earlier requests ask for
/// less — the watermark after the drain never exceeds `latest_version` minus
/// the retention window (and never exceeds `latest_version` itself).
pub proof fn lemma_no_over_pruning(p: u64, latest_version: u64, keep: u64, batch: Seq<Command>)
    requires
        p <= prune_target(latest_version, keep),
        forall|i: int|
            0 <= i < batch.len() ==> ((#[trigger] batch[i]) is Prune
                ==> batch[i]->least_readable_version <= prune_target(latest_version, keep)),
    ensures
        new_progress(p, batch) <= prune_target(latest_version, keep),
        prune_target(latest_version, keep) <= latest_version,
{
    if !has_quit(batch) && max_prune_target(batch) is Some {
        let t = max_prune_target(batch)->Some_0;
        lemma_max_target_in_batch(batch);
        let i = choose|i: int|
            0 <= i < batch.len() && batch[i] == (Command::Prune { least_readable_version: t });
        assert(batch[i] is Prune);
    }
}

/// Idempotence: after one trigger at `latest_version` the watermark has
/// reached that call's target, so a second trigger with the same argument
/// computes a target no greater than the watermark — the no-op branch of
/// `wake_and_wait`, which by its contract changes nothing and returns success
/// without re-executing any deletion.
pub proof fn lemma_wake_idempotent(p: u64, latest_version: u64, keep: u64)
    ensures
        ({
            let target = prune_target(latest_version, keep);
            let p1 = if target > p {
                target
            } else {
                p
            };
            prune_target(latest_version, keep) <= p1
        }),
{
}

/// Eager shutdown: a drained batch containing `Quit` moves the watermark
/// nowhere, whatever `Prune` commands stand before or after it in the batch —
/// no data is pruned. (`Worker::work_loop`'s contract adds the operational
/// half: the store is left untouched and the worker stops.)
pub proof fn lemma_eager_shutdown(p: u64, batch: Seq<Command>)
    requires
        has_quit(batch),
    ensures
        new_progress(p, batch) == p,
{
}

/// Crash safety, first half: in every well-formed store state — and every
/// store operation's contract preserves well-formedness, so in every reachable
/// state, including between deletion batches — each stale index entry's node
/// is still stored, and each stored node that has been superseded still has
/// its index entry. Entry and node can only disappear together.
pub proof fn lemma_no_dangling_entries(
    leaves: Seq<LeafNode>,
    stale: Seq<StaleNodeIndexEntry>,
    h: History,
    p: u64,
    n: u64,
)
    requires
        inv_core(leaves, stale, h, p, n),
    ensures
        forall|i: int|
            0 <= i < stale.len() ==> leaf_stored(
                leaves,
                (#[trigger] stale[i]).node_address,
                stale[i].node_version as int,
            ),
        forall|i: int|
            0 <= i < leaves.len() && stale_since(
                h,
                (#[trigger] leaves[i]).address,
                leaves[i].version as int,
            ) is Some ==> stale.contains(
                StaleNodeIndexEntry {
                    stale_since_version: stale_since(
                        h,
                        leaves[i].address,
                        leaves[i].version as int,
                    )->Some_0 as u64,
                    node_address: leaves[i].address,
                    node_version: leaves[i].version,
                },
            ),
{
    assert forall|i: int| 0 <= i < stale.len() implies leaf_stored(
        leaves,
        (#[trigger] stale[i]).node_address,
        stale[i].node_version as int,
    ) by {
        let e = stale[i];
        assert(stale_entry_live(h, p, e));
        assert(leaf_live(h, p, e.node_address, e.node_version as int));
    }
    assert forall|i: int|
        0 <= i < leaves.len() && stale_since(
            h,
            (#[trigger] leaves[i]).address,
            leaves[i].version as int,
        ) is Some implies stale.contains(
        StaleNodeIndexEntry {
            stale_since_version: stale_since(h, leaves[i].address, leaves[i].version as int)->Some_0
                as u64,
            node_address: leaves[i].address,
            node_version: leaves[i].version,
        },
    ) by {
        let l = leaves[i];
        assert(crate::store::leaf_ok(h, p, l));
        let s = stale_since(h, l.address, l.version as int)->Some_0;
        crate::store::lemma_next_props(h, l.address, l.version as int + 1);
        let e = StaleNodeIndexEntry {
            stale_since_version: s as u64,
            node_address: l.address,
            node_version: l.version,
        };
        assert(stale_entry_live(h, p, e));
    }
}

/// Crash safety, second half: pruning is resumable. An interruption after any
/// persisted intermediate floor `mid` loses nothing: re-running the pass to
/// the full target `t` from the persisted watermark reaches exactly the state
/// an uninterrupted run reaches, so every read agrees.
pub proof fn lemma_prune_resumable(h: History, p: u64, mid: u64, t: u64, version: u64, a: u64)
    requires
        p <= mid <= t,
    ensures
        ({
            let direct = if t > p {
                t
            } else {
                p
            };
            let resumed_mid = if mid > p {
                mid
            } else {
                p
            };
            let resumed = if t > resumed_mid {
                t
            } else {
                resumed_mid
            };
            resumed == direct && read_result(h, resumed, version, a) == read_result(
                h,
                direct,
                version,
                a,
            )
        }),
{
}

} // verus!
