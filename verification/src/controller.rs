//! The pruner controller: owns the retention policy and the command queue,
//! and exposes the commit path's triggers.
//!
//! `wake` only enqueues; `wake_and_wait` enqueues and then drives the worker
//! through one drain of everything queued so far, which folds every buffered
//! request into a single deletion pass at the greatest target. Concurrency is
//! wiring, not logic: a threaded embedding owns the channel and the blocking
//! wait, and drives these same functions.

use vstd::prelude::*;

use crate::store::StateStore;
use crate::worker::{
    has_quit, lemma_max_target_ge, new_progress, Command, Worker,
};
use crate::Error;

verus! {

/// The retention floor requested when the latest committed version is
/// `latest_version` and `keep` historical versions are retained.
pub open spec fn prune_target(latest_version: u64, keep: u64) -> u64 {
    if latest_version >= keep {
        (latest_version - keep) as u64
    } else {
        0
    }
}

/// The pruner controller: the command queue's sending half, the worker it
/// feeds, and the retention policy.
pub struct Pruner {
    /// How many historical versions to keep behind the latest one.
    pub num_historical_versions_to_keep: u64,
    /// The background worker fed from the queue.
    pub worker: Worker,
    /// Commands sent but not yet drained by the worker.
    pub pending: Vec<Command>,
}

impl Pruner {
    /// The controller agrees with the store it prunes: the worker's watermark
    /// is the store's persisted one, and everything queued is a `Prune` of a
    /// committed version.
    pub open spec fn synced(self, store: StateStore) -> bool {
        &&& self.worker.progress == store.progress
        &&& forall|i: int|
            0 <= i < self.pending@.len() ==> (#[trigger] self.pending@[i]) is Prune && (
            self.pending@[i]->least_readable_version as int) < store.num_versions
    }

    /// Constructs the controller for `store`, resuming the watermark from the
    /// store's persisted state, with a running worker and an empty queue.
    pub fn new(store: &StateStore, num_historical_versions_to_keep: u64) -> (pruner: Pruner)
        requires
            store.inv(),
        ensures
            pruner.synced(*store),
            pruner.num_historical_versions_to_keep == num_historical_versions_to_keep,
            pruner.worker.progress == store.progress,
            !pruner.worker.stopped,
            pruner.pending@.len() == 0,
    {
        Pruner {
            num_historical_versions_to_keep,
            worker: Worker::new(store.progress),
            pending: Vec::new(),
        }
    }

    /// Fire-and-forget trigger: computes the target floor for
    /// `latest_version` and enqueues a `Prune`, without waiting for it. Fails
    /// exactly when the worker has stopped.
    pub fn wake(&mut self, store: &StateStore, latest_version: u64) -> (r: Result<(), Error>)
        requires
            old(self).synced(*store),
            (latest_version as int) < store.num_versions,
        ensures
            final(self).synced(*store),
            final(self).worker == old(self).worker,
            final(self).num_historical_versions_to_keep == old(
                self,
            ).num_historical_versions_to_keep,
            r is Ok <==> !old(self).worker.stopped,
            old(self).worker.stopped ==> *final(self) == *old(self) && r == Err::<(), Error>(
                Error::ChannelClosed,
            ),
            !old(self).worker.stopped ==> final(self).pending@ == old(self).pending@.push(
                Command::Prune {
                    least_readable_version: prune_target(
                        latest_version,
                        old(self).num_historical_versions_to_keep,
                    ),
                },
            ) && r == Ok::<(), Error>(()),
    {
        if self.worker.stopped {
            return Err(Error::ChannelClosed);
        }
        let target = if latest_version >= self.num_historical_versions_to_keep {
            latest_version - self.num_historical_versions_to_keep
        } else {
            0
        };
        self.pending.push(Command::Prune { least_readable_version: target });
        Ok(())
    }

    /// Synchronous trigger: computes `target = latest_version` minus the
    /// retention window (saturating at zero). If `target` is not strictly
    /// greater than the current watermark, returns at once — a successful
    /// no-op, with no deletion re-executed. Otherwise enqueues the `Prune`,
    /// lets the worker drain everything queued, and returns once the watermark
    /// has reached `target`. Fails exactly when a send would be needed but the
    /// worker has stopped.
    pub fn wake_and_wait(&mut self, store: &mut StateStore, latest_version: u64) -> (r: Result<
        (),
        Error,
    >)
        requires
            old(store).inv(),
            old(self).synced(*old(store)),
            (latest_version as int) < old(store).num_versions,
        ensures
            final(store).inv(),
            final(self).synced(*final(store)),
            final(store).history@ == old(store).history@,
            final(store).num_versions == old(store).num_versions,
            final(self).num_historical_versions_to_keep == old(
                self,
            ).num_historical_versions_to_keep,
            final(self).worker.stopped == old(self).worker.stopped,
            final(self).worker.progress >= old(self).worker.progress,
            ({
                let target = prune_target(latest_version, old(self).num_historical_versions_to_keep);
                &&& (r is Ok <==> (target <= old(self).worker.progress || !old(
                    self,
                ).worker.stopped))
                &&& (target <= old(self).worker.progress ==> *final(self) == *old(self)
                    && *final(store) == *old(store) && r == Ok::<(), Error>(()))
                &&& (target > old(self).worker.progress && old(self).worker.stopped
                    ==> *final(self) == *old(self) && *final(store) == *old(store) && r == Err::<
                    (),
                    Error,
                >(Error::ChannelClosed))
                &&& (target > old(self).worker.progress && !old(self).worker.stopped ==> {
                    let batch = old(self).pending@.push(
                        Command::Prune { least_readable_version: target },
                    );
                    &&& final(self).worker.progress == new_progress(
                        old(self).worker.progress,
                        batch,
                    )
                    &&& final(self).worker.progress >= target
                    &&& final(self).pending@.len() == 0
                    &&& r == Ok::<(), Error>(())
                })
            }),
    {
        let target = if latest_version >= self.num_historical_versions_to_keep {
            latest_version - self.num_historical_versions_to_keep
        } else {
            0
        };
        if target <= self.worker.progress {
            return Ok(());
        }
        if self.worker.stopped {
            return Err(Error::ChannelClosed);
        }
        self.pending.push(Command::Prune { least_readable_version: target });
        let ghost batch = self.pending@;
        proof {
            assert(!has_quit(batch)) by {
                if has_quit(batch) {
                    let k = choose|k: int| 0 <= k < batch.len() && batch[k] is Quit;
                    assert(batch[k] is Prune);
                }
            }
            assert(batch[batch.len() - 1] is Prune);
            lemma_max_target_ge(batch, batch.len() - 1);
        }
        self.worker.work_loop(store, &self.pending);
        self.pending = Vec::new();
        Ok(())
    }

    /// Shuts the worker down, discarding any queued pruning work (eager quit:
    /// shutdown never waits for background deletions). Idempotent and always
    /// reachable; the store is left untouched.
    pub fn quit(&mut self, store: &mut StateStore)
        requires
            old(store).inv(),
            old(self).synced(*old(store)),
        ensures
            final(store).inv(),
            *final(store) == *old(store),
            final(self).synced(*final(store)),
            final(self).worker.stopped,
            final(self).worker.progress == old(self).worker.progress,
            final(self).pending@.len() == 0,
            final(self).num_historical_versions_to_keep == old(
                self,
            ).num_historical_versions_to_keep,
    {
        if self.worker.stopped {
            self.pending = Vec::new();
            return ;
        }
        self.pending.push(Command::Quit);
        let ghost batch = self.pending@;
        proof {
            assert(batch[batch.len() - 1] is Quit);
            assert(has_quit(batch));
        }
        self.worker.work_loop(store, &self.pending);
        self.pending = Vec::new();
    }

    /// The published progress watermark: pruning has completed up to here.
    pub fn progress(&self) -> (r: u64)
        ensures
            r == self.worker.progress,
    {
        self.worker.progress
    }
}

} // verus!
