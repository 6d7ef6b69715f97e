//! The background worker: consumes pruning commands, coalesces each drained
//! batch into one effective decision (shutdown wins over everything, otherwise
//! only the greatest requested target matters), and executes at most one
//! deletion pass per batch.

use vstd::prelude::*;

use crate::store::StateStore;

verus! {

/// The protocol between the controller and the worker.
#[derive(Clone, Copy, Debug, PartialEq, Eq, Structural)]
pub enum Command {
    /// Delete everything only reachable from versions below
    /// `least_readable_version`.
    Prune { least_readable_version: u64 },
    /// Shut the worker down, discarding any queued pruning work.
    Quit,
}

/// Does the drained batch ask for a shutdown?
pub open spec fn has_quit(batch: Seq<Command>) -> bool {
    exists|i: int| 0 <= i < batch.len() && batch[i] is Quit
}

/// The greatest target among the batch's `Prune` commands, if any. A
/// `Prune(v2)` with `v2 >= v1` deletes a superset of what `Prune(v1)` would, so
/// smaller targets are redundant.
pub open spec fn max_prune_target(batch: Seq<Command>) -> Option<u64>
    decreases batch.len(),
{
    if batch.len() == 0 {
        None
    } else {
        let rest = max_prune_target(batch.drop_last());
        match batch.last() {
            Command::Quit => rest,
            Command::Prune { least_readable_version: v } => match rest {
                None => Some(v),
                Some(m) => Some(if v > m { v } else { m }),
            },
        }
    }
}

/// The watermark after the worker handles one drained batch starting from
/// watermark `p`: unchanged on shutdown or when no greater target was asked
/// for, else the greatest requested target.
pub open spec fn new_progress(p: u64, batch: Seq<Command>) -> u64 {
    if has_quit(batch) {
        p
    } else {
        match max_prune_target(batch) {
            None => p,
            Some(t) => if t > p {
                t
            } else {
                p
            },
        }
    }
}

/// The greatest target is one of the batch's `Prune` commands.
pub proof fn lemma_max_target_in_batch(batch: Seq<Command>)
    requires
        max_prune_target(batch) is Some,
    ensures
        exists|i: int|
            0 <= i < batch.len() && batch[i] == (Command::Prune {
                least_readable_version: max_prune_target(batch)->Some_0,
            }),
    decreases batch.len(),
{
    let t = max_prune_target(batch)->Some_0;
    let rest = max_prune_target(batch.drop_last());
    match batch.last() {
        Command::Quit => {
            lemma_max_target_in_batch(batch.drop_last());
            let i = choose|i: int|
                0 <= i < batch.drop_last().len() && batch.drop_last()[i] == (Command::Prune {
                    least_readable_version: t,
                });
            assert(batch[i] == (Command::Prune { least_readable_version: t }));
        },
        Command::Prune { least_readable_version: v } => {
            if rest is Some && rest->Some_0 > v {
                lemma_max_target_in_batch(batch.drop_last());
                let i = choose|i: int|
                    0 <= i < batch.drop_last().len() && batch.drop_last()[i] == (Command::Prune {
                        least_readable_version: t,
                    });
                assert(batch[i] == (Command::Prune { least_readable_version: t }));
            } else {
                assert(batch[batch.len() - 1] == (Command::Prune { least_readable_version: t }));
            }
        },
    }
}

/// Folds a drained batch into the effective decision: whether a shutdown was
/// requested, and the greatest requested pruning target.
pub fn select_effective(batch: &Vec<Command>) -> (r: (bool, Option<u64>))
    ensures
        r.0 == has_quit(batch@),
        r.1 == max_prune_target(batch@),
{
    let mut quit = false;
    let mut maxt: Option<u64> = None;
    let mut i: usize = 0;
    proof {
        assert(batch@.take(0) =~= Seq::<Command>::empty());
    }
    while i < batch.len()
        invariant
            i <= batch@.len(),
            quit == has_quit(batch@.take(i as int)),
            maxt == max_prune_target(batch@.take(i as int)),
        decreases batch@.len() - i,
    {
        let ghost pre = batch@.take(i as int);
        let ghost post = batch@.take(i as int + 1);
        proof {
            assert(post.drop_last() =~= pre);
            assert(post.last() == batch@[i as int]);
        }
        match batch[i] {
            Command::Quit => {
                quit = true;
                proof {
                    assert(post[i as int] is Quit);
                    assert(has_quit(post));
                }
            },
            Command::Prune { least_readable_version: v } => {
                maxt = match maxt {
                    None => Some(v),
                    Some(m) => if v > m {
                        Some(v)
                    } else {
                        Some(m)
                    },
                };
                proof {
                    if quit {
                        let k = choose|k: int| 0 <= k < pre.len() && pre[k] is Quit;
                        assert(post[k] is Quit);
                    } else {
                        if has_quit(post) {
                            let k = choose|k: int| 0 <= k < post.len() && post[k] is Quit;
                            assert(k < pre.len() ==> pre[k] is Quit);
                        }
                    }
                }
            },
        }
        proof {
            if quit && !has_quit(post) {
                let k = choose|k: int| 0 <= k < pre.len() && pre[k] is Quit;
                assert(post[k] is Quit);
            }
        }
        i += 1;
    }
    proof {
        assert(batch@.take(batch@.len() as int) =~= batch@);
    }
    (quit, maxt)
}

/// The single background worker. It owns the deletion path: the progress
/// watermark is written here and nowhere else, and it only ever advances.
pub struct Worker {
    /// The published watermark: pruning has completed up to this version.
    pub progress: u64,
    /// `Stopped` is terminal: entered on `Quit` (or a fatal deletion failure),
    /// after which no further deletion work is attempted.
    pub stopped: bool,
}

impl Worker {
    /// A running worker, resuming from a persisted watermark.
    pub fn new(progress: u64) -> (w: Worker)
        ensures
            w.progress == progress,
            !w.stopped,
    {
        Worker { progress, stopped: false }
    }

    /// Every `Prune` command targets a committed version of the store.
    pub open spec fn batch_ok(batch: Seq<Command>, store: StateStore) -> bool {
        forall|i: int|
            0 <= i < batch.len() ==> ((#[trigger] batch[i]) is Prune
                ==> (batch[i]->least_readable_version as int) < store.num_versions)
    }

    /// Handles one drained batch of commands. If any command is `Quit`, the
    /// worker discards every `Prune` in the batch — even ones ahead of `Quit`
    /// in enqueue order — and stops without deleting anything: skipped pruning
    /// is always safe, and is retried from the persisted watermark on the next
    /// start. Otherwise only the greatest requested target matters, and one
    /// deletion pass runs if and only if it exceeds the current watermark.
    pub fn work_loop(&mut self, store: &mut StateStore, commands: &Vec<Command>)
        requires
            old(store).inv(),
            !old(self).stopped,
            old(self).progress == old(store).progress,
            Worker::batch_ok(commands@, *old(store)),
        ensures
            final(store).inv(),
            final(store).history@ == old(store).history@,
            final(store).num_versions == old(store).num_versions,
            final(self).progress == new_progress(old(self).progress, commands@),
            final(self).progress == final(store).progress,
            final(self).progress >= old(self).progress,
            final(self).stopped == has_quit(commands@),
            has_quit(commands@) ==> *final(store) == *old(store) && final(self).progress == old(
                self,
            ).progress,
            new_progress(old(self).progress, commands@) == old(self).progress ==> *final(store)
                == *old(store),
    {
        let (quit, maxt) = select_effective(commands);
        if quit {
            self.stopped = true;
            return ;
        }
        match maxt {
            None => {},
            Some(target) => {
                if target > self.progress {
                    proof {
                        lemma_max_target_in_batch(commands@);
                        let i = choose|i: int|
                            0 <= i < commands@.len() && commands@[i] == (Command::Prune {
                                least_readable_version: target,
                            });
                        assert(commands@[i] is Prune);
                    }
                    let entries = store.stale_node_entries_up_to(target);
                    match store.delete_batch(entries, target) {
                        Ok(()) => {
                            self.progress = target;
                        },
                        Err(_) => {
                            // a deletion failure is fatal: stop rather than
                            // retry or publish partial progress
                            self.stopped = true;
                        },
                    }
                }
            },
        }
    }
}

/// No `Prune` command of the batch asks for more than the greatest target.
pub proof fn lemma_max_target_ge(batch: Seq<Command>, i: int)
    requires
        0 <= i < batch.len(),
        batch[i] is Prune,
    ensures
        max_prune_target(batch) is Some,
        batch[i]->least_readable_version <= max_prune_target(batch)->Some_0,
    decreases batch.len(),
{
    if i == batch.len() - 1 {
        assert(batch.last() == batch[i]);
    } else {
        lemma_max_target_ge(batch.drop_last(), i);
    }
}

} // verus!
