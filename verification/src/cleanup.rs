use bevy::asset::StrongHandle;
use std::sync::Arc;
use vstd::prelude::*;

use crate::handles;
use crate::ids::{PostProcessKey, SceneId};
use crate::jobs;
use crate::laws;
use crate::registry;
use crate::registry::{RegisteredPostProcessActions, Targets};
use crate::seqs;
use crate::tables;
use crate::tables::ScenePostProcessTasks;

verus! {

/// The targets once `key` is no longer registered. A scene that nothing is processed
/// into any more is forgotten, and with it the handle that kept it alive.
pub open spec fn without(targets: Map<SceneId, Targets>, key: PostProcessKey) -> Map<
    SceneId,
    Targets,
> {
    let left = targets[key.unprocessed_id].actions.remove(key.processed_id);
    if !registry::registered(targets, key) {
        targets
    } else if exists|output: SceneId| left.contains_key(output) {
        targets.insert(
            key.unprocessed_id,
            Targets { handle: targets[key.unprocessed_id].handle, actions: left },
        )
    } else {
        targets.remove(key.unprocessed_id)
    }
}

/// The processed scenes of `id` that are not dropped.
pub open spec fn kept_outputs(
    targets: Map<SceneId, Targets>,
    dropped: Set<PostProcessKey>,
    id: SceneId,
) -> Set<SceneId> {
    Set::new(
        |output: SceneId|
            targets[id].actions.contains_key(output) && !dropped.contains(
                PostProcessKey { unprocessed_id: id, processed_id: output },
            ),
    )
}

/// The targets once nothing in `dropped` is registered any more: every other registration
/// is kept as it was, and a scene that nothing is processed into any more is forgotten.
pub open spec fn without_all(
    targets: Map<SceneId, Targets>,
    dropped: Set<PostProcessKey>,
) -> Map<SceneId, Targets> {
    Map::new(
        |id: SceneId|
            targets.contains_key(id) && exists|output: SceneId|
                kept_outputs(targets, dropped, id).contains(output),
        |id: SceneId|
            Targets {
                handle: targets[id].handle,
                actions: targets[id].actions.restrict(kept_outputs(targets, dropped, id)),
            },
    )
}

/// Dropping one more registration after the others is the same as dropping all of them.
proof fn lemma_without_after_all(
    targets: Map<SceneId, Targets>,
    dropped: Set<PostProcessKey>,
    key: PostProcessKey,
)
    requires
        registry::consistent(targets),
    ensures
        without(without_all(targets, dropped), key) == without_all(targets, dropped.insert(key)),
{
    let before = without_all(targets, dropped);
    let after = without_all(targets, dropped.insert(key));
    let uid = key.unprocessed_id;
    assert forall|id: SceneId| id != uid implies kept_outputs(targets, dropped, id)
        == kept_outputs(targets, dropped.insert(key), id) by {
        assert(kept_outputs(targets, dropped, id) =~= kept_outputs(
            targets,
            dropped.insert(key),
            id,
        ));
    }
    let kept = kept_outputs(targets, dropped, uid);
    let kept_after = kept_outputs(targets, dropped.insert(key), uid);
    assert(kept_after =~= kept.remove(key.processed_id));
    assert forall|id: SceneId| id != uid implies #[trigger] before.contains_key(id)
        == after.contains_key(id) && (before.contains_key(id) ==> before[id] == after[id]) by {
        assert(kept_outputs(targets, dropped, id) == kept_outputs(
            targets,
            dropped.insert(key),
            id,
        ));
    }
    if registry::registered(before, key) {
        let left = before[uid].actions.remove(key.processed_id);
        assert(left =~= targets[uid].actions.restrict(kept_after));
        if exists|output: SceneId| left.contains_key(output) {
            let output = choose|output: SceneId| left.contains_key(output);
            assert(kept_after.contains(output));
            assert(after.contains_key(uid));
            assert(after[uid] == Targets { handle: before[uid].handle, actions: left });
            assert(without(before, key) =~= after);
        } else {
            assert forall|output: SceneId| !#[trigger] kept_after.contains(output) by {
                assert(!left.contains_key(output));
            }
            assert(!after.contains_key(uid));
            assert(without(before, key) =~= after);
        }
    } else {
        if targets.contains_key(uid) {
            if kept.contains(key.processed_id) {
                assert(before.contains_key(uid));
                assert(before[uid].actions.contains_key(key.processed_id));
            }
            assert(kept_after =~= kept);
        }
        assert(before.contains_key(uid) == after.contains_key(uid));
        assert(before =~= after);
    }
}

/// Where nothing is dropped, everything stays registered.
proof fn lemma_without_none(targets: Map<SceneId, Targets>)
    requires
        registry::consistent(targets),
    ensures
        without_all(targets, Set::empty()) == targets,
{
    let after = without_all(targets, Set::empty());
    assert forall|id: SceneId| #[trigger] targets.contains_key(id) implies after.contains_key(id)
        && after[id] == targets[id] by {
        let output = choose|output: SceneId| targets[id].actions.contains_key(output);
        assert(kept_outputs(targets, Set::empty(), id) =~= targets[id].actions.dom());
        assert(kept_outputs(targets, Set::empty(), id).contains(output));
        assert(targets[id].actions.restrict(targets[id].actions.dom()) =~= targets[id].actions);
    }
    assert(after =~= targets);
}

/// Exactly what is dropped is no longer registered.
pub proof fn lemma_registered_without_all(
    targets: Map<SceneId, Targets>,
    dropped: Set<PostProcessKey>,
    key: PostProcessKey,
)
    ensures
        registry::registered(without_all(targets, dropped), key) == (registry::registered(
            targets,
            key,
        ) && !dropped.contains(key)),
{
    let kept = kept_outputs(targets, dropped, key.unprocessed_id);
    assert(key == PostProcessKey {
        unprocessed_id: key.unprocessed_id,
        processed_id: key.processed_id,
    });
    if registry::registered(targets, key) && !dropped.contains(key) {
        assert(kept.contains(key.processed_id));
    }
}

/// The registered keys among `dropped`.
pub open spec fn registered_among(
    targets: Map<SceneId, Targets>,
    dropped: Set<PostProcessKey>,
) -> Set<PostProcessKey> {
    Set::new(|key: PostProcessKey| dropped.contains(key) && registry::registered(targets, key))
}

/// Whether the handles of the registrations `unused` have been found dropped, and those of
/// all other registrations in use.
pub open spec fn seen_unused(
    targets: Map<SceneId, Targets>,
    unused: Set<PostProcessKey>,
) -> bool {
    forall|key: PostProcessKey| #[trigger]
        registry::registered(targets, key) ==> handles::seen_in_use(
            registry::action_of(targets, key).processed_handle,
            !unused.contains(key),
        )
}

impl RegisteredPostProcessActions {
    /// Forgets the registration `key` and cancels its task.
    pub fn drop_output(&mut self, tasks: &mut ScenePostProcessTasks, key: PostProcessKey)
        ensures
            final(self).targets() == without(old(self).targets(), key),
            final(self).ready() == old(self).ready(),
            tables::task_table(*final(tasks)) == (if registry::registered(
                old(self).targets(),
                key,
            ) {
                tables::task_table(*old(tasks)).remove(key)
            } else {
                tables::task_table(*old(tasks))
            }),
    {
        let ghost before = self.targets();
        match self.unprocessed_to_targets.remove(key.unprocessed_id) {
            None => {
                assert(self.targets() =~= before);
            },
            Some(targets) => {
                let mut targets = targets;
                if targets.processed_to_action.get(key.processed_id).is_none() {
                    self.unprocessed_to_targets.insert(key.unprocessed_id, targets);
                    assert(self.targets() =~= before);
                } else {
                    targets.processed_to_action.remove(key.processed_id);
                    // Just let the task drop to cancel it.
                    let _ = tasks.remove(key);
                    let left = targets.processed_to_action.keys();
                    assert(left@.to_set() == before[key.unprocessed_id].actions.remove(
                        key.processed_id,
                    ).dom());
                    if left.len() > 0 {
                        assert(left@.to_set().contains(left@[0]));
                        self.unprocessed_to_targets.insert(key.unprocessed_id, targets);
                        assert(self.targets() =~= without(before, key));
                    } else {
                        let ghost kept = before[key.unprocessed_id].actions.remove(
                            key.processed_id,
                        );
                        assert forall|output: SceneId| !#[trigger] kept.contains_key(output) by {
                            assert(!left@.to_set().contains(output));
                        }
                        assert(self.targets() =~= without(before, key));
                    }
                }
            },
        }
    }

    /// Forgets the registrations `dropped` and cancels their tasks.
    pub fn drop_outputs(
        &mut self,
        tasks: &mut ScenePostProcessTasks,
        dropped: &Vec<PostProcessKey>,
    )
        requires
            registry::consistent(old(self).targets()),
        ensures
            final(self).targets() == without_all(old(self).targets(), dropped@.to_set()),
            final(self).ready() == old(self).ready(),
            tables::task_table(*final(tasks)) == tables::task_table(*old(tasks)).remove_keys(
                registered_among(old(self).targets(), dropped@.to_set()),
            ),
    {
        let ghost before = self.targets();
        let ghost running = tables::task_table(*tasks);
        proof {
            lemma_without_none(before);
            assert(dropped@.take(0).to_set() =~= Set::empty());
            assert(running.remove_keys(registered_among(before, Set::empty())) =~= running);
        }
        let mut i: usize = 0;
        while i < dropped.len()
            invariant
                i <= dropped.len(),
                registry::consistent(before),
                self.targets() == without_all(before, dropped@.take(i as int).to_set()),
                self.ready() == old(self).ready(),
                tables::task_table(*tasks) == running.remove_keys(
                    registered_among(before, dropped@.take(i as int).to_set()),
                ),
            decreases dropped.len() - i,
        {
            let key = dropped[i];
            proof {
                let done = dropped@.take(i as int).to_set();
                seqs::lemma_take_one_more(dropped@, i as int);
                lemma_without_after_all(before, done, key);
                lemma_registered_without_all(before, done, key);
                let removed = registered_among(before, done.insert(key));
                if registry::registered(self.targets(), key) {
                    assert(running.remove_keys(registered_among(before, done)).remove(key)
                        =~= running.remove_keys(removed));
                } else {
                    assert(registered_among(before, done) =~= removed);
                }
            }
            self.drop_output(tasks, key);
            i = i + 1;
        }
        assert(dropped@.take(i as int) =~= dropped@);
    }

    /// The registrations whose processed scene nobody holds a handle to any more.
    fn unused_outputs(&self) -> (unused: Vec<PostProcessKey>)
        ensures
            registered_among(self.targets(), unused@.to_set()) == unused@.to_set(),
            seen_unused(self.targets(), unused@.to_set()),
    {
        let mut unused: Vec<PostProcessKey> = Vec::new();
        let ids = self.unprocessed_to_targets.keys();
        let mut i: usize = 0;
        while i < ids.len()
            invariant
                i <= ids.len(),
                ids@.no_duplicates(),
                ids@.to_set() == self.targets().dom(),
                forall|key: PostProcessKey| #[trigger]
                    unused@.contains(key) ==> registry::registered(self.targets(), key)
                        && ids@.take(i as int).to_set().contains(key.unprocessed_id),
                forall|key: PostProcessKey| #[trigger]
                    registry::registered(self.targets(), key) && ids@.take(
                        i as int,
                    ).to_set().contains(key.unprocessed_id) ==> handles::seen_in_use(
                        registry::action_of(self.targets(), key).processed_handle,
                        !unused@.contains(key),
                    ),
            decreases ids.len() - i,
        {
            let unprocessed_id = ids[i];
            proof {
                seqs::lemma_take_one_more(ids@, i as int);
                assert(ids@.to_set().contains(unprocessed_id));
            }
            let targets = self.unprocessed_to_targets.get(unprocessed_id).unwrap();
            let outputs = targets.processed_to_action.keys();
            let mut k: usize = 0;
            while k < outputs.len()
                invariant
                    k <= outputs.len(),
                    outputs@.no_duplicates(),
                    outputs@.to_set() == targets@.actions.dom(),
                    self.targets().contains_key(unprocessed_id),
                    self.targets()[unprocessed_id] == targets@,
                    !ids@.take(i as int).to_set().contains(unprocessed_id),
                    forall|key: PostProcessKey| #[trigger]
                        unused@.contains(key) ==> registry::registered(self.targets(), key) && (
                        ids@.take(i as int).to_set().contains(key.unprocessed_id) || (
                        key.unprocessed_id == unprocessed_id && outputs@.take(
                            k as int,
                        ).to_set().contains(key.processed_id))),
                    forall|key: PostProcessKey| #[trigger]
                        registry::registered(self.targets(), key) && (ids@.take(
                            i as int,
                        ).to_set().contains(key.unprocessed_id) || (key.unprocessed_id
                            == unprocessed_id && outputs@.take(k as int).to_set().contains(
                            key.processed_id,
                        ))) ==> handles::seen_in_use(
                            registry::action_of(self.targets(), key).processed_handle,
                            !unused@.contains(key),
                        ),
                decreases outputs.len() - k,
            {
                let processed_id = outputs[k];
                let key = PostProcessKey { unprocessed_id, processed_id };
                proof {
                    seqs::lemma_take_one_more(outputs@, k as int);
                    assert(outputs@.to_set().contains(processed_id));
                    assert(registry::registered(self.targets(), key));
                    assert(!unused@.contains(key));
                }
                let action = targets.processed_to_action.get(processed_id).unwrap();
                let ghost before = unused@;
                if action.processed_handle.strong_count() == 0 {
                    unused.push(key);
                    assert(unused@[before.len() as int] == key);
                    assert forall|other: PostProcessKey| other != key implies #[trigger]
                        unused@.contains(other) == before.contains(other) by {
                        if before.contains(other) {
                            assert(unused@[before.index_of(other)] == other);
                        }
                    }
                }
                k = k + 1;
            }
            proof {
                assert(outputs@.take(k as int) =~= outputs@);
                assert forall|key: PostProcessKey|
                    registry::registered(self.targets(), key) && key.unprocessed_id
                        == unprocessed_id implies #[trigger] outputs@.take(
                    k as int,
                ).to_set().contains(key.processed_id) by {}
            }
            i = i + 1;
        }
        proof {
            assert(ids@.take(i as int) =~= ids@);
            assert(registered_among(self.targets(), unused@.to_set()) =~= unused@.to_set());
        }
        unused
    }
}

/// Looks through all the processed scene handles, and drops those registrations whose
/// handle is no longer used, together with their tasks.
///
/// Whether a handle is still used depends on who holds it at that moment. What is stated
/// holds whichever handles those are.
pub fn drop_unused_scenes(
    intermediate: &mut RegisteredPostProcessActions,
    post_process_tasks: &mut ScenePostProcessTasks,
)
    requires
        registry::consistent(old(intermediate).targets()),
    ensures
        exists|dropped: Set<PostProcessKey>|
            {
                &&& registered_among(old(intermediate).targets(), dropped) == dropped
                &&& seen_unused(old(intermediate).targets(), dropped)
                &&& final(intermediate).targets() == #[trigger] without_all(
                    old(intermediate).targets(),
                    dropped,
                )
                &&& tables::task_table(*final(post_process_tasks)) == tables::task_table(
                    *old(post_process_tasks),
                ).remove_keys(dropped)
            },
        final(intermediate).ready() == old(intermediate).ready(),
        registry::consistent(final(intermediate).targets()),
        forall|slots: Set<Arc<StrongHandle>>| #[trigger]
            registry::storable(old(intermediate).targets(), slots) ==> registry::storable(
                final(intermediate).targets(),
                slots,
            ),
        jobs::tasks_return(tables::task_table(*old(post_process_tasks))) ==> jobs::tasks_return(
            tables::task_table(*final(post_process_tasks)),
        ),
{
    let ghost before = intermediate.targets();
    let ghost running = tables::task_table(*post_process_tasks);
    let unused = intermediate.unused_outputs();
    intermediate.drop_outputs(post_process_tasks, &unused);
    proof {
        laws::law_dropping_keeps_consistency(before, unused@.to_set(), Set::empty());
        assert forall|slots: Set<Arc<StrongHandle>>| #[trigger]
            registry::storable(before, slots) implies registry::storable(
            intermediate.targets(),
            slots,
        ) by {
            laws::law_dropping_keeps_consistency(before, unused@.to_set(), slots);
        }
        let left = tables::task_table(*post_process_tasks);
        assert forall|key: PostProcessKey| #[trigger]
            jobs::tasks_return(running) && left.contains_key(key) implies jobs::task_returns(
            left[key],
        ) by {
            assert(running.contains_key(key));
        }
    }
}

} // verus!
