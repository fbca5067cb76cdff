use bevy::asset::StrongHandle;
use bevy::prelude::AppTypeRegistry;
use bevy::scene::{Scene, SceneSpawnError};
use bevy::tasks::AsyncComputeTaskPool;
use std::sync::Arc;
use vstd::prelude::*;

use crate::actions;
use crate::handles;
use crate::handles::SceneHandle;
use crate::ids;
use crate::ids::{PostProcessKey, SceneEvent, SceneId};
use crate::jobs;
use crate::jobs::{SceneJob, SceneTask};
use crate::registry;
use crate::registry::{
    PostProcessAction, ProcessingTargets, RegisteredPostProcessActions, Targets,
};
use crate::scenes;
use crate::scenes::SceneStore;
use crate::seqs;
use crate::tables;
use crate::tables::{ScenePostProcessTasks, SceneSet};

verus! {

/// What changes while the events of a frame are handled.
#[verifier::ext_equal]
pub struct WatchState {
    /// The stored scenes.
    pub scenes: Map<SceneId, Scene>,
    /// The running tasks.
    pub tasks: Map<PostProcessKey, SceneTask>,
    /// Why scenes could not be copied.
    pub failures: Seq<SceneSpawnError>,
    /// What has happened to the stored scenes and was not sent yet.
    pub events: Seq<SceneEvent>,
}

/// The keys under which `id` is processed into one of `outputs`.
pub open spec fn keys_of(id: SceneId, outputs: Set<SceneId>) -> Set<PostProcessKey> {
    Set::new(
        |key: PostProcessKey| key.unprocessed_id == id && outputs.contains(key.processed_id),
    )
}

/// Whether `task` applies `action` to a copy of `scene`.
pub open spec fn processes(
    task: SceneTask,
    scene: Scene,
    type_registry: AppTypeRegistry,
    action: PostProcessAction,
) -> bool {
    &&& jobs::task_start(task).0 == action.actions@
    &&& scenes::clone_may(scene, type_registry, Some(Ok(jobs::task_start(task).1)))
}

/// Whether each of the tasks that process `id` into `begun` works on a copy of `scene`, and
/// all other tasks are as they were.
pub open spec fn begun_tasks(
    id: SceneId,
    targets: Targets,
    scene: Scene,
    type_registry: AppTypeRegistry,
    begun: Set<SceneId>,
    before: Map<PostProcessKey, SceneTask>,
    after: Map<PostProcessKey, SceneTask>,
) -> bool {
    &&& after.remove_keys(keys_of(id, begun)) == before.remove_keys(keys_of(id, begun))
    &&& forall|key: PostProcessKey| #[trigger]
        keys_of(id, begun).contains(key) ==> {
            &&& after.contains_key(key)
            &&& processes(after[key], scene, type_registry, targets.actions[key.processed_id])
        }
}

/// Whether the handles of the processed scenes `used` have been found in use, and those
/// of the others dropped.
pub open spec fn seen_used(targets: Targets, used: Set<SceneId>) -> bool {
    forall|output: SceneId| #[trigger]
        targets.actions.contains_key(output) ==> handles::seen_upgraded(
            targets.actions[output].processed_handle,
            used.contains(output),
        )
}

/// How a change of a scene that is not stored any more is handled: all its tasks are
/// cancelled, and of its processed scenes those leave, in some order, whose handle is still
/// in use. (Bevy removes the others itself.)
pub open spec fn missing_step(
    id: SceneId,
    targets: Targets,
    before: WatchState,
    after: WatchState,
) -> bool {
    &&& after.tasks == before.tasks.remove_keys(keys_of(id, targets.actions.dom()))
    &&& after.failures == before.failures
    &&& exists|used: Seq<SceneId>|
        {
            &&& used.to_set().subset_of(targets.actions.dom())
            &&& seen_used(targets, used.to_set())
            &&& after.scenes == before.scenes.remove_keys(used.to_set())
            &&& after.events == before.events + #[trigger] scenes::removal_events(
                before.scenes,
                used,
            )
        }
}

/// How a change of a stored scene is handled where copies of it can be made: a task on a
/// copy is begun for each processed scene, in place of the one that there was.
pub open spec fn begun_step(
    id: SceneId,
    targets: Targets,
    scene: Scene,
    type_registry: AppTypeRegistry,
    before: WatchState,
    after: WatchState,
) -> bool {
    &&& begun_tasks(
        id,
        targets,
        scene,
        type_registry,
        targets.actions.dom(),
        before.tasks,
        after.tasks,
    )
    &&& after.scenes == before.scenes
    &&& after.failures == before.failures
    &&& after.events == before.events
}

/// How a change of a stored scene is handled where a copy of it could not be made: the
/// processed scenes leave, in some order, and all their tasks are cancelled.
pub open spec fn uncopied_step(
    id: SceneId,
    targets: Targets,
    scene: Scene,
    type_registry: AppTypeRegistry,
    before: WatchState,
    after: WatchState,
) -> bool {
    &&& after.tasks == before.tasks.remove_keys(keys_of(id, targets.actions.dom()))
    &&& after.scenes == before.scenes.remove_keys(targets.actions.dom())
    &&& exists|error: SceneSpawnError|
        {
            &&& scenes::clone_may(scene, type_registry, Some(Err(error)))
            &&& after.failures == #[trigger] before.failures.push(error)
        }
    &&& exists|outputs: Seq<SceneId>|
        {
            &&& outputs.to_set() == targets.actions.dom()
            &&& after.events == before.events + #[trigger] scenes::removal_events(
                before.scenes,
                outputs,
            )
        }
}

/// How a change of the stored scene `scene` is handled.
pub open spec fn present_step(
    id: SceneId,
    targets: Targets,
    scene: Scene,
    type_registry: AppTypeRegistry,
    before: WatchState,
    after: WatchState,
) -> bool {
    ||| begun_step(id, targets, scene, type_registry, before, after)
    ||| uncopied_step(id, targets, scene, type_registry, before, after)
}

/// How a change of the scene `id` is handled.
pub open spec fn scene_step(
    targets: Map<SceneId, Targets>,
    type_registry: AppTypeRegistry,
    id: SceneId,
    before: WatchState,
    after: WatchState,
) -> bool {
    if !targets.contains_key(id) {
        after == before
    } else if !before.scenes.contains_key(id) {
        missing_step(id, targets[id], before, after)
    } else {
        present_step(id, targets[id], before.scenes[id], type_registry, before, after)
    }
}

/// How changes of the scenes `order` are handled, one after the other.
pub open spec fn scene_steps(
    targets: Map<SceneId, Targets>,
    type_registry: AppTypeRegistry,
    order: Seq<SceneId>,
    before: WatchState,
    after: WatchState,
) -> bool
    decreases order.len(),
{
    if order.len() == 0 {
        after == before
    } else {
        exists|between: WatchState|
            {
                &&& scene_steps(targets, type_registry, order.drop_last(), before, between)
                &&& #[trigger] scene_step(targets, type_registry, order.last(), between, after)
            }
    }
}

/// Whether none of the scenes `changed` that is registered and stored makes copying it, or
/// the actions on a copy, panic.
pub open spec fn processable(
    targets: Map<SceneId, Targets>,
    stored: Map<SceneId, Scene>,
    type_registry: AppTypeRegistry,
    changed: Set<SceneId>,
) -> bool {
    forall|id: SceneId| #[trigger]
        changed.contains(id) && targets.contains_key(id) && stored.contains_key(id)
            ==> scene_processable(targets[id], stored[id], type_registry)
}

/// Whether neither copying `scene` nor the actions of `targets` on a copy panic.
pub open spec fn scene_processable(
    targets: Targets,
    scene: Scene,
    type_registry: AppTypeRegistry,
) -> bool {
    &&& !scenes::clone_may(scene, type_registry, None)
    &&& forall|copy: Scene, output: SceneId|
        {
            &&& scenes::clone_may(scene, type_registry, Some(Ok(copy)))
            &&& #[trigger] targets.actions.contains_key(output)
        } ==> #[trigger] actions::run_returns(targets.actions[output].actions@, copy)
}

/// What is stored and running, and why scenes could not be copied.
pub open spec fn watch_state(
    stored: SceneStore<'_>,
    post_process_tasks: ScenePostProcessTasks,
    failures: Vec<SceneSpawnError>,
) -> WatchState {
    WatchState {
        scenes: scenes::stored_scenes(stored),
        tasks: tables::task_table(post_process_tasks),
        failures: failures@,
        events: scenes::queued_events(stored),
    }
}

/// What is stored and running before any change is handled.
pub open spec fn watch_start(
    stored: SceneStore<'_>,
    post_process_tasks: ScenePostProcessTasks,
) -> WatchState {
    WatchState {
        scenes: scenes::stored_scenes(stored),
        tasks: tables::task_table(post_process_tasks),
        failures: Seq::empty(),
        events: scenes::queued_events(stored),
    }
}

/// Removes the processed scene of `key` through `handle`, if its handle is still in use,
/// and cancels its task.
pub fn forget_output(
    stored: &mut SceneStore<'_>,
    post_process_tasks: &mut ScenePostProcessTasks,
    key: PostProcessKey,
    handle: Option<Arc<StrongHandle>>,
)
    ensures
        scenes::stored_scenes(*final(stored)) == (match handle {
            Some(strong) => scenes::stored_scenes(*old(stored)).remove(
                handles::strong_id(strong),
            ),
            None => scenes::stored_scenes(*old(stored)),
        }),
        scenes::stored_slots(*final(stored)) == scenes::stored_slots(*old(stored)),
        scenes::queued_events(*final(stored)) == scenes::queued_events(*old(stored)) + (
        match handle {
            Some(strong) => scenes::removal_events(
                scenes::stored_scenes(*old(stored)),
                seq![handles::strong_id(strong)],
            ),
            None => Seq::empty(),
        }),
        tables::task_table(*final(post_process_tasks)) == tables::task_table(
            *old(post_process_tasks),
        ).remove(key),
{
    proof {
        scenes::lemma_removal_of_one(scenes::stored_scenes(*stored), handles::strong_id(handle->0));
    }
    if let Some(strong) = handle {
        // The collection may still be holding the scene. Without a handle it will have
        // been cleaned up already.
        stored.remove(SceneHandle::Strong(strong).id());
    }
    // Just drop the task if it's present to cancel it.
    let _ = post_process_tasks.remove(key);
}

/// Begins a task that applies `action` to `copy`, in place of the one that `key` had.
pub fn begin_output(
    pool: &AsyncComputeTaskPool,
    post_process_tasks: &mut ScenePostProcessTasks,
    key: PostProcessKey,
    action: &PostProcessAction,
    copy: Scene,
)
    requires
        actions::run_returns(action.actions@, copy),
    ensures
        exists|task: SceneTask|
            {
                &&& jobs::task_start(task) == (action.actions@, copy)
                &&& tables::task_table(*final(post_process_tasks))
                    == #[trigger] tables::task_table(*old(post_process_tasks)).insert(key, task)
            },
{
    let job = SceneJob { actions: action.actions.clone(), scene: Some(copy) };
    let task = jobs::spawn(pool, job);
    post_process_tasks.insert(key, task);
}

/// Removes the scenes `outputs`, in order.
pub fn remove_outputs(stored: &mut SceneStore<'_>, outputs: &Vec<SceneId>)
    ensures
        scenes::stored_scenes(*final(stored)) == scenes::stored_scenes(*old(stored)).remove_keys(
            outputs@.to_set(),
        ),
        scenes::stored_slots(*final(stored)) == scenes::stored_slots(*old(stored)),
        scenes::queued_events(*final(stored)) == scenes::queued_events(*old(stored))
            + scenes::removal_events(scenes::stored_scenes(*old(stored)), outputs@),
{
    let ghost before = scenes::stored_scenes(*stored);
    let ghost queued = scenes::queued_events(*stored);
    assert(before.remove_keys(outputs@.take(0).to_set()) =~= before);
    let mut i: usize = 0;
    while i < outputs.len()
        invariant
            i <= outputs.len(),
            scenes::stored_scenes(*stored) == before.remove_keys(
                outputs@.take(i as int).to_set(),
            ),
            scenes::stored_slots(*stored) == scenes::stored_slots(*old(stored)),
            scenes::queued_events(*stored) == queued + scenes::removal_events(
                before,
                outputs@.take(i as int),
            ),
        decreases outputs.len() - i,
    {
        proof {
            seqs::lemma_take_one_more(outputs@, i as int);
            assert(before.remove_keys(outputs@.take(i as int).to_set()).remove(outputs@[i as int])
                =~= before.remove_keys(outputs@.take(i + 1).to_set()));
            assert(outputs@.take(i + 1).drop_last() =~= outputs@.take(i as int));
        }
        stored.remove(outputs[i]);
        i = i + 1;
    }
    assert(outputs@.take(i as int) =~= outputs@);
}

/// Cancels the tasks that process `id` into `outputs`.
fn cancel_outputs(
    id: SceneId,
    outputs: &Vec<SceneId>,
    post_process_tasks: &mut ScenePostProcessTasks,
)
    ensures
        tables::task_table(*final(post_process_tasks)) == tables::task_table(
            *old(post_process_tasks),
        ).remove_keys(keys_of(id, outputs@.to_set())),
{
    let ghost running = tables::task_table(*post_process_tasks);
    assert(running.remove_keys(keys_of(id, outputs@.take(0).to_set())) =~= running);
    let mut i: usize = 0;
    while i < outputs.len()
        invariant
            i <= outputs.len(),
            tables::task_table(*post_process_tasks) == running.remove_keys(
                keys_of(id, outputs@.take(i as int).to_set()),
            ),
        decreases outputs.len() - i,
    {
        let key = PostProcessKey { unprocessed_id: id, processed_id: outputs[i] };
        proof {
            seqs::lemma_take_one_more(outputs@, i as int);
            assert(running.remove_keys(keys_of(id, outputs@.take(i as int).to_set())).remove(key)
                =~= running.remove_keys(keys_of(id, outputs@.take(i + 1).to_set())));
        }
        // Just drop the task if it's present to cancel it.
        let _ = post_process_tasks.remove(key);
        i = i + 1;
    }
    assert(outputs@.take(i as int) =~= outputs@);
}

/// Removes the processed scenes of `id`, which is not stored any more, and cancels their
/// tasks.
fn forget_outputs(
    id: SceneId,
    targets: &ProcessingTargets,
    stored: &mut SceneStore<'_>,
    post_process_tasks: &mut ScenePostProcessTasks,
)
    requires
        forall|output: SceneId| #[trigger]
            targets@.actions.contains_key(output) ==> handles::strong_id(
                handles::weak_target(targets@.actions[output].processed_handle),
            ) == output,
    ensures
        tables::task_table(*final(post_process_tasks)) == tables::task_table(
            *old(post_process_tasks),
        ).remove_keys(keys_of(id, targets@.actions.dom())),
        exists|used: Seq<SceneId>|
            {
                &&& used.to_set().subset_of(targets@.actions.dom())
                &&& seen_used(targets@, used.to_set())
                &&& scenes::stored_scenes(*final(stored)) == scenes::stored_scenes(
                    *old(stored),
                ).remove_keys(used.to_set())
                &&& scenes::queued_events(*final(stored)) == scenes::queued_events(*old(stored))
                    + #[trigger] scenes::removal_events(scenes::stored_scenes(*old(stored)), used)
            },
        scenes::stored_slots(*final(stored)) == scenes::stored_slots(*old(stored)),
{
    let ghost before = scenes::stored_scenes(*stored);
    let ghost running = tables::task_table(*post_process_tasks);
    let outputs = targets.processed_to_action.keys();
    let ghost queued = scenes::queued_events(*stored);
    let ghost mut used: Seq<SceneId> = Seq::empty();
    assert(before.remove_keys(used.to_set()) =~= before);
    assert(running.remove_keys(keys_of(id, outputs@.take(0).to_set())) =~= running);
    let mut i: usize = 0;
    while i < outputs.len()
        invariant
            i <= outputs.len(),
            before == scenes::stored_scenes(*old(stored)),
            queued == scenes::queued_events(*old(stored)),
            outputs@.to_set() == targets@.actions.dom(),
            forall|output: SceneId| #[trigger]
                targets@.actions.contains_key(output) ==> handles::strong_id(
                    handles::weak_target(targets@.actions[output].processed_handle),
                ) == output,
            used.to_set().subset_of(outputs@.take(i as int).to_set()),
            outputs@.no_duplicates(),
            forall|output: SceneId| #[trigger]
                outputs@.take(i as int).to_set().contains(output) ==> handles::seen_upgraded(
                    targets@.actions[output].processed_handle,
                    used.to_set().contains(output),
                ),
            scenes::stored_scenes(*stored) == before.remove_keys(used.to_set()),
            scenes::stored_slots(*stored) == scenes::stored_slots(*old(stored)),
            scenes::queued_events(*stored) == queued + scenes::removal_events(before, used),
            tables::task_table(*post_process_tasks) == running.remove_keys(
                keys_of(id, outputs@.take(i as int).to_set()),
            ),
        decreases outputs.len() - i,
    {
        let output = outputs[i];
        let key = PostProcessKey { unprocessed_id: id, processed_id: output };
        assert(outputs@.to_set().contains(output));
        let handle = targets.processed_to_action.get(output).unwrap().processed_handle.upgrade();
        let ghost used_before = used;
        proof {
            seqs::lemma_take_one_more(outputs@, i as int);
            assert(running.remove_keys(keys_of(id, outputs@.take(i as int).to_set())).remove(key)
                =~= running.remove_keys(keys_of(id, outputs@.take(i + 1).to_set())));
            if handle is Some {
                used = used.push(output);
                assert(used.drop_last() =~= used_before);
                seqs::lemma_push_to_set(used_before, output);
                assert(before.remove_keys(used_before.to_set()).remove(output)
                    =~= before.remove_keys(used.to_set()));
                assert(!used_before.contains(output)) by {
                    assert(!used_before.to_set().contains(output));
                }
                scenes::lemma_removal_of_one(scenes::stored_scenes(*stored), output);
            }
        }
        forget_output(stored, post_process_tasks, key, handle);
        assert(scenes::queued_events(*stored) =~= queued + scenes::removal_events(before, used));
        i = i + 1;
    }
    assert(outputs@.take(i as int) =~= outputs@);
}

/// Begins a task for every processed scene of `id`, which is stored. Where a copy of it
/// cannot be made, removes the processed scenes, cancels their tasks and adds the error to
/// `failures`.
fn begin_outputs(
    id: SceneId,
    targets: &ProcessingTargets,
    type_registry: &AppTypeRegistry,
    pool: &AsyncComputeTaskPool,
    stored: &mut SceneStore<'_>,
    post_process_tasks: &mut ScenePostProcessTasks,
    failures: &mut Vec<SceneSpawnError>,
)
    requires
        targets@.handle.scene_id() == id,
        scenes::stored_scenes(*old(stored)).contains_key(id),
        scene_processable(targets@, scenes::stored_scenes(*old(stored))[id], *type_registry),
    ensures
        present_step(
            id,
            targets@,
            scenes::stored_scenes(*old(stored))[id],
            *type_registry,
            watch_state(*old(stored), *old(post_process_tasks), *old(failures)),
            watch_state(*final(stored), *final(post_process_tasks), *final(failures)),
        ),
        scenes::stored_scenes(*final(stored)).submap_of(scenes::stored_scenes(*old(stored))),
        scenes::stored_slots(*final(stored)) == scenes::stored_slots(*old(stored)),
        jobs::tasks_return(tables::task_table(*old(post_process_tasks))) ==> jobs::tasks_return(
            tables::task_table(*final(post_process_tasks)),
        ),
{
    let ghost before = scenes::stored_scenes(*stored);
    let ghost running = tables::task_table(*post_process_tasks);
    let ghost scene = before[id];
    let outputs = targets.processed_to_action.keys();
    let unprocessed_id = targets.unprocessed_handle.id();
    assert(outputs@.take(0).to_set() =~= Set::empty());
    let mut i: usize = 0;
    while i < outputs.len()
        invariant
            i <= outputs.len(),
            outputs@.no_duplicates(),
            outputs@.to_set() == targets@.actions.dom(),
            unprocessed_id == id,
            before == scenes::stored_scenes(*old(stored)),
            running == tables::task_table(*old(post_process_tasks)),
            before.contains_key(id),
            scene == before[id],
            scene_processable(targets@, scene, *type_registry),
            scenes::stored_scenes(*stored) == before,
            scenes::stored_slots(*stored) == scenes::stored_slots(*old(stored)),
            scenes::queued_events(*stored) == scenes::queued_events(*old(stored)),
            *failures == *old(failures),
            begun_tasks(
                id,
                targets@,
                scene,
                *type_registry,
                outputs@.take(i as int).to_set(),
                running,
                tables::task_table(*post_process_tasks),
            ),
            jobs::tasks_return(running) ==> jobs::tasks_return(
                tables::task_table(*post_process_tasks),
            ),
        decreases outputs.len() - i,
    {
        let output = outputs[i];
        let key = PostProcessKey { unprocessed_id: id, processed_id: output };
        let ghost tasks_before = tables::task_table(*post_process_tasks);
        proof {
            seqs::lemma_take_one_more(outputs@, i as int);
            assert(outputs@.to_set().contains(output));
        }
        let copy = scenes::clone_scene(stored.reader().get(unprocessed_id).unwrap(), type_registry);
        match copy {
            Err(error) => {
                remove_outputs(stored, &outputs);
                cancel_outputs(id, &outputs, post_process_tasks);
                proof {
                    let begun = keys_of(id, outputs@.take(i as int).to_set());
                    let all = keys_of(id, outputs@.to_set());
                    assert forall|key: PostProcessKey| #[trigger]
                        begun.contains(key) implies all.contains(key) by {
                        let j = outputs@.take(i as int).index_of(key.processed_id);
                        assert(outputs@[j] == key.processed_id);
                    }
                    assert(tasks_before.remove_keys(all) =~= tasks_before.remove_keys(
                        begun,
                    ).remove_keys(all));
                    assert(running.remove_keys(all) =~= running.remove_keys(begun).remove_keys(
                        all,
                    ));
                }
                failures.push(error);
                assert(scenes::clone_may(scene, *type_registry, Some(Err(error))));
                assert(failures@ == watch_state(
                    *old(stored),
                    *old(post_process_tasks),
                    *old(failures),
                ).failures.push(error));
                assert(uncopied_step(
                    id,
                    targets@,
                    scene,
                    *type_registry,
                    watch_state(*old(stored), *old(post_process_tasks), *old(failures)),
                    watch_state(*stored, *post_process_tasks, *failures),
                ));
                return;
            },
            Ok(copy) => {
                let action = targets.processed_to_action.get(output).unwrap();
                begin_output(pool, post_process_tasks, key, action, copy);
                proof {
                    let begun = outputs@.take(i as int).to_set();
                    let tasks_after = tables::task_table(*post_process_tasks);
                    let task = tasks_after[key];
                    assert(tasks_after =~= tasks_before.insert(key, task));
                    assert forall|other: PostProcessKey| #[trigger]
                        keys_of(id, begun.insert(output)).contains(other) implies {
                        &&& tasks_after.contains_key(other)
                        &&& processes(
                            tasks_after[other],
                            scene,
                            *type_registry,
                            targets@.actions[other.processed_id],
                        )
                    } by {
                        if other != key {
                            assert(keys_of(id, begun).contains(other));
                        }
                    }
                    assert(tasks_after.remove_keys(keys_of(id, begun.insert(output)))
                        =~= tasks_before.remove_keys(keys_of(id, begun)).remove(key));
                    assert(running.remove_keys(keys_of(id, begun.insert(output)))
                        =~= running.remove_keys(keys_of(id, begun)).remove(key));
                }
            },
        }
        i = i + 1;
    }
    assert(outputs@.take(i as int) =~= outputs@);
    assert(begun_step(
        id,
        targets@,
        scene,
        *type_registry,
        watch_state(*old(stored), *old(post_process_tasks), *old(failures)),
        watch_state(*stored, *post_process_tasks, *failures),
    ));
}

/// Handles a change of the scene `id`.
fn update_scene(
    id: SceneId,
    intermediate: &RegisteredPostProcessActions,
    type_registry: &AppTypeRegistry,
    pool: &AsyncComputeTaskPool,
    stored: &mut SceneStore<'_>,
    post_process_tasks: &mut ScenePostProcessTasks,
    failures: &mut Vec<SceneSpawnError>,
)
    requires
        registry::consistent(intermediate.targets()),
        intermediate.targets().contains_key(id) && scenes::stored_scenes(
            *old(stored),
        ).contains_key(id) ==> scene_processable(
            intermediate.targets()[id],
            scenes::stored_scenes(*old(stored))[id],
            *type_registry,
        ),
    ensures
        scene_step(
            intermediate.targets(),
            *type_registry,
            id,
            watch_state(*old(stored), *old(post_process_tasks), *old(failures)),
            watch_state(*final(stored), *final(post_process_tasks), *final(failures)),
        ),
        scenes::stored_scenes(*final(stored)).submap_of(scenes::stored_scenes(*old(stored))),
        scenes::stored_slots(*final(stored)) == scenes::stored_slots(*old(stored)),
        jobs::tasks_return(tables::task_table(*old(post_process_tasks))) ==> jobs::tasks_return(
            tables::task_table(*final(post_process_tasks)),
        ),
{
    let ghost all = intermediate.targets();
    let targets = match intermediate.unprocessed_to_targets.get(id) {
        Some(targets) => targets,
        None => {
            // This is not a scene we care about.
            return;
        },
    };
    assert(all.contains_key(id) && all[id] == targets@);
    if !stored.reader().contains(id) {
        // If the unprocessed scene is missing, the processed scene should leave too so they
        // remain consistent.
        proof {
            assert forall|output: SceneId| #[trigger]
                targets@.actions.contains_key(output) implies handles::strong_id(
                handles::weak_target(targets@.actions[output].processed_handle),
            ) == output by {
                let key = PostProcessKey { unprocessed_id: id, processed_id: output };
                assert(registry::registered(all, key));
            }
        }
        forget_outputs(id, targets, stored, post_process_tasks);
        return;
    }
    begin_outputs(id, targets, type_registry, pool, stored, post_process_tasks, failures);
}

/// Collects the scenes that changed: those of `events` and those that are ready to be
/// processed without one, each once.
fn take_changes(
    events: &Vec<SceneEvent>,
    intermediate: &mut RegisteredPostProcessActions,
) -> (changed: SceneSet)
    ensures
        tables::scene_set(changed) == ids::changed_by(events@).union(old(intermediate).ready()),
        final(intermediate).ready() == Set::<SceneId>::empty(),
        final(intermediate).targets() == old(intermediate).targets(),
{
    let mut changed = SceneSet::new();
    let mut i: usize = 0;
    while i < events.len()
        invariant
            i <= events.len(),
            tables::scene_set(changed) == ids::changed_by(events@.take(i as int)),
        decreases events.len() - i,
    {
        let change = ids::asset_event_to_change(&events[i]);
        proof {
            ids::lemma_changed_by_one_more(events@, i as int);
        }
        if let Some(id) = change {
            changed.insert(id);
        }
        i = i + 1;
    }
    assert(events@.take(i as int) =~= events@);
    let ready = intermediate.new_scenes.drain();
    let mut k: usize = 0;
    while k < ready.len()
        invariant
            k <= ready.len(),
            tables::scene_set(changed) == ids::changed_by(events@).union(
                ready@.take(k as int).to_set(),
            ),
        decreases ready.len() - k,
    {
        proof {
            seqs::lemma_take_one_more(ready@, k as int);
        }
        changed.insert(ready[k]);
        k = k + 1;
    }
    assert(ready@.take(k as int) =~= ready@);
    changed
}

/// Reads the events for the unprocessed scenes and ensures the processing starts or is
/// cleared to match the state of the unprocessed scene. Returns why scenes could not be
/// copied.
///
/// The scenes that changed are handled one after the other, each once. The order is that
/// of a hash set, so what is stated holds for some order of them.
pub fn watch_for_changed_unprocessed(
    scene_events: &Vec<SceneEvent>,
    intermediate: &mut RegisteredPostProcessActions,
    type_registry: &AppTypeRegistry,
    pool: &AsyncComputeTaskPool,
    stored: &mut SceneStore<'_>,
    post_process_tasks: &mut ScenePostProcessTasks,
) -> (failures: Vec<SceneSpawnError>)
    requires
        registry::consistent(old(intermediate).targets()),
        processable(
            old(intermediate).targets(),
            scenes::stored_scenes(*old(stored)),
            *type_registry,
            ids::changed_by(scene_events@).union(old(intermediate).ready()),
        ),
    ensures
        exists|order: Seq<SceneId>|
            {
                &&& order.no_duplicates()
                &&& order.to_set() == ids::changed_by(scene_events@).union(
                    old(intermediate).ready(),
                )
                &&& #[trigger] scene_steps(
                    old(intermediate).targets(),
                    *type_registry,
                    order,
                    watch_start(*old(stored), *old(post_process_tasks)),
                    watch_state(*final(stored), *final(post_process_tasks), failures),
                )
            },
        final(intermediate).targets() == old(intermediate).targets(),
        final(intermediate).ready() == Set::<SceneId>::empty(),
        scenes::stored_slots(*final(stored)) == scenes::stored_slots(*old(stored)),
        jobs::tasks_return(tables::task_table(*old(post_process_tasks))) ==> jobs::tasks_return(
            tables::task_table(*final(post_process_tasks)),
        ),
{
    let ghost targets = intermediate.targets();
    let ghost start = watch_start(*stored, *post_process_tasks);
    let mut changed = take_changes(scene_events, intermediate);
    let order = changed.drain();
    let mut failures: Vec<SceneSpawnError> = Vec::new();
    assert(watch_state(*stored, *post_process_tasks, failures) =~= start);
    let mut i: usize = 0;
    while i < order.len()
        invariant
            i <= order.len(),
            intermediate.targets() == targets,
            registry::consistent(targets),
            processable(targets, scenes::stored_scenes(*stored), *type_registry, order@.to_set()),
            scene_steps(
                targets,
                *type_registry,
                order@.take(i as int),
                start,
                watch_state(*stored, *post_process_tasks, failures),
            ),
            scenes::stored_slots(*stored) == scenes::stored_slots(*old(stored)),
            jobs::tasks_return(tables::task_table(*old(post_process_tasks))) ==> jobs::tasks_return(
                tables::task_table(*post_process_tasks),
            ),
        decreases order.len() - i,
    {
        let ghost between = watch_state(*stored, *post_process_tasks, failures);
        assert(order@.to_set().contains(order@[i as int]));
        update_scene(
            order[i],
            intermediate,
            type_registry,
            pool,
            stored,
            post_process_tasks,
            &mut failures,
        );
        proof {
            let done = order@.take(i + 1);
            assert(done.drop_last() =~= order@.take(i as int));
            assert(scene_step(
                targets,
                *type_registry,
                done.last(),
                between,
                watch_state(*stored, *post_process_tasks, failures),
            ));
        }
        i = i + 1;
    }
    assert(order@.take(i as int) =~= order@);
    failures
}

} // verus!
