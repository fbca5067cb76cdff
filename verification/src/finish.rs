use bevy::asset::StrongHandle;
use bevy::scene::Scene;
use std::sync::Arc;
use vstd::prelude::*;

use crate::handles;
use crate::ids::{PostProcessKey, SceneEvent, SceneId};
use crate::jobs;
use crate::jobs::SceneTask;
use crate::registry;
use crate::registry::{RegisteredPostProcessActions, Targets};
use crate::scenes;
use crate::scenes::SceneStore;
use crate::tables;
use crate::tables::ScenePostProcessTasks;

verus! {

/// A scene that could not be processed.
pub struct ProcessFailure {
    /// The scene that was being processed.
    pub unprocessed_id: SceneId,
    /// What the action that failed has to say.
    pub error: String,
}

/// What changes while the finished tasks are handled.
#[verifier::ext_equal]
pub struct FinishState {
    /// The stored scenes.
    pub scenes: Map<SceneId, Scene>,
    /// The running tasks.
    pub tasks: Map<PostProcessKey, SceneTask>,
    /// The scenes that could not be processed.
    pub failures: Seq<ProcessFailure>,
    /// What has happened to the stored scenes and was not sent yet.
    pub events: Seq<SceneEvent>,
}

/// How the output of the task of `key` is handled. After an error the processed scene
/// leaves, so that no stale scene is held on to. A processed scene is stored, unless it is
/// no longer registered or nobody holds a handle to it any more.
pub open spec fn output_step(
    targets: Map<SceneId, Targets>,
    key: PostProcessKey,
    output: Result<Scene, String>,
    before: FinishState,
    after: FinishState,
) -> bool {
    &&& after.tasks == before.tasks.remove(key)
    &&& match output {
        Err(error) => {
            &&& after.scenes == before.scenes.remove(key.processed_id)
            &&& after.failures == before.failures.push(
                ProcessFailure { unprocessed_id: key.unprocessed_id, error },
            )
            &&& after.events == before.events + scenes::removal_events(
                before.scenes,
                seq![key.processed_id],
            )
        },
        Ok(scene) => {
            &&& after.failures == before.failures
            &&& {
                ||| {
                    &&& registry::registered(targets, key) ==> handles::seen_upgraded(
                        registry::action_of(targets, key).processed_handle,
                        false,
                    )
                    &&& after.scenes == before.scenes
                    &&& after.events == before.events
                }
                ||| {
                    &&& registry::registered(targets, key)
                    &&& handles::seen_upgraded(
                        registry::action_of(targets, key).processed_handle,
                        true,
                    )
                    &&& after.scenes == before.scenes.insert(key.processed_id, scene)
                    &&& after.events == before.events.push(
                        scenes::storing_event(before.scenes, key.processed_id),
                    )
                }
            }
        },
    }
}

/// How the task of `key` is handled: it has not run and stays, or it has run and its output
/// is handled.
pub open spec fn task_step(
    targets: Map<SceneId, Targets>,
    key: PostProcessKey,
    before: FinishState,
    after: FinishState,
) -> bool {
    ||| after == before && jobs::seen_finished(before.tasks[key], false)
    ||| exists|output: Result<Scene, String>|
        {
            &&& jobs::seen_finished(before.tasks[key], true)
            &&& jobs::task_may(before.tasks[key], output)
            &&& #[trigger] output_step(targets, key, output, before, after)
        }
}

/// How the tasks of `order` are handled, one after the other.
pub open spec fn task_steps(
    targets: Map<SceneId, Targets>,
    order: Seq<PostProcessKey>,
    before: FinishState,
    after: FinishState,
) -> bool
    decreases order.len(),
{
    if order.len() == 0 {
        after == before
    } else {
        exists|between: FinishState|
            {
                &&& task_steps(targets, order.drop_last(), before, between)
                &&& #[trigger] task_step(targets, order.last(), between, after)
            }
    }
}

/// What is stored and running, and which scenes could not be processed.
pub open spec fn finish_state(
    stored: SceneStore<'_>,
    post_process_tasks: ScenePostProcessTasks,
    failures: Vec<ProcessFailure>,
) -> FinishState {
    FinishState {
        scenes: scenes::stored_scenes(stored),
        tasks: tables::task_table(post_process_tasks),
        failures: failures@,
        events: scenes::queued_events(stored),
    }
}

/// What is stored and running before any task is handled.
pub open spec fn finish_start(
    stored: SceneStore<'_>,
    post_process_tasks: ScenePostProcessTasks,
) -> FinishState {
    FinishState {
        scenes: scenes::stored_scenes(stored),
        tasks: tables::task_table(post_process_tasks),
        failures: Seq::empty(),
        events: scenes::queued_events(stored),
    }
}

impl ScenePostProcessTasks {
    /// Looks for a task that has not run yet.
    ///
    /// What a look at a task finds depends on what other threads have done. What is stated
    /// holds whichever tasks have run.
    pub fn has_unfinished(&self) -> (found: bool)
        ensures
            found ==> exists|key: PostProcessKey|
                {
                    &&& #[trigger] tables::task_table(*self).contains_key(key)
                    &&& jobs::seen_finished(tables::task_table(*self)[key], false)
                },
            !found ==> forall|key: PostProcessKey| #[trigger]
                tables::task_table(*self).contains_key(key) ==> jobs::seen_finished(
                    tables::task_table(*self)[key],
                    true,
                ),
    {
        let keys = self.keys();
        let mut i: usize = 0;
        while i < keys.len()
            invariant
                i <= keys.len(),
                keys@.to_set() == tables::task_table(*self).dom(),
                forall|j: int|
                    0 <= j < i ==> jobs::seen_finished(
                        tables::task_table(*self)[#[trigger] keys[j]],
                        true,
                    ),
            decreases keys.len() - i,
        {
            assert(keys@.to_set().contains(keys@[i as int]));
            if !jobs::is_finished(self.get(keys[i]).unwrap()) {
                assert(tables::task_table(*self).contains_key(keys@[i as int]));
                return true;
            }
            i = i + 1;
        }
        proof {
            assert forall|key: PostProcessKey| #[trigger]
                tables::task_table(*self).contains_key(key) implies jobs::seen_finished(
                tables::task_table(*self)[key],
                true,
            ) by {
                assert(keys@.to_set().contains(key));
                assert(keys[keys@.index_of(key)] == key);
            }
        }
        false
    }
}

/// Handles the output of the task of `key`: stores a processed scene through `handle`, if
/// there is one, and removes the processed scene after an error.
pub fn store_output(
    stored: &mut SceneStore<'_>,
    key: PostProcessKey,
    output: Result<Scene, String>,
    handle: Option<Arc<StrongHandle>>,
) -> (failure: Option<ProcessFailure>)
    requires
        output is Ok && handle is Some ==> scenes::stored_slots(*old(stored)).contains(
            handle->0,
        ),
    ensures
        scenes::stored_scenes(*final(stored)) == (match (output, handle) {
            (Err(_), _) => scenes::stored_scenes(*old(stored)).remove(key.processed_id),
            (Ok(scene), Some(strong)) => scenes::stored_scenes(*old(stored)).insert(
                handles::strong_id(strong),
                scene,
            ),
            (Ok(_), None) => scenes::stored_scenes(*old(stored)),
        }),
        scenes::stored_slots(*final(stored)) == scenes::stored_slots(*old(stored)),
        scenes::queued_events(*final(stored)) == scenes::queued_events(*old(stored)) + (match (
            output,
            handle,
        ) {
            (Err(_), _) => scenes::removal_events(
                scenes::stored_scenes(*old(stored)),
                seq![key.processed_id],
            ),
            (Ok(_), Some(strong)) => seq![
                scenes::storing_event(
                    scenes::stored_scenes(*old(stored)),
                    handles::strong_id(strong),
                ),
            ],
            (Ok(_), None) => Seq::empty(),
        }),
        failure == (match output {
            Err(error) => Some(ProcessFailure { unprocessed_id: key.unprocessed_id, error }),
            Ok(_) => None,
        }),
{
    proof {
        scenes::lemma_removal_of_one(scenes::stored_scenes(*stored), key.processed_id);
    }
    match output {
        Err(error) => {
            // Make sure the scene is deleted to ensure we don't hold on to a stale scene if a
            // hot reload causes a processing failure.
            stored.remove(key.processed_id);
            Some(ProcessFailure { unprocessed_id: key.unprocessed_id, error })
        },
        Ok(scene) => {
            // Only insert the scene if the handle could be upgraded (meaning someone still
            // cares about the processed scene).
            if let Some(strong) = handle {
                stored.insert(&strong, scene);
            }
            None
        },
    }
}

/// The handle that the result for `key` is to be stored through. There is none where the
/// registration must have been deleted, so that the result is spurious, and where nobody
/// holds the handle any more.
fn output_handle(intermediate: &RegisteredPostProcessActions, key: PostProcessKey) -> (handle:
    Option<Arc<StrongHandle>>)
    ensures
        handle matches Some(strong) ==> {
            &&& registry::registered(intermediate.targets(), key)
            &&& strong == registry::output_of(intermediate.targets(), key)
        },
        registry::registered(intermediate.targets(), key) ==> handles::seen_upgraded(
            registry::action_of(intermediate.targets(), key).processed_handle,
            handle is Some,
        ),
{
    match intermediate.unprocessed_to_targets.get(key.unprocessed_id) {
        Some(targets) => match targets.processed_to_action.get(key.processed_id) {
            Some(action) => action.processed_handle.upgrade(),
            None => None,
        },
        None => None,
    }
}

/// Handles the task of `key`.
fn finish_task(
    key: PostProcessKey,
    post_process_tasks: &mut ScenePostProcessTasks,
    intermediate: &RegisteredPostProcessActions,
    stored: &mut SceneStore<'_>,
    failures: &mut Vec<ProcessFailure>,
)
    requires
        registry::consistent(intermediate.targets()),
        registry::storable(intermediate.targets(), scenes::stored_slots(*old(stored))),
        tables::task_table(*old(post_process_tasks)).contains_key(key),
        jobs::task_returns(tables::task_table(*old(post_process_tasks))[key]),
    ensures
        task_step(
            intermediate.targets(),
            key,
            finish_state(*old(stored), *old(post_process_tasks), *old(failures)),
            finish_state(*final(stored), *final(post_process_tasks), *final(failures)),
        ),
        scenes::stored_slots(*final(stored)) == scenes::stored_slots(*old(stored)),
        tables::task_table(*old(post_process_tasks)).remove(key) == tables::task_table(
            *final(post_process_tasks),
        ).remove(key),
        tables::task_table(*final(post_process_tasks)).contains_key(key) ==> tables::task_table(
            *final(post_process_tasks),
        )[key] == tables::task_table(*old(post_process_tasks))[key],
{
    let ghost targets = intermediate.targets();
    let ghost before = finish_state(*stored, *post_process_tasks, *failures);
    if !jobs::is_finished(post_process_tasks.get(key).unwrap()) {
        return;
    }
    let mut task = post_process_tasks.remove(key).unwrap();
    let output = jobs::poll(&mut task).unwrap();
    let handle = match &output {
        Ok(_) => output_handle(intermediate, key),
        Err(_) => None,
    };
    let ghost result = output;
    let failure = store_output(stored, key, output, handle);
    if let Some(failure) = failure {
        failures.push(failure);
    }
    proof {
        let event = scenes::storing_event(before.scenes, key.processed_id);
        assert(before.events + seq![event] =~= before.events.push(event));
        assert(before.events + Seq::empty() =~= before.events);
    }
    assert(output_step(
        targets,
        key,
        result,
        before,
        finish_state(*stored, *post_process_tasks, *failures),
    ));
}

/// Checks for any finished processing tasks and stores their results. Returns the scenes
/// that could not be processed.
///
/// The tasks are handled one after the other, each once. The order is that of a hash map,
/// so what is stated holds for some order of them, and whichever of them have run.
pub fn handle_finished_processing(
    post_process_tasks: &mut ScenePostProcessTasks,
    intermediate: &RegisteredPostProcessActions,
    stored: &mut SceneStore<'_>,
) -> (failures: Vec<ProcessFailure>)
    requires
        registry::consistent(intermediate.targets()),
        registry::storable(intermediate.targets(), scenes::stored_slots(*old(stored))),
        jobs::tasks_return(tables::task_table(*old(post_process_tasks))),
    ensures
        exists|order: Seq<PostProcessKey>|
            {
                &&& order.no_duplicates()
                &&& order.to_set() == tables::task_table(*old(post_process_tasks)).dom()
                &&& #[trigger] task_steps(
                    intermediate.targets(),
                    order,
                    finish_start(*old(stored), *old(post_process_tasks)),
                    finish_state(*final(stored), *final(post_process_tasks), failures),
                )
            },
        scenes::stored_slots(*final(stored)) == scenes::stored_slots(*old(stored)),
        tables::task_table(*final(post_process_tasks)).submap_of(
            tables::task_table(*old(post_process_tasks)),
        ),
        jobs::tasks_return(tables::task_table(*final(post_process_tasks))),
{
    let ghost targets = intermediate.targets();
    let ghost running = tables::task_table(*post_process_tasks);
    let ghost start = finish_start(*stored, *post_process_tasks);
    let order = post_process_tasks.keys();
    let mut failures: Vec<ProcessFailure> = Vec::new();
    assert(finish_state(*stored, *post_process_tasks, failures) =~= start);
    assert forall|j: int| 0 <= j < order.len() implies running.contains_key(
        #[trigger] order[j],
    ) by {
        assert(order@.to_set().contains(order@[j]));
    }
    let mut i: usize = 0;
    while i < order.len()
        invariant
            i <= order.len(),
            intermediate.targets() == targets,
            registry::consistent(targets),
            registry::storable(targets, scenes::stored_slots(*stored)),
            order@.no_duplicates(),
            jobs::tasks_return(running),
            tables::task_table(*post_process_tasks).submap_of(running),
            forall|j: int|
                i <= j < order.len() ==> tables::task_table(*post_process_tasks).contains_key(
                    #[trigger] order[j],
                ),
            task_steps(
                targets,
                order@.take(i as int),
                start,
                finish_state(*stored, *post_process_tasks, failures),
            ),
            scenes::stored_slots(*stored) == scenes::stored_slots(*old(stored)),
        decreases order.len() - i,
    {
        let key = order[i];
        let ghost between = finish_state(*stored, *post_process_tasks, failures);
        assert(between.tasks.dom().contains(key) && running.contains_key(key));
        finish_task(key, post_process_tasks, intermediate, stored, &mut failures);
        proof {
            let after = finish_state(*stored, *post_process_tasks, failures);
            let done = order@.take(i + 1);
            assert(done.drop_last() =~= order@.take(i as int));
            assert(task_step(targets, done.last(), between, after));
            assert forall|other: PostProcessKey| #[trigger]
                after.tasks.contains_key(other) implies running.contains_key(other)
                && after.tasks[other] == running[other] by {
                if other != key {
                    assert(after.tasks.remove(key).contains_key(other));
                    assert(between.tasks.remove(key).contains_key(other));
                    assert(after.tasks.remove(key)[other] == between.tasks.remove(key)[other]);
                    assert(after.tasks[other] == between.tasks[other]);
                }
                assert(between.tasks.dom().contains(other) && running.dom().contains(other));
            }
            assert forall|j: int| i + 1 <= j < order.len() implies after.tasks.contains_key(
                #[trigger] order[j],
            ) by {
                assert(order@[j] != key);
                assert(between.tasks.remove(key).contains_key(order@[j]));
                assert(after.tasks.remove(key).contains_key(order@[j]));
            }
        }
        i = i + 1;
    }
    assert(order@.take(i as int) =~= order@);
    proof {
        let left = tables::task_table(*post_process_tasks);
        assert forall|key: PostProcessKey| #[trigger]
            left.contains_key(key) implies jobs::task_returns(left[key]) by {
            assert(left.dom().contains(key) && running.contains_key(key));
        }
    }
    failures
}

} // verus!
