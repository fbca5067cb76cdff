//! What holds of the library as a whole.

use bevy::asset::StrongHandle;
use bevy::prelude::AppTypeRegistry;
use bevy::scene::{Scene, SceneSpawnError};
use std::sync::Arc;
use vstd::prelude::*;

use crate::actions;
use crate::actions::Action;
use crate::cleanup;
use crate::finish;
use crate::finish::{FinishState, ProcessFailure};
use crate::handles;
use crate::handles::SceneHandle;
use crate::ids;
use crate::ids::{PostProcessKey, SceneEvent, SceneId};
use crate::jobs;
use crate::jobs::SceneTask;
use crate::registry;
use crate::registry::{PostProcessAction, Targets};
use crate::scenes;
use crate::watch;
use crate::watch::WatchState;

verus! {

// Registering.

/// Each registration stands for itself: the new one has its action, and every other one
/// is as it was. A strong handle of an unprocessed scene stays. A weak one stays or is
/// replaced by a strong one of the same scene.
pub proof fn law_registrations_are_independent(
    targets: Map<SceneId, Targets>,
    scene: SceneHandle,
    output: SceneId,
    action: PostProcessAction,
)
    ensures
        ({
            let key = PostProcessKey { unprocessed_id: scene.scene_id(), processed_id: output };
            let after = registry::with_action(targets, scene, output, action);
            &&& registry::registered(after, key)
            &&& registry::action_of(after, key) == action
            &&& forall|other: PostProcessKey|
                other != key ==> #[trigger] registry::registered(after, other)
                    == registry::registered(targets, other)
            &&& forall|other: PostProcessKey|
                other != key && registry::registered(targets, other)
                    ==> #[trigger] registry::action_of(after, other) == registry::action_of(
                    targets,
                    other,
                )
            &&& forall|id: SceneId| #[trigger]
                targets.contains_key(id) ==> {
                    &&& after.contains_key(id)
                    &&& after[id].handle == targets[id].handle || {
                        &&& targets[id].handle is Weak
                        &&& after[id].handle is Strong
                        &&& after[id].handle.scene_id() == id
                    }
                }
            &&& scene is Strong ==> after[scene.scene_id()].handle is Strong
        }),
{
    registry::lemma_with_action(targets, scene, output, action);
}

/// A registration whose handle is the one of its processed scene keeps the registrations
/// consistent.
pub proof fn law_registration_keeps_consistency(
    targets: Map<SceneId, Targets>,
    scene: SceneHandle,
    output: SceneId,
    action: PostProcessAction,
)
    requires
        registry::consistent(targets),
        handles::strong_id(handles::weak_target(action.processed_handle)) == output,
    ensures
        registry::consistent(registry::with_action(targets, scene, output, action)),
{
    let after = registry::with_action(targets, scene, output, action);
    let id = scene.scene_id();
    registry::lemma_with_action(targets, scene, output, action);
    assert(after[id].actions.contains_key(output));
    assert forall|other: SceneId| #[trigger] after.contains_key(other) implies {
        &&& after[other].handle.scene_id() == other
        &&& exists|o: SceneId| #[trigger] after[other].actions.contains_key(o)
    } by {
        if other != id {
            assert(targets.contains_key(other));
        }
    }
    assert forall|key: PostProcessKey| #[trigger]
        registry::registered(after, key) implies handles::strong_id(
        registry::output_of(after, key),
    ) == key.processed_id by {
        if key != (PostProcessKey { unprocessed_id: id, processed_id: output }) {
            assert(registry::registered(targets, key));
            assert(registry::action_of(after, key) == registry::action_of(targets, key));
        }
    }
}

/// A registration whose handle has a place in the collection keeps every processed scene
/// storable.
pub proof fn law_registration_keeps_outputs_storable(
    targets: Map<SceneId, Targets>,
    scene: SceneHandle,
    output: SceneId,
    action: PostProcessAction,
    slots: Set<Arc<StrongHandle>>,
)
    requires
        registry::storable(targets, slots),
        slots.contains(handles::weak_target(action.processed_handle)),
    ensures
        registry::storable(registry::with_action(targets, scene, output, action), slots),
{
    let after = registry::with_action(targets, scene, output, action);
    registry::lemma_with_action(targets, scene, output, action);
    assert forall|key: PostProcessKey| #[trigger]
        registry::registered(after, key) implies slots.contains(
        registry::output_of(after, key),
    ) by {
        if key != (PostProcessKey { unprocessed_id: scene.scene_id(), processed_id: output }) {
            assert(registry::registered(targets, key));
            assert(registry::action_of(after, key) == registry::action_of(targets, key));
        }
    }
}

/// A registration does not keep its processed scene alive: it holds that handle weakly, and
/// no handle of an unprocessed scene is one of the new processed scene.
pub proof fn law_registration_does_not_hold_its_output(
    targets: Map<SceneId, Targets>,
    scene: SceneHandle,
    output: SceneId,
    action: PostProcessAction,
)
    requires
        registry::consistent(targets),
        handles::strong_id(handles::weak_target(action.processed_handle)) == output,
        !targets.contains_key(output),
        scene.scene_id() != output,
    ensures
        ({
            let after = registry::with_action(targets, scene, output, action);
            &&& !after.contains_key(output)
            &&& forall|id: SceneId| #[trigger]
                after.contains_key(id) ==> after[id].handle.scene_id() != output
        }),
{
    law_registration_keeps_consistency(targets, scene, output, action);
}

// Dropping.

/// Dropping registrations ends exactly those. Every other one keeps its action and the
/// handle of its unprocessed scene, and an unprocessed scene is kept for as long as
/// something is processed from it.
pub proof fn law_dropping_keeps_the_rest(
    targets: Map<SceneId, Targets>,
    dropped: Set<PostProcessKey>,
)
    ensures
        ({
            let after = cleanup::without_all(targets, dropped);
            &&& forall|key: PostProcessKey| #[trigger]
                registry::registered(after, key) == (registry::registered(targets, key)
                    && !dropped.contains(key))
            &&& forall|key: PostProcessKey|
                registry::registered(after, key) ==> #[trigger] registry::action_of(after, key)
                    == registry::action_of(targets, key) && after[key.unprocessed_id].handle
                    == targets[key.unprocessed_id].handle
            &&& forall|id: SceneId| #[trigger]
                after.contains_key(id) == exists|output: SceneId|
                    registry::registered(
                        after,
                        PostProcessKey { unprocessed_id: id, processed_id: output },
                    )
        }),
{
    let after = cleanup::without_all(targets, dropped);
    assert forall|key: PostProcessKey| #[trigger]
        registry::registered(after, key) == (registry::registered(targets, key)
            && !dropped.contains(key)) by {
        cleanup::lemma_registered_without_all(targets, dropped, key);
    }
    assert forall|id: SceneId| #[trigger] after.contains_key(id) implies exists|output: SceneId|
        registry::registered(
            after,
            PostProcessKey { unprocessed_id: id, processed_id: output },
        ) by {
        let output = choose|output: SceneId|
            cleanup::kept_outputs(targets, dropped, id).contains(output);
        assert(registry::registered(
            after,
            PostProcessKey { unprocessed_id: id, processed_id: output },
        ));
    }
}

/// Dropping registrations keeps the rest consistent, and storable where it was.
pub proof fn law_dropping_keeps_consistency(
    targets: Map<SceneId, Targets>,
    dropped: Set<PostProcessKey>,
    slots: Set<Arc<StrongHandle>>,
)
    requires
        registry::consistent(targets),
    ensures
        registry::consistent(cleanup::without_all(targets, dropped)),
        registry::storable(targets, slots) ==> registry::storable(
            cleanup::without_all(targets, dropped),
            slots,
        ),
{
    let after = cleanup::without_all(targets, dropped);
    law_dropping_keeps_the_rest(targets, dropped);
    assert forall|id: SceneId| #[trigger] after.contains_key(id) implies {
        &&& after[id].handle.scene_id() == id
        &&& exists|output: SceneId| #[trigger] after[id].actions.contains_key(output)
    } by {
        assert(targets.contains_key(id));
        let output = choose|output: SceneId|
            registry::registered(
                after,
                PostProcessKey { unprocessed_id: id, processed_id: output },
            );
        assert(after[id].actions.contains_key(output));
    }
    assert forall|key: PostProcessKey| #[trigger] registry::registered(after, key) implies {
        &&& registry::output_of(after, key) == registry::output_of(targets, key)
        &&& registry::registered(targets, key)
    } by {
        assert(registry::action_of(after, key) == registry::action_of(targets, key));
    }
}

// Tasks.

/// Whether every running task belongs to a registration.
pub open spec fn tasks_registered(
    running: Map<PostProcessKey, SceneTask>,
    targets: Map<SceneId, Targets>,
) -> bool {
    forall|key: PostProcessKey| #[trigger]
        running.contains_key(key) ==> registry::registered(targets, key)
}

/// Registering leaves every running task with its registration.
pub proof fn law_registering_keeps_tasks_registered(
    running: Map<PostProcessKey, SceneTask>,
    targets: Map<SceneId, Targets>,
    scene: SceneHandle,
    output: SceneId,
    action: PostProcessAction,
)
    requires
        tasks_registered(running, targets),
    ensures
        tasks_registered(running, registry::with_action(targets, scene, output, action)),
{
    registry::lemma_with_action(targets, scene, output, action);
}

/// No task outlives its registration.
pub proof fn law_dropping_keeps_tasks_registered(
    running: Map<PostProcessKey, SceneTask>,
    targets: Map<SceneId, Targets>,
    dropped: Set<PostProcessKey>,
)
    requires
        tasks_registered(running, targets),
    ensures
        tasks_registered(running.remove_keys(dropped), cleanup::without_all(targets, dropped)),
{
    law_dropping_keeps_the_rest(targets, dropped);
    assert forall|key: PostProcessKey| #[trigger]
        running.remove_keys(dropped).contains_key(key) implies registry::registered(
        cleanup::without_all(targets, dropped),
        key,
    ) by {
        assert(running.contains_key(key));
    }
}

/// Changes of scenes begin tasks for registrations only.
pub proof fn law_watching_keeps_tasks_registered(
    targets: Map<SceneId, Targets>,
    type_registry: AppTypeRegistry,
    order: Seq<SceneId>,
    before: WatchState,
    after: WatchState,
)
    requires
        watch::scene_steps(targets, type_registry, order, before, after),
        tasks_registered(before.tasks, targets),
    ensures
        tasks_registered(after.tasks, targets),
    decreases order.len(),
{
    if order.len() > 0 {
        let between = choose|between: WatchState|
            {
                &&& watch::scene_steps(targets, type_registry, order.drop_last(), before, between)
                &&& #[trigger] watch::scene_step(
                    targets,
                    type_registry,
                    order.last(),
                    between,
                    after,
                )
            };
        law_watching_keeps_tasks_registered(
            targets,
            type_registry,
            order.drop_last(),
            before,
            between,
        );
        lemma_step_changes_own_keys(targets, type_registry, order.last(), between, after);
        assert forall|key: PostProcessKey| #[trigger]
            after.tasks.contains_key(key) implies registry::registered(targets, key) by {
            if !registry::registered(targets, key) {
                assert(between.tasks.contains_key(key));
            }
        }
    }
}

/// Handling finished tasks begins none.
pub proof fn law_finishing_keeps_tasks_registered(
    targets: Map<SceneId, Targets>,
    order: Seq<PostProcessKey>,
    before: FinishState,
    after: FinishState,
)
    requires
        finish::task_steps(targets, order, before, after),
        tasks_registered(before.tasks, targets),
    ensures
        tasks_registered(after.tasks, targets),
    decreases order.len(),
{
    if order.len() > 0 {
        let between = choose|between: FinishState|
            {
                &&& finish::task_steps(targets, order.drop_last(), before, between)
                &&& #[trigger] finish::task_step(targets, order.last(), between, after)
            };
        law_finishing_keeps_tasks_registered(targets, order.drop_last(), before, between);
        assert forall|key: PostProcessKey| #[trigger]
            after.tasks.contains_key(key) implies registry::registered(targets, key) by {
            assert(between.tasks.contains_key(key));
        }
    }
}

// Changes of scenes.

/// A change of a scene touches only the tasks of its own registrations and only the scenes
/// that it is processed into. No scene is stored by it.
pub proof fn lemma_step_changes_own_keys(
    targets: Map<SceneId, Targets>,
    type_registry: AppTypeRegistry,
    id: SceneId,
    before: WatchState,
    after: WatchState,
)
    requires
        watch::scene_step(targets, type_registry, id, before, after),
    ensures
        forall|key: PostProcessKey|
            !(key.unprocessed_id == id && registry::registered(targets, key)) ==> {
                &&& #[trigger] after.tasks.contains_key(key) == before.tasks.contains_key(key)
                &&& after.tasks.contains_key(key) ==> after.tasks[key] == before.tasks[key]
            },
        forall|stored: SceneId| #[trigger]
            after.scenes.contains_key(stored) ==> before.scenes.contains_key(stored)
                && after.scenes[stored] == before.scenes[stored],
        forall|stored: SceneId|
            #![trigger before.scenes.contains_key(stored)]
            before.scenes.contains_key(stored) && !registry::registered(
                targets,
                PostProcessKey { unprocessed_id: id, processed_id: stored },
            ) ==> after.scenes.contains_key(stored),
        before.failures.len() <= after.failures.len(),
        after.failures.take(before.failures.len() as int) == before.failures,
        forall|changed: SceneId|
            ids::changed_by(before.events).contains(changed) || (before.scenes.contains_key(changed)
                && !after.scenes.contains_key(changed)) ==> #[trigger] ids::changed_by(
                after.events,
            ).contains(changed),
{
    if targets.contains_key(id) {
        let outputs = targets[id].actions.dom();
        let scene = before.scenes[id];
        if before.scenes.contains_key(id) && watch::begun_step(
            id,
            targets[id],
            scene,
            type_registry,
            before,
            after,
        ) {
            let keys = watch::keys_of(id, outputs);
            assert forall|key: PostProcessKey|
                !(key.unprocessed_id == id && registry::registered(targets, key)) implies {
                &&& #[trigger] after.tasks.contains_key(key) == before.tasks.contains_key(key)
                &&& after.tasks.contains_key(key) ==> after.tasks[key] == before.tasks[key]
            } by {
                assert(after.tasks.remove_keys(keys).contains_key(key) == after.tasks.contains_key(
                    key,
                ));
                assert(before.tasks.remove_keys(keys).contains_key(key)
                    == before.tasks.contains_key(key));
                if after.tasks.contains_key(key) {
                    assert(after.tasks.remove_keys(keys)[key] == before.tasks.remove_keys(
                        keys,
                    )[key]);
                }
            }
        } else {
            let removed = choose|removed: Seq<SceneId>|
                {
                    &&& after.scenes == before.scenes.remove_keys(removed.to_set())
                    &&& removed.to_set().subset_of(outputs)
                    &&& after.events == before.events + #[trigger] scenes::removal_events(
                        before.scenes,
                        removed,
                    )
                };
            let events = scenes::removal_events(before.scenes, removed);
            lemma_changed_by_concat(before.events, events);
            assert forall|changed: SceneId|
                before.scenes.contains_key(changed) && !after.scenes.contains_key(
                    changed,
                ) implies #[trigger] ids::changed_by(after.events).contains(changed) by {
                scenes::lemma_removals_are_changes(before.scenes, removed, changed);
            }
        }
    }
}

/// The state between the last change of a sequence and those before it.
pub proof fn lemma_last_change(
    targets: Map<SceneId, Targets>,
    type_registry: AppTypeRegistry,
    order: Seq<SceneId>,
    before: WatchState,
    after: WatchState,
) -> (between: WatchState)
    requires
        order.len() > 0,
        watch::scene_steps(targets, type_registry, order, before, after),
    ensures
        watch::scene_steps(targets, type_registry, order.drop_last(), before, between),
        watch::scene_step(targets, type_registry, order.last(), between, after),
{
    choose|between: WatchState|
        {
            &&& watch::scene_steps(targets, type_registry, order.drop_last(), before, between)
            &&& #[trigger] watch::scene_step(targets, type_registry, order.last(), between, after)
        }
}

/// Saying several times that a scene has changed is the same as saying it once.
pub proof fn law_repeated_events_count_once(events: Seq<SceneEvent>, more: Seq<SceneEvent>)
    ensures
        ids::changed_by(events + more) == ids::changed_by(events).union(ids::changed_by(more)),
        ids::changed_by(events + events) == ids::changed_by(events),
{
    lemma_changed_by_concat(events, more);
    lemma_changed_by_concat(events, events);
    assert(ids::changed_by(events).union(ids::changed_by(events)) =~= ids::changed_by(events));
}

/// Two sequences of events report what each of them reports.
pub proof fn lemma_changed_by_concat(events: Seq<SceneEvent>, more: Seq<SceneEvent>)
    ensures
        ids::changed_by(events + more) == ids::changed_by(events).union(ids::changed_by(more)),
{
    let all = events + more;
    assert forall|id: SceneId| ids::changed_by(events).union(ids::changed_by(more)).contains(
        id,
    ) implies #[trigger] ids::changed_by(all).contains(id) by {
        if ids::changed_by(events).contains(id) {
            let i = choose|i: int|
                0 <= i < events.len() && ids::change_of(#[trigger] events[i]) == Some(id);
            assert(all[i] == events[i]);
        } else {
            let i = choose|i: int|
                0 <= i < more.len() && ids::change_of(#[trigger] more[i]) == Some(id);
            assert(all[events.len() + i] == more[i]);
        }
    }
    assert forall|id: SceneId| #[trigger] ids::changed_by(all).contains(id) implies ids::changed_by(
        events,
    ).union(ids::changed_by(more)).contains(id) by {
        let i = choose|i: int|
            0 <= i < all.len() && ids::change_of(#[trigger] all[i]) == Some(id);
        if i < events.len() {
            assert(events[i] == all[i]);
        } else {
            assert(more[i - events.len()] == all[i]);
        }
    }
    assert(ids::changed_by(all) =~= ids::changed_by(events).union(ids::changed_by(more)));
}

/// Changes of scenes that are not registered change nothing.
pub proof fn law_other_scenes_are_ignored(
    targets: Map<SceneId, Targets>,
    type_registry: AppTypeRegistry,
    order: Seq<SceneId>,
    before: WatchState,
    after: WatchState,
)
    requires
        watch::scene_steps(targets, type_registry, order, before, after),
        forall|i: int| 0 <= i < order.len() ==> !targets.contains_key(#[trigger] order[i]),
    ensures
        after == before,
    decreases order.len(),
{
    if order.len() > 0 {
        let between = lemma_last_change(targets, type_registry, order, before, after);
        assert forall|i: int| 0 <= i < order.drop_last().len() implies !targets.contains_key(
            #[trigger] order.drop_last()[i],
        ) by {
            assert(order.drop_last()[i] == order[i]);
        }
        law_other_scenes_are_ignored(targets, type_registry, order.drop_last(), before, between);
        assert(order.last() == order[order.len() - 1]);
    }
}

/// Handling changes stores no scene, and the only scenes that leave are those that a
/// changed scene is processed into. So an unprocessed scene stays stored, unless it is
/// itself the result of processing another one.
pub proof fn law_changes_remove_only_processed_scenes(
    targets: Map<SceneId, Targets>,
    type_registry: AppTypeRegistry,
    order: Seq<SceneId>,
    before: WatchState,
    after: WatchState,
)
    requires
        watch::scene_steps(targets, type_registry, order, before, after),
    ensures
        after.scenes.submap_of(before.scenes),
        forall|stored: SceneId|
            before.scenes.contains_key(stored) && !after.scenes.contains_key(stored)
                ==> #[trigger] is_output_of(targets, order, stored),
    decreases order.len(),
{
    if order.len() > 0 {
        let between = lemma_last_change(targets, type_registry, order, before, after);
        law_changes_remove_only_processed_scenes(
            targets,
            type_registry,
            order.drop_last(),
            before,
            between,
        );
        lemma_step_changes_own_keys(targets, type_registry, order.last(), between, after);
        assert forall|stored: SceneId| #[trigger] after.scenes.dom().contains(stored) implies {
            &&& before.scenes.dom().contains(stored)
            &&& after.scenes[stored] == before.scenes[stored]
        } by {
            assert(after.scenes.contains_key(stored));
            assert(between.scenes.dom().contains(stored) && before.scenes.dom().contains(stored));
        }
        assert forall|stored: SceneId|
            before.scenes.contains_key(stored) && !after.scenes.contains_key(
                stored,
            ) implies #[trigger] is_output_of(targets, order, stored) by {
            if between.scenes.contains_key(stored) {
                assert(order.contains(order.last())) by {
                    assert(order[order.len() - 1] == order.last());
                }
                assert(registry::registered(
                    targets,
                    PostProcessKey { unprocessed_id: order.last(), processed_id: stored },
                ));
            } else {
                assert(is_output_of(targets, order.drop_last(), stored));
                let key = choose|key: PostProcessKey| #[trigger]
                    registry::registered(targets, key) && key.processed_id == stored
                        && order.drop_last().contains(key.unprocessed_id);
                let i = order.drop_last().index_of(key.unprocessed_id);
                assert(order[i] == key.unprocessed_id);
            }
        }
    }
}

/// Whether `output` is what one of the scenes `from` is registered to be processed into.
pub open spec fn is_output_of(
    targets: Map<SceneId, Targets>,
    from: Seq<SceneId>,
    output: SceneId,
) -> bool {
    exists|key: PostProcessKey| #[trigger]
        registry::registered(targets, key) && key.processed_id == output && from.contains(
            key.unprocessed_id,
        )
}

/// Whether making a copy of `scene` has failed with one of `failures`.
pub open spec fn copy_failed(
    scene: Scene,
    type_registry: AppTypeRegistry,
    failures: Seq<SceneSpawnError>,
) -> bool {
    exists|error: SceneSpawnError| #[trigger]
        failures.contains(error) && scenes::clone_may(scene, type_registry, Some(Err(error)))
}

/// What a change of the scene `id`, which is stored, comes to: for each scene that it is
/// processed into there is a task on a copy of it, or copying it failed, no task of it is
/// left and none of the scenes that it is processed into is stored.
pub open spec fn change_processed(
    targets: Map<SceneId, Targets>,
    type_registry: AppTypeRegistry,
    id: SceneId,
    scene: Scene,
    after: WatchState,
) -> bool {
    ||| forall|key: PostProcessKey|
        key.unprocessed_id == id && #[trigger] registry::registered(targets, key) ==> {
            &&& after.tasks.contains_key(key)
            &&& watch::processes(
                after.tasks[key],
                scene,
                type_registry,
                registry::action_of(targets, key),
            )
        }
    ||| {
        &&& copy_failed(scene, type_registry, after.failures)
        &&& forall|key: PostProcessKey|
            key.unprocessed_id == id && #[trigger] registry::registered(targets, key) ==> {
                &&& !after.tasks.contains_key(key)
                &&& !after.scenes.contains_key(key.processed_id)
            }
    }
}

/// Whether no scene is processed into `id`.
pub open spec fn not_an_output(targets: Map<SceneId, Targets>, id: SceneId) -> bool {
    forall|key: PostProcessKey| #[trigger]
        registry::registered(targets, key) ==> key.processed_id != id
}

/// A change of a registered scene that is stored starts the processing of every scene that
/// it is processed into anew, however often and in whatever order changes are reported. If
/// it cannot be copied, its tasks are cancelled and the scenes that it is processed into
/// leave. (A scene that is itself the result of processing another one may leave before its
/// turn.)
pub proof fn law_change_restarts_processing(
    targets: Map<SceneId, Targets>,
    type_registry: AppTypeRegistry,
    order: Seq<SceneId>,
    before: WatchState,
    after: WatchState,
    id: SceneId,
)
    requires
        watch::scene_steps(targets, type_registry, order, before, after),
        order.no_duplicates(),
        order.contains(id),
        targets.contains_key(id),
        before.scenes.contains_key(id),
        not_an_output(targets, id),
    ensures
        change_processed(targets, type_registry, id, before.scenes[id], after),
    decreases order.len(),
{
    let between = lemma_last_change(targets, type_registry, order, before, after);
    let scene = before.scenes[id];
    lemma_step_changes_own_keys(targets, type_registry, order.last(), between, after);
    law_changes_remove_only_processed_scenes(
        targets,
        type_registry,
        order.drop_last(),
        before,
        between,
    );
    if order.last() == id {
        assert(between.scenes.contains_key(id)) by {
            if !between.scenes.contains_key(id) {
                assert(is_output_of(targets, order.drop_last(), id));
            }
        }
        assert(between.scenes.dom().contains(id) && before.scenes.dom().contains(id));
        assert(between.scenes[id] == scene);
        lemma_present_step(targets, type_registry, id, between, after);
    } else {
        let i = order.index_of(id);
        assert(order.drop_last()[i] == id);
        assert(order.drop_last().no_duplicates());
        law_change_restarts_processing(
            targets,
            type_registry,
            order.drop_last(),
            before,
            between,
            id,
        );
        if forall|key: PostProcessKey|
            key.unprocessed_id == id && #[trigger] registry::registered(targets, key) ==> {
                &&& between.tasks.contains_key(key)
                &&& watch::processes(
                    between.tasks[key],
                    scene,
                    type_registry,
                    registry::action_of(targets, key),
                )
            } {
            assert forall|key: PostProcessKey|
                key.unprocessed_id == id && #[trigger] registry::registered(targets, key) implies {
                &&& after.tasks.contains_key(key)
                &&& watch::processes(
                    after.tasks[key],
                    scene,
                    type_registry,
                    registry::action_of(targets, key),
                )
            } by {
                assert(after.tasks.contains_key(key) == between.tasks.contains_key(key));
            }
        } else {
            let error = choose|error: SceneSpawnError| #[trigger]
                between.failures.contains(error) && scenes::clone_may(
                    scene,
                    type_registry,
                    Some(Err(error)),
                );
            let n = between.failures.index_of(error);
            assert(after.failures.take(between.failures.len() as int)[n] == error);
            assert(after.failures[n] == error);
            assert(after.failures.contains(error));
            assert forall|key: PostProcessKey|
                key.unprocessed_id == id && #[trigger] registry::registered(targets, key) implies {
                &&& !after.tasks.contains_key(key)
                &&& !after.scenes.contains_key(key.processed_id)
            } by {
                assert(after.tasks.contains_key(key) == between.tasks.contains_key(key));
            }
        }
    }
}

pub proof fn lemma_present_step(
    targets: Map<SceneId, Targets>,
    type_registry: AppTypeRegistry,
    id: SceneId,
    before: WatchState,
    after: WatchState,
)
    requires
        watch::scene_step(targets, type_registry, id, before, after),
        targets.contains_key(id),
        before.scenes.contains_key(id),
    ensures
        change_processed(targets, type_registry, id, before.scenes[id], after),
{
    let scene = before.scenes[id];
    let outputs = targets[id].actions.dom();
    if watch::begun_step(id, targets[id], scene, type_registry, before, after) {
        assert forall|key: PostProcessKey|
            key.unprocessed_id == id && #[trigger] registry::registered(targets, key) implies {
            &&& after.tasks.contains_key(key)
            &&& watch::processes(
                after.tasks[key],
                scene,
                type_registry,
                registry::action_of(targets, key),
            )
        } by {
            assert(watch::keys_of(id, outputs).contains(key));
        }
    } else {
        let error = choose|error: SceneSpawnError|
            {
                &&& scenes::clone_may(scene, type_registry, Some(Err(error)))
                &&& after.failures == #[trigger] before.failures.push(error)
            };
        assert(after.failures[before.failures.len() as int] == error);
        assert(after.failures.contains(error));
        assert forall|key: PostProcessKey|
            key.unprocessed_id == id && #[trigger] registry::registered(targets, key) implies {
            &&& !after.tasks.contains_key(key)
            &&& !after.scenes.contains_key(key.processed_id)
        } by {
            assert(watch::keys_of(id, outputs).contains(key));
        }
    }
}

/// A change of a registered scene that is not stored cancels all its tasks, and the scenes
/// that it is processed into leave, except for those whose handle was found dropped, which
/// Bevy removes itself.
pub proof fn law_missing_scene_is_forgotten(
    targets: Map<SceneId, Targets>,
    type_registry: AppTypeRegistry,
    order: Seq<SceneId>,
    before: WatchState,
    after: WatchState,
    id: SceneId,
)
    requires
        watch::scene_steps(targets, type_registry, order, before, after),
        order.no_duplicates(),
        order.contains(id),
        targets.contains_key(id),
        !before.scenes.contains_key(id),
    ensures
        forall|key: PostProcessKey|
            key.unprocessed_id == id && #[trigger] registry::registered(targets, key) ==> {
                &&& !after.tasks.contains_key(key)
                &&& !after.scenes.contains_key(key.processed_id) || handles::seen_upgraded(
                    registry::action_of(targets, key).processed_handle,
                    false,
                )
            },
    decreases order.len(),
{
    let between = lemma_last_change(targets, type_registry, order, before, after);
    lemma_step_changes_own_keys(targets, type_registry, order.last(), between, after);
    law_changes_remove_only_processed_scenes(
        targets,
        type_registry,
        order.drop_last(),
        before,
        between,
    );
    if order.last() == id {
        assert(!between.scenes.contains_key(id)) by {
            if between.scenes.dom().contains(id) {
                assert(before.scenes.dom().contains(id));
            }
        }
        let used = choose|used: Seq<SceneId>|
            {
                &&& used.to_set().subset_of(targets[id].actions.dom())
                &&& watch::seen_used(targets[id], used.to_set())
                &&& after.scenes == between.scenes.remove_keys(used.to_set())
                &&& after.events == between.events + #[trigger] scenes::removal_events(
                    between.scenes,
                    used,
                )
            };
        assert forall|key: PostProcessKey|
            key.unprocessed_id == id && #[trigger] registry::registered(targets, key) implies {
            &&& !after.tasks.contains_key(key)
            &&& !after.scenes.contains_key(key.processed_id) || handles::seen_upgraded(
                registry::action_of(targets, key).processed_handle,
                false,
            )
        } by {
            assert(watch::keys_of(id, targets[id].actions.dom()).contains(key));
            assert(targets[id].actions.contains_key(key.processed_id));
        }
    } else {
        let i = order.index_of(id);
        assert(order.drop_last()[i] == id);
        assert(order.drop_last().no_duplicates());
        law_missing_scene_is_forgotten(
            targets,
            type_registry,
            order.drop_last(),
            before,
            between,
            id,
        );
        assert forall|key: PostProcessKey|
            key.unprocessed_id == id && #[trigger] registry::registered(targets, key) implies {
            &&& !after.tasks.contains_key(key)
            &&& !after.scenes.contains_key(key.processed_id) || handles::seen_upgraded(
                registry::action_of(targets, key).processed_handle,
                false,
            )
        } by {
            assert(after.tasks.contains_key(key) == between.tasks.contains_key(key));
        }
    }
}

// Actions.

/// Actions work in order: two lists, one applied after the other, do what the two put
/// together do.
pub proof fn law_actions_apply_in_order(
    first: Seq<Action>,
    second: Seq<Action>,
    scene: Scene,
    after: Scene,
)
    ensures
        actions::can_leave(first + second, scene, after) == exists|between: Scene| #[trigger]
            actions::can_leave(first, scene, between) && actions::can_leave(second, between, after),
    decreases second.len(),
{
    let all = first + second;
    if second.len() == 0 {
        assert(all =~= first);
        if actions::can_leave(all, scene, after) {
            assert(actions::can_leave(first, scene, after) && actions::can_leave(
                second,
                after,
                after,
            ));
        }
    } else {
        assert(all.drop_last() =~= first + second.drop_last());
        if actions::can_leave(all, scene, after) {
            let last = choose|last: Scene|
                actions::can_leave(all.drop_last(), scene, last) && #[trigger] actions::action_may(
                    all.last(),
                    last,
                    Some((after, Ok(()))),
                );
            law_actions_apply_in_order(first, second.drop_last(), scene, last);
            let between = choose|between: Scene| #[trigger]
                actions::can_leave(first, scene, between) && actions::can_leave(
                    second.drop_last(),
                    between,
                    last,
                );
            assert(actions::action_may(second.last(), last, Some((after, Ok(())))));
            assert(actions::can_leave(second, between, after));
        }
        if exists|between: Scene| #[trigger]
            actions::can_leave(first, scene, between) && actions::can_leave(
                second,
                between,
                after,
            ) {
            let between = choose|between: Scene| #[trigger]
                actions::can_leave(first, scene, between) && actions::can_leave(
                    second,
                    between,
                    after,
                );
            let last = choose|last: Scene|
                actions::can_leave(second.drop_last(), between, last)
                    && #[trigger] actions::action_may(second.last(), last, Some((after, Ok(()))));
            law_actions_apply_in_order(first, second.drop_last(), scene, last);
            assert(actions::action_may(all.last(), last, Some((after, Ok(())))));
        }
    }
}

// Finished tasks.

/// Whether the same is stored for `id`.
pub open spec fn same_scene(
    before: Map<SceneId, Scene>,
    after: Map<SceneId, Scene>,
    id: SceneId,
) -> bool {
    &&& before.contains_key(id) == after.contains_key(id)
    &&& before.contains_key(id) ==> before[id] == after[id]
}

/// Whether no two registrations are processed into the same scene.
pub open spec fn outputs_apart(targets: Map<SceneId, Targets>) -> bool {
    forall|a: PostProcessKey, b: PostProcessKey|
        #![trigger registry::registered(targets, a), registry::registered(targets, b)]
        registry::registered(targets, a) && registry::registered(targets, b) && a.processed_id
            == b.processed_id ==> a == b
}

/// A registration with a processed scene of its own keeps the processed scenes apart.
pub proof fn law_registration_keeps_outputs_apart(
    targets: Map<SceneId, Targets>,
    scene: SceneHandle,
    output: SceneId,
    action: PostProcessAction,
)
    requires
        outputs_apart(targets),
        not_an_output(targets, output),
    ensures
        outputs_apart(registry::with_action(targets, scene, output, action)),
{
    registry::lemma_with_action(targets, scene, output, action);
}

/// Dropping registrations keeps the processed scenes of the rest apart.
pub proof fn law_dropping_keeps_outputs_apart(
    targets: Map<SceneId, Targets>,
    dropped: Set<PostProcessKey>,
)
    requires
        outputs_apart(targets),
    ensures
        outputs_apart(cleanup::without_all(targets, dropped)),
{
    law_dropping_keeps_the_rest(targets, dropped);
}

/// The state between the last task of a sequence and those before it.
pub proof fn lemma_last_task(
    targets: Map<SceneId, Targets>,
    order: Seq<PostProcessKey>,
    before: FinishState,
    after: FinishState,
) -> (between: FinishState)
    requires
        order.len() > 0,
        finish::task_steps(targets, order, before, after),
    ensures
        finish::task_steps(targets, order.drop_last(), before, between),
        finish::task_step(targets, order.last(), between, after),
{
    choose|between: FinishState|
        {
            &&& finish::task_steps(targets, order.drop_last(), before, between)
            &&& #[trigger] finish::task_step(targets, order.last(), between, after)
        }
}

/// Handling tasks touches no other task, no scene but those that they are processed into,
/// and no failure that was there.
pub proof fn lemma_tasks_change_own_scenes(
    targets: Map<SceneId, Targets>,
    order: Seq<PostProcessKey>,
    before: FinishState,
    after: FinishState,
)
    requires
        finish::task_steps(targets, order, before, after),
    ensures
        forall|key: PostProcessKey|
            !order.contains(key) ==> {
                &&& #[trigger] after.tasks.contains_key(key) == before.tasks.contains_key(key)
                &&& after.tasks.contains_key(key) ==> after.tasks[key] == before.tasks[key]
            },
        forall|id: SceneId|
            (forall|i: int| 0 <= i < order.len() ==> (#[trigger] order[i]).processed_id != id)
                ==> #[trigger] same_scene(before.scenes, after.scenes, id),
        forall|failure: ProcessFailure|
            before.failures.contains(failure) ==> #[trigger] after.failures.contains(failure),
    decreases order.len(),
{
    if order.len() > 0 {
        let rest = order.drop_last();
        let last = order.last();
        let between = lemma_last_task(targets, order, before, after);
        lemma_tasks_change_own_scenes(targets, rest, before, between);
        assert(order[order.len() - 1] == last);
        assert forall|key: PostProcessKey| !order.contains(key) implies {
            &&& #[trigger] after.tasks.contains_key(key) == before.tasks.contains_key(key)
            &&& after.tasks.contains_key(key) ==> after.tasks[key] == before.tasks[key]
        } by {
            assert(!rest.contains(key)) by {
                if rest.contains(key) {
                    assert(order[rest.index_of(key)] == key);
                }
            }
            assert(between.tasks.contains_key(key) == before.tasks.contains_key(key));
        }
        assert forall|id: SceneId|
            (forall|i: int| 0 <= i < order.len() ==> (#[trigger] order[i]).processed_id
                != id) implies #[trigger] same_scene(before.scenes, after.scenes, id) by {
            assert forall|i: int| 0 <= i < rest.len() implies (#[trigger] rest[i]).processed_id
                != id by {
                assert(order[i] == rest[i]);
            }
            assert(same_scene(before.scenes, between.scenes, id));
        }
        assert forall|failure: ProcessFailure| before.failures.contains(
            failure,
        ) implies #[trigger] after.failures.contains(failure) by {
            assert(between.failures.contains(failure));
            let i = between.failures.index_of(failure);
            assert(after.failures[i] == failure);
        }
    }
}

/// What becomes of the task of `key`, which is registered: it has not run and stays; or it
/// gave an error, which is reported, and the scene that it was processed into is not
/// stored; or it gave a scene, which is stored, unless its handle was found dropped.
pub open spec fn task_outcome(
    targets: Map<SceneId, Targets>,
    key: PostProcessKey,
    before: FinishState,
    after: FinishState,
) -> bool {
    let handle = registry::action_of(targets, key).processed_handle;
    ||| {
        &&& jobs::seen_finished(before.tasks[key], false)
        &&& after.tasks.contains_key(key)
        &&& after.tasks[key] == before.tasks[key]
        &&& same_scene(before.scenes, after.scenes, key.processed_id)
    }
    ||| exists|output: Result<Scene, String>|
        {
            &&& #[trigger] jobs::task_may(before.tasks[key], output)
            &&& jobs::seen_finished(before.tasks[key], true)
            &&& !after.tasks.contains_key(key)
            &&& match output {
                Err(error) => {
                    &&& !after.scenes.contains_key(key.processed_id)
                    &&& after.failures.contains(
                        ProcessFailure { unprocessed_id: key.unprocessed_id, error },
                    )
                },
                Ok(scene) => {
                    ||| {
                        &&& handles::seen_upgraded(handle, true)
                        &&& after.scenes.contains_key(key.processed_id)
                        &&& after.scenes[key.processed_id] == scene
                    }
                    ||| {
                        &&& handles::seen_upgraded(handle, false)
                        &&& same_scene(before.scenes, after.scenes, key.processed_id)
                    }
                },
            }
        }
}

proof fn lemma_task_outcome(
    targets: Map<SceneId, Targets>,
    order: Seq<PostProcessKey>,
    before: FinishState,
    after: FinishState,
    key: PostProcessKey,
)
    requires
        finish::task_steps(targets, order, before, after),
        order.no_duplicates(),
        order.contains(key),
        before.tasks.contains_key(key),
        registry::registered(targets, key),
        forall|i: int|
            0 <= i < order.len() && order[i] != key ==> (#[trigger] order[i]).processed_id
                != key.processed_id,
    ensures
        task_outcome(targets, key, before, after),
    decreases order.len(),
{
    let rest = order.drop_last();
    let last = order.last();
    let between = lemma_last_task(targets, order, before, after);
    let at = order.index_of(key);
    assert(order[order.len() - 1] == last);
    assert forall|i: int| 0 <= i < rest.len() implies #[trigger] rest[i] == order[i] by {}
    if last == key {
        lemma_tasks_change_own_scenes(targets, rest, before, between);
        assert(!rest.contains(key)) by {
            if rest.contains(key) {
                assert(order[rest.index_of(key)] == key);
            }
        }
        assert(between.tasks.contains_key(key) == before.tasks.contains_key(key));
        assert(same_scene(before.scenes, between.scenes, key.processed_id));
        if !(after == between && jobs::seen_finished(between.tasks[key], false)) {
            let output = choose|output: Result<Scene, String>|
                {
                    &&& jobs::seen_finished(between.tasks[key], true)
                    &&& jobs::task_may(between.tasks[key], output)
                    &&& #[trigger] finish::output_step(targets, key, output, between, after)
                };
            assert(jobs::task_may(before.tasks[key], output));
            if let Err(error) = output {
                let failure = ProcessFailure { unprocessed_id: key.unprocessed_id, error };
                assert(after.failures[between.failures.len() as int] == failure);
                assert(after.failures.contains(failure));
            }
        }
    } else {
        assert(rest[at] == key);
        assert(rest.no_duplicates());
        lemma_task_outcome(targets, rest, before, between, key);
        let one = seq![last];
        assert(one.drop_last() =~= Seq::empty());
        assert(finish::task_steps(targets, one.drop_last(), between, between));
        assert(finish::task_step(targets, one.last(), between, after));
        assert(finish::task_steps(targets, one, between, after));
        lemma_tasks_change_own_scenes(targets, one, between, after);
        assert(!one.contains(key));
        assert(after.tasks.contains_key(key) == between.tasks.contains_key(key));
        assert(same_scene(between.scenes, after.scenes, key.processed_id));
        if !(after.tasks.contains_key(key) && jobs::seen_finished(before.tasks[key], false)) {
            let handle = registry::action_of(targets, key).processed_handle;
            let output = choose|output: Result<Scene, String>|
                {
                    &&& #[trigger] jobs::task_may(before.tasks[key], output)
                    &&& jobs::seen_finished(before.tasks[key], true)
                    &&& !between.tasks.contains_key(key)
                    &&& match output {
                        Err(error) => {
                            &&& !between.scenes.contains_key(key.processed_id)
                            &&& between.failures.contains(
                                ProcessFailure { unprocessed_id: key.unprocessed_id, error },
                            )
                        },
                        Ok(scene) => {
                            ||| {
                                &&& handles::seen_upgraded(handle, true)
                                &&& between.scenes.contains_key(key.processed_id)
                                &&& between.scenes[key.processed_id] == scene
                            }
                            ||| {
                                &&& handles::seen_upgraded(handle, false)
                                &&& same_scene(before.scenes, between.scenes, key.processed_id)
                            }
                        },
                    }
                };
            assert(jobs::task_may(before.tasks[key], output));
            if let Err(error) = output {
                let failure = ProcessFailure { unprocessed_id: key.unprocessed_id, error };
                assert(after.failures.contains(failure));
            }
        }
    }
}

/// Every task is handled for itself, in whatever order: what becomes of it depends on
/// nothing but the task and the handle that its result is written to.
pub proof fn law_each_task_has_its_outcome(
    targets: Map<SceneId, Targets>,
    order: Seq<PostProcessKey>,
    before: FinishState,
    after: FinishState,
    key: PostProcessKey,
)
    requires
        outputs_apart(targets),
        tasks_registered(before.tasks, targets),
        order.no_duplicates(),
        order.to_set() == before.tasks.dom(),
        finish::task_steps(targets, order, before, after),
        before.tasks.contains_key(key),
    ensures
        task_outcome(targets, key, before, after),
{
    assert(order.to_set().contains(key));
    assert forall|i: int| 0 <= i < order.len() && order[i] != key implies (#[trigger]
    order[i]).processed_id != key.processed_id by {
        assert(order.to_set().contains(order[i]));
        assert(before.tasks.contains_key(order[i]));
        assert(registry::registered(targets, order[i]) && registry::registered(targets, key));
    }
    lemma_task_outcome(targets, order, before, after, key);
}

/// A scene is stored only once all actions have been completed on the scene that its task
/// was begun with. Everything else that is stored was stored before.
pub proof fn law_only_completed_scenes_are_stored(
    targets: Map<SceneId, Targets>,
    order: Seq<PostProcessKey>,
    before: FinishState,
    after: FinishState,
)
    requires
        order.no_duplicates(),
        forall|key: PostProcessKey| #[trigger]
            order.contains(key) ==> before.tasks.contains_key(key),
        finish::task_steps(targets, order, before, after),
    ensures
        forall|id: SceneId| #[trigger]
            after.scenes.contains_key(id) ==> {
                ||| before.scenes.contains_key(id) && after.scenes[id] == before.scenes[id]
                ||| completed(targets, order, before, id, after.scenes[id])
            },
    decreases order.len(),
{
    if order.len() > 0 {
        let rest = order.drop_last();
        let last = order.last();
        let between = lemma_last_task(targets, order, before, after);
        assert forall|key: PostProcessKey| #[trigger]
            rest.contains(key) implies before.tasks.contains_key(key) by {
            assert(order[rest.index_of(key)] == key);
            assert(order.contains(key));
        }
        law_only_completed_scenes_are_stored(targets, rest, before, between);
        lemma_tasks_change_own_scenes(targets, rest, before, between);
        assert(order[order.len() - 1] == last);
        assert(order.contains(last));
        assert(!rest.contains(last)) by {
            if rest.contains(last) {
                assert(order[rest.index_of(last)] == last);
            }
        }
        assert(between.tasks.contains_key(last) == before.tasks.contains_key(last));
        assert forall|id: SceneId| #[trigger] after.scenes.contains_key(id) implies {
            ||| before.scenes.contains_key(id) && after.scenes[id] == before.scenes[id]
            ||| completed(targets, order, before, id, after.scenes[id])
        } by {
            let scene = after.scenes[id];
            if between.scenes.contains_key(id) && between.scenes[id] == scene {
                if completed(targets, rest, before, id, scene) {
                    let key = choose|key: PostProcessKey|
                        {
                            &&& #[trigger] rest.contains(key)
                            &&& key.processed_id == id
                            &&& registry::registered(targets, key)
                            &&& actions::can_leave(
                                jobs::task_start(before.tasks[key]).0,
                                jobs::task_start(before.tasks[key]).1,
                                scene,
                            )
                        };
                    assert(order[rest.index_of(key)] == key);
                    assert(order.contains(key));
                }
            }
        }
    }
}

/// Whether `scene` is what one of the tasks of `order` can give for `id`.
pub open spec fn completed(
    targets: Map<SceneId, Targets>,
    order: Seq<PostProcessKey>,
    before: FinishState,
    id: SceneId,
    scene: Scene,
) -> bool {
    exists|key: PostProcessKey|
        {
            &&& #[trigger] order.contains(key)
            &&& key.processed_id == id
            &&& registry::registered(targets, key)
            &&& actions::can_leave(
                jobs::task_start(before.tasks[key]).0,
                jobs::task_start(before.tasks[key]).1,
                scene,
            )
        }
}

/// Handling tasks queues events only for the scenes that they are processed into.
pub proof fn lemma_tasks_queue_own_events(
    targets: Map<SceneId, Targets>,
    order: Seq<PostProcessKey>,
    before: FinishState,
    after: FinishState,
    id: SceneId,
)
    requires
        finish::task_steps(targets, order, before, after),
        forall|i: int| 0 <= i < order.len() ==> (#[trigger] order[i]).processed_id != id,
    ensures
        ids::event_count(after.events, id) == ids::event_count(before.events, id),
    decreases order.len(),
{
    if order.len() > 0 {
        let rest = order.drop_last();
        let between = lemma_last_task(targets, order, before, after);
        assert forall|i: int| 0 <= i < rest.len() implies (#[trigger] rest[i]).processed_id
            != id by {
            assert(order[i] == rest[i]);
        }
        lemma_tasks_queue_own_events(targets, rest, before, between, id);
        assert(order[order.len() - 1] == order.last());
        lemma_task_queues_one_event(targets, order.last(), between, after, id);
    }
}

/// Handling a task queues at most one event, which is about the scene that it is processed
/// into, and one if that scene changes.
pub proof fn lemma_task_queues_one_event(
    targets: Map<SceneId, Targets>,
    key: PostProcessKey,
    before: FinishState,
    after: FinishState,
    id: SceneId,
)
    requires
        finish::task_step(targets, key, before, after),
    ensures
        ({
            let count_before = ids::event_count(before.events, id);
            let count_after = ids::event_count(after.events, id);
            &&& count_before <= count_after <= count_before + 1
            &&& key.processed_id != id ==> count_after == count_before
            &&& !same_scene(before.scenes, after.scenes, id) ==> count_after == count_before + 1
        }),
{
    if after != before {
        let output = choose|output: Result<Scene, String>|
            {
                &&& jobs::seen_finished(before.tasks[key], true)
                &&& jobs::task_may(before.tasks[key], output)
                &&& #[trigger] finish::output_step(targets, key, output, before, after)
            };
        let removed = SceneEvent::Removed { id: key.processed_id };
        let stored = scenes::storing_event(before.scenes, key.processed_id);
        scenes::lemma_removal_of_one(before.scenes, key.processed_id);
        assert(before.events + seq![removed] =~= before.events.push(removed));
        assert(before.events + Seq::empty() =~= before.events);
        assert(before.events.push(removed).drop_last() =~= before.events);
        assert(before.events.push(stored).drop_last() =~= before.events);
    }
}

/// However many changes a result stands for, storing it queues one event: handling the
/// finished tasks queues at most one event about a processed scene, and exactly one if it is
/// stored, replaced or removed.
pub proof fn law_each_result_queues_one_event(
    targets: Map<SceneId, Targets>,
    order: Seq<PostProcessKey>,
    before: FinishState,
    after: FinishState,
    key: PostProcessKey,
)
    requires
        outputs_apart(targets),
        tasks_registered(before.tasks, targets),
        order.no_duplicates(),
        order.to_set() == before.tasks.dom(),
        finish::task_steps(targets, order, before, after),
        registry::registered(targets, key),
    ensures
        ({
            let count_before = ids::event_count(before.events, key.processed_id);
            let count_after = ids::event_count(after.events, key.processed_id);
            &&& count_before <= count_after <= count_before + 1
            &&& !before.tasks.contains_key(key) ==> count_after == count_before
            &&& !same_scene(before.scenes, after.scenes, key.processed_id) ==> count_after
                == count_before + 1
        }),
{
    assert forall|i: int| 0 <= i < order.len() && order[i] != key implies (#[trigger]
    order[i]).processed_id != key.processed_id by {
        assert(order.to_set().contains(order[i]));
        assert(before.tasks.contains_key(order[i]));
        assert(registry::registered(targets, order[i]) && registry::registered(targets, key));
    }
    if !before.tasks.contains_key(key) {
        assert(!order.to_set().contains(key));
        lemma_tasks_queue_own_events(targets, order, before, after, key.processed_id);
        lemma_tasks_change_own_scenes(targets, order, before, after);
    } else {
        assert(order.to_set().contains(key));
        lemma_own_task_queues_one_event(targets, order, before, after, key);
    }
}

proof fn lemma_own_task_queues_one_event(
    targets: Map<SceneId, Targets>,
    order: Seq<PostProcessKey>,
    before: FinishState,
    after: FinishState,
    key: PostProcessKey,
)
    requires
        finish::task_steps(targets, order, before, after),
        order.no_duplicates(),
        order.contains(key),
        forall|i: int|
            0 <= i < order.len() && order[i] != key ==> (#[trigger] order[i]).processed_id
                != key.processed_id,
    ensures
        ({
            let count_before = ids::event_count(before.events, key.processed_id);
            let count_after = ids::event_count(after.events, key.processed_id);
            &&& count_before <= count_after <= count_before + 1
            &&& !same_scene(before.scenes, after.scenes, key.processed_id) ==> count_after
                == count_before + 1
        }),
    decreases order.len(),
{
    let id = key.processed_id;
    let rest = order.drop_last();
    let last = order.last();
    let between = lemma_last_task(targets, order, before, after);
    let at = order.index_of(key);
    assert(order[order.len() - 1] == last);
    assert forall|i: int| 0 <= i < rest.len() implies #[trigger] rest[i] == order[i] by {}
    lemma_task_queues_one_event(targets, last, between, after, id);
    if last == key {
        lemma_tasks_queue_own_events(targets, rest, before, between, id);
        lemma_tasks_change_own_scenes(targets, rest, before, between);
        assert(same_scene(before.scenes, between.scenes, id));
    } else {
        assert(rest[at] == key);
        assert(rest.no_duplicates());
        lemma_own_task_queues_one_event(targets, rest, before, between, key);
    }
}

// A whole frame.

/// Whether `processed` is what `action` can make of a copy of `scene`.
pub open spec fn processed_from(
    processed: Scene,
    scene: Scene,
    type_registry: AppTypeRegistry,
    action: PostProcessAction,
) -> bool {
    exists|copy: Scene|
        {
            &&& #[trigger] scenes::clone_may(scene, type_registry, Some(Ok(copy)))
            &&& actions::can_leave(action.actions@, copy, processed)
        }
}

/// A task that processes `scene` and is found to have run leaves the processed scene in
/// step with `scene`: what is stored is made from a copy of it by all the actions, in
/// order; or an action failed, which is reported, and nothing is stored; or nobody holds
/// the handle of the processed scene.
pub open spec fn in_step(
    targets: Map<SceneId, Targets>,
    type_registry: AppTypeRegistry,
    key: PostProcessKey,
    scene: Scene,
    after: FinishState,
) -> bool {
    let action = registry::action_of(targets, key);
    ||| {
        &&& after.scenes.contains_key(key.processed_id)
        &&& processed_from(after.scenes[key.processed_id], scene, type_registry, action)
    }
    ||| {
        &&& !after.scenes.contains_key(key.processed_id)
        &&& exists|failure: ProcessFailure| #[trigger]
            after.failures.contains(failure) && failure.unprocessed_id == key.unprocessed_id
    }
    ||| handles::seen_upgraded(action.processed_handle, false)
}

/// A task that processes `scene` stays and goes on processing it, or leaves the processed
/// scene in step with `scene`.
pub proof fn law_task_brings_processed_scene_in_step(
    targets: Map<SceneId, Targets>,
    type_registry: AppTypeRegistry,
    order: Seq<PostProcessKey>,
    before: FinishState,
    after: FinishState,
    key: PostProcessKey,
    scene: Scene,
)
    requires
        outputs_apart(targets),
        tasks_registered(before.tasks, targets),
        order.no_duplicates(),
        order.to_set() == before.tasks.dom(),
        finish::task_steps(targets, order, before, after),
        before.tasks.contains_key(key),
        watch::processes(
            before.tasks[key],
            scene,
            type_registry,
            registry::action_of(targets, key),
        ),
    ensures
        if after.tasks.contains_key(key) {
            after.tasks[key] == before.tasks[key]
        } else {
            in_step(targets, type_registry, key, scene, after)
        },
{
    law_each_task_has_its_outcome(targets, order, before, after, key);
}

/// Handling finished tasks changes nothing for a registration that has no task.
proof fn lemma_no_task_no_change(
    targets: Map<SceneId, Targets>,
    order: Seq<PostProcessKey>,
    before: FinishState,
    after: FinishState,
    key: PostProcessKey,
)
    requires
        outputs_apart(targets),
        tasks_registered(before.tasks, targets),
        order.to_set() == before.tasks.dom(),
        finish::task_steps(targets, order, before, after),
        registry::registered(targets, key),
        !before.tasks.contains_key(key),
    ensures
        !after.tasks.contains_key(key),
        same_scene(before.scenes, after.scenes, key.processed_id),
{
    lemma_tasks_change_own_scenes(targets, order, before, after);
    assert(!order.to_set().contains(key));
    assert(after.tasks.contains_key(key) == before.tasks.contains_key(key));
    assert forall|i: int| 0 <= i < order.len() implies (#[trigger] order[i]).processed_id
        != key.processed_id by {
        assert(order.to_set().contains(order[i]));
        assert(before.tasks.contains_key(order[i]));
        assert(registry::registered(targets, order[i]) && registry::registered(targets, key));
    }
}

/// The processed scenes follow the unprocessed scene. Where a scene that is stored and
/// registered has changed, then at the end of the frame, for each scene that it is processed
/// into, the one task that is left processes the scene as it is now, or the processed scene
/// is in step with it, or no copy could be made, which is reported, and the processed scene
/// is not stored. (A scene that is itself the result of processing another one may leave
/// before its turn.)
pub proof fn law_processed_scenes_follow_unprocessed(
    targets: Map<SceneId, Targets>,
    type_registry: AppTypeRegistry,
    changed: Seq<SceneId>,
    before: WatchState,
    watched: WatchState,
    order: Seq<PostProcessKey>,
    begun: FinishState,
    after: FinishState,
    key: PostProcessKey,
)
    requires
        outputs_apart(targets),
        tasks_registered(before.tasks, targets),
        changed.no_duplicates(),
        watch::scene_steps(targets, type_registry, changed, before, watched),
        begun.scenes == watched.scenes,
        begun.tasks == watched.tasks,
        order.no_duplicates(),
        order.to_set() == begun.tasks.dom(),
        finish::task_steps(targets, order, begun, after),
        registry::registered(targets, key),
        changed.contains(key.unprocessed_id),
        before.scenes.contains_key(key.unprocessed_id),
        not_an_output(targets, key.unprocessed_id),
    ensures
        ({
            let scene = before.scenes[key.unprocessed_id];
            ||| {
                &&& after.tasks.contains_key(key)
                &&& watch::processes(
                    after.tasks[key],
                    scene,
                    type_registry,
                    registry::action_of(targets, key),
                )
            }
            ||| {
                &&& !after.tasks.contains_key(key)
                &&& in_step(targets, type_registry, key, scene, after)
            }
            ||| {
                &&& !after.tasks.contains_key(key)
                &&& !after.scenes.contains_key(key.processed_id)
                &&& copy_failed(scene, type_registry, watched.failures)
            }
        }),
{
    let scene = before.scenes[key.unprocessed_id];
    law_change_restarts_processing(
        targets,
        type_registry,
        changed,
        before,
        watched,
        key.unprocessed_id,
    );
    law_watching_keeps_tasks_registered(targets, type_registry, changed, before, watched);
    if watched.tasks.contains_key(key) {
        law_task_brings_processed_scene_in_step(
            targets,
            type_registry,
            order,
            begun,
            after,
            key,
            scene,
        );
    } else {
        lemma_no_task_no_change(targets, order, begun, after, key);
    }
}

/// Where a registered scene that is not stored any more was reported to have changed, then
/// at the end of the frame no task processes it and none of the scenes that it is processed
/// into is stored, except for those whose handle was found dropped, which Bevy removes
/// itself.
pub proof fn law_processed_scenes_leave_with_unprocessed(
    targets: Map<SceneId, Targets>,
    type_registry: AppTypeRegistry,
    changed: Seq<SceneId>,
    before: WatchState,
    watched: WatchState,
    order: Seq<PostProcessKey>,
    begun: FinishState,
    after: FinishState,
    key: PostProcessKey,
)
    requires
        outputs_apart(targets),
        tasks_registered(before.tasks, targets),
        changed.no_duplicates(),
        watch::scene_steps(targets, type_registry, changed, before, watched),
        begun.scenes == watched.scenes,
        begun.tasks == watched.tasks,
        order.to_set() == begun.tasks.dom(),
        finish::task_steps(targets, order, begun, after),
        registry::registered(targets, key),
        changed.contains(key.unprocessed_id),
        !before.scenes.contains_key(key.unprocessed_id),
    ensures
        !after.tasks.contains_key(key),
        !after.scenes.contains_key(key.processed_id) || handles::seen_upgraded(
            registry::action_of(targets, key).processed_handle,
            false,
        ),
{
    law_missing_scene_is_forgotten(
        targets,
        type_registry,
        changed,
        before,
        watched,
        key.unprocessed_id,
    );
    law_watching_keeps_tasks_registered(targets, type_registry, changed, before, watched);
    lemma_no_task_no_change(targets, order, begun, after, key);
}

} // verus!
