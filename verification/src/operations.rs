//! What the operations come to, in terms of events, handles, scenes, actions and tasks
//! themselves.

use bevy::asset::StrongHandle;
use bevy::prelude::AppTypeRegistry;
use bevy::scene::{Scene, SceneSpawnError};
use std::sync::Arc;
use vstd::prelude::*;

use crate::actions;
use crate::actions::Action;
use crate::cleanup;
use crate::finish;
use crate::finish::{FinishState, ProcessFailure};
use crate::handles;
use crate::handles::SceneHandle;
use crate::ids;
use crate::ids::{PostProcessKey, SceneEvent, SceneId};
use crate::jobs;
use crate::jobs::SceneTask;
use crate::laws;
use crate::registry;
use crate::registry::{PostProcessAction, RegisteredPostProcessActions, Targets};
use crate::scenes;
use crate::scenes::SceneStore;
use crate::tables;
use crate::tables::ScenePostProcessTasks;
use crate::watch;
use crate::watch::WatchState;

verus! {

// Events.

/// A scene has changed exactly if an event says that it was added, modified or removed.
/// That it is unused, or that its dependencies are loaded, is no change.
pub proof fn law_changes_are_additions_modifications_and_removals(
    events: Seq<SceneEvent>,
    id: SceneId,
)
    ensures
        ids::changed_by(events).contains(id) == (events.contains(SceneEvent::Added { id })
            || events.contains(SceneEvent::Modified { id }) || events.contains(
            SceneEvent::Removed { id },
        )),
{
    if ids::changed_by(events).contains(id) {
        let i = choose|i: int|
            0 <= i < events.len() && ids::change_of(#[trigger] events[i]) == Some(id);
        assert(events.contains(events[i]));
    }
    if events.contains(SceneEvent::Added { id }) {
        let i = events.index_of(SceneEvent::Added { id });
        assert(ids::change_of(events[i]) == Some(id));
    }
    if events.contains(SceneEvent::Modified { id }) {
        let i = events.index_of(SceneEvent::Modified { id });
        assert(ids::change_of(events[i]) == Some(id));
    }
    if events.contains(SceneEvent::Removed { id }) {
        let i = events.index_of(SceneEvent::Removed { id });
        assert(ids::change_of(events[i]) == Some(id));
    }
}

/// One more event counts for the scene that it is about, and for no other.
pub proof fn law_every_event_counts_once(events: Seq<SceneEvent>, event: SceneEvent, id: SceneId)
    ensures
        ids::event_count(Seq::empty(), id) == 0,
        ids::event_count(events.push(event), id) == ids::event_count(events, id) + (if event
            == (SceneEvent::Added { id }) || event == (SceneEvent::Modified { id }) || event == (
        SceneEvent::Removed { id }) || event == (SceneEvent::Unused { id }) || event == (
        SceneEvent::LoadedWithDependencies { id }) {
            1nat
        } else {
            0nat
        }),
{
    assert(events.push(event).drop_last() =~= events);
}

/// Storing a scene is an addition where there was none, and a modification where there was
/// one.
pub proof fn law_storing_adds_or_modifies(stored: Map<SceneId, Scene>, id: SceneId)
    ensures
        stored.contains_key(id) ==> scenes::storing_event(stored, id) == (SceneEvent::Modified {
            id,
        }),
        !stored.contains_key(id) ==> scenes::storing_event(stored, id) == (SceneEvent::Added {
            id,
        }),
{
}

/// Removing scenes has one event for each that is stored, and no other.
pub proof fn law_removing_has_one_event_for_each_stored_scene(
    stored: Map<SceneId, Scene>,
    removed: Seq<SceneId>,
)
    ensures
        scenes::removal_events(stored, removed).no_duplicates(),
        forall|event: SceneEvent| #[trigger]
            scenes::removal_events(stored, removed).contains(event) ==> (exists|id: SceneId|
                event == (SceneEvent::Removed { id }) && #[trigger] removed.contains(id)
                    && stored.contains_key(id)),
        forall|id: SceneId| #[trigger]
            removed.contains(id) && stored.contains_key(id) ==> scenes::removal_events(
                stored,
                removed,
            ).contains(SceneEvent::Removed { id }),
    decreases removed.len(),
{
    if removed.len() > 0 {
        let rest = removed.drop_last();
        let last = removed.last();
        let before = scenes::removal_events(stored, rest);
        let events = scenes::removal_events(stored, removed);
        law_removing_has_one_event_for_each_stored_scene(stored, rest);
        assert(removed[removed.len() - 1] == last);
        assert forall|id: SceneId| #[trigger] rest.contains(id) implies removed.contains(id) by {
            assert(removed[rest.index_of(id)] == id);
        }
        let event = SceneEvent::Removed { id: last };
        assert forall|other: SceneEvent| #[trigger] events.contains(other) implies (exists|
            id: SceneId,
        |
            other == (SceneEvent::Removed { id }) && #[trigger] removed.contains(id)
                && stored.contains_key(id)) by {
            let i = events.index_of(other);
            if i < before.len() {
                assert(before[i] == other);
                assert(before.contains(other));
                let id = choose|id: SceneId|
                    other == (SceneEvent::Removed { id }) && #[trigger] rest.contains(id)
                        && stored.contains_key(id);
                assert(removed.contains(id));
            } else {
                assert(removed.contains(last));
            }
        }
        assert forall|id: SceneId| #[trigger]
            removed.contains(id) && stored.contains_key(id) implies events.contains(
            SceneEvent::Removed { id },
        ) by {
            if rest.contains(id) {
                let i = before.index_of(SceneEvent::Removed { id });
                assert(events[i] == before[i]);
            } else {
                let i = removed.index_of(id);
                if i < removed.len() - 1 {
                    assert(rest[i] == id);
                }
                assert(events[events.len() - 1] == event);
            }
        }
        if events.len() > before.len() {
            assert(!before.contains(event)) by {
                if before.contains(event) {
                    let id = choose|id: SceneId|
                        event == (SceneEvent::Removed { id }) && #[trigger] rest.contains(id)
                            && stored.contains_key(id);
                }
            }
            assert forall|i: int, j: int|
                0 <= i < events.len() && 0 <= j < events.len() && i != j implies events[i]
                != events[j] by {
                if i == before.len() {
                    assert(before.contains(before[j]));
                } else if j == before.len() {
                    assert(before.contains(before[i]));
                }
            }
        }
    }
}

/// Removing one more scene has its event after those of the others, if it is still stored
/// then.
pub proof fn law_removing_one_more(
    stored: Map<SceneId, Scene>,
    removed: Seq<SceneId>,
    id: SceneId,
)
    ensures
        scenes::removal_events(stored, Seq::empty()) == Seq::<SceneEvent>::empty(),
        scenes::removal_events(stored, removed.push(id)) == (if stored.contains_key(id)
            && !removed.contains(id) {
            scenes::removal_events(stored, removed).push(SceneEvent::Removed { id })
        } else {
            scenes::removal_events(stored, removed)
        }),
{
    assert(removed.push(id).drop_last() =~= removed);
}

// Handles.

/// A handle names the scene that it was made for: a strong one by the identifier in its
/// allocation, a weak one by its own.
pub proof fn law_handle_names_its_scene(handle: Arc<StrongHandle>, id: SceneId)
    ensures
        SceneHandle::Strong(handle).scene_id() == handles::strong_id(handle),
        SceneHandle::Weak(id).scene_id() == id,
{
}

// Actions.

/// No action leaves the scene as it is.
pub proof fn law_no_action_changes_nothing(scene: Scene, after: Scene)
    ensures
        actions::can_leave(Seq::empty(), scene, after) == (after == scene),
{
}

/// One action leaves what it can leave when it succeeds.
pub proof fn law_one_action_has_to_succeed(action: Action, scene: Scene, after: Scene)
    ensures
        actions::can_leave(seq![action], scene, after) == actions::action_may(
            action,
            scene,
            Some((after, Ok(()))),
        ),
{
    let all = seq![action];
    assert(all.drop_last() =~= Seq::empty());
    if actions::can_leave(all, scene, after) {
        let before = choose|before: Scene|
            actions::can_leave(all.drop_last(), scene, before) && #[trigger] actions::action_may(
                all.last(),
                before,
                Some((after, Ok(()))),
            );
        assert(before == scene);
    }
    if actions::action_may(action, scene, Some((after, Ok(())))) {
        assert(actions::can_leave(all.drop_last(), scene, scene));
        assert(actions::action_may(all.last(), scene, Some((after, Ok(())))));
    }
}

/// What actions leave is reached from scene to scene, each action succeeding on what the one
/// before it left.
proof fn lemma_left_by_a_path(actions: Seq<Action>, scene: Scene, after: Scene)
    ensures
        actions::can_leave(actions, scene, after) ==> exists|path: Seq<Scene>|
            {
                &&& #[trigger] path.len() == actions.len() + 1
                &&& path[0] == scene
                &&& path[actions.len() as int] == after
                &&& forall|i: int|
                    0 <= i < actions.len() ==> actions::action_may(
                        #[trigger] actions[i],
                        path[i],
                        Some((path[i + 1], Ok(()))),
                    )
            },
    decreases actions.len(),
{
    if actions::can_leave(actions, scene, after) {
        if actions.len() == 0 {
            let path = seq![scene];
            assert(path.len() == actions.len() + 1);
        } else {
            let rest = actions.drop_last();
            let before = choose|before: Scene|
                actions::can_leave(rest, scene, before) && #[trigger] actions::action_may(
                    actions.last(),
                    before,
                    Some((after, Ok(()))),
                );
            lemma_left_by_a_path(rest, scene, before);
            let path = choose|path: Seq<Scene>|
                {
                    &&& #[trigger] path.len() == rest.len() + 1
                    &&& path[0] == scene
                    &&& path[rest.len() as int] == before
                    &&& forall|i: int|
                        0 <= i < rest.len() ==> actions::action_may(
                            #[trigger] rest[i],
                            path[i],
                            Some((path[i + 1], Ok(()))),
                        )
                };
            let longer = path.push(after);
            assert(longer.len() == actions.len() + 1);
            assert forall|i: int| 0 <= i < actions.len() implies actions::action_may(
                #[trigger] actions[i],
                longer[i],
                Some((longer[i + 1], Ok(()))),
            ) by {
                if i < rest.len() {
                    assert(rest[i] == actions[i]);
                } else {
                    assert(actions[i] == actions.last());
                }
            }
        }
    }
}

/// Where each action succeeds on what the one before it left, the actions leave the last of
/// the scenes.
proof fn lemma_path_is_left(actions: Seq<Action>, path: Seq<Scene>)
    requires
        path.len() == actions.len() + 1,
        forall|i: int|
            0 <= i < actions.len() ==> actions::action_may(
                #[trigger] actions[i],
                path[i],
                Some((path[i + 1], Ok(()))),
            ),
    ensures
        actions::can_leave(actions, path[0], path[actions.len() as int]),
    decreases actions.len(),
{
    if actions.len() > 0 {
        let rest = actions.drop_last();
        let shorter = path.drop_last();
        assert forall|i: int| 0 <= i < rest.len() implies actions::action_may(
            #[trigger] rest[i],
            shorter[i],
            Some((shorter[i + 1], Ok(()))),
        ) by {
            assert(rest[i] == actions[i]);
        }
        lemma_path_is_left(rest, shorter);
        let before = path[rest.len() as int];
        assert(actions[rest.len() as int] == actions.last());
        assert(actions::action_may(
            actions.last(),
            before,
            Some((path[actions.len() as int], Ok(()))),
        ));
    }
}

/// Running actions gives a scene exactly if every action succeeds, each on what the one
/// before it left, and then the scene that the last one left.
pub proof fn law_run_succeeds_with_every_action(
    actions: Seq<Action>,
    scene: Scene,
    after: Scene,
)
    ensures
        actions::run_may(actions, scene, Ok(after)) == exists|path: Seq<Scene>|
            {
                &&& #[trigger] path.len() == actions.len() + 1
                &&& path[0] == scene
                &&& path[actions.len() as int] == after
                &&& forall|i: int|
                    0 <= i < actions.len() ==> actions::action_may(
                        #[trigger] actions[i],
                        path[i],
                        Some((path[i + 1], Ok(()))),
                    )
            },
{
    lemma_left_by_a_path(actions, scene, after);
    if exists|path: Seq<Scene>|
        {
            &&& #[trigger] path.len() == actions.len() + 1
            &&& path[0] == scene
            &&& path[actions.len() as int] == after
            &&& forall|i: int|
                0 <= i < actions.len() ==> actions::action_may(
                    #[trigger] actions[i],
                    path[i],
                    Some((path[i + 1], Ok(()))),
                )
        } {
        let path = choose|path: Seq<Scene>|
            {
                &&& #[trigger] path.len() == actions.len() + 1
                &&& path[0] == scene
                &&& path[actions.len() as int] == after
                &&& forall|i: int|
                    0 <= i < actions.len() ==> actions::action_may(
                        #[trigger] actions[i],
                        path[i],
                        Some((path[i + 1], Ok(()))),
                    )
            };
        lemma_path_is_left(actions, path);
    }
}

/// Running actions gives an error exactly if one of them gives it, on what the actions
/// before it left, all of which succeed.
pub proof fn law_run_fails_with_the_first_error(
    actions: Seq<Action>,
    scene: Scene,
    error: String,
)
    ensures
        actions::run_may(actions, scene, Err(error)) == exists|path: Seq<Scene>, after: Scene|
            {
                &&& 0 < path.len() <= actions.len()
                &&& path[0] == scene
                &&& forall|i: int|
                    0 <= i < path.len() - 1 ==> actions::action_may(
                        #[trigger] actions[i],
                        path[i],
                        Some((path[i + 1], Ok(()))),
                    )
                &&& #[trigger] actions::action_may(
                    actions[path.len() - 1],
                    path.last(),
                    Some((after, Err(error))),
                )
            },
{
    if actions::run_may(actions, scene, Err(error)) {
        let (n, before, after, failed) = choose|
            n: int,
            before: Scene,
            after: Scene,
            failed: Result<(), String>,
        |
            0 <= n < actions.len() && actions::can_leave(actions.take(n), scene, before)
                && #[trigger] actions::action_may(actions[n], before, Some((after, failed)))
                && failed == Err::<(), String>(error);
        let first = actions.take(n);
        lemma_left_by_a_path(first, scene, before);
        let path = choose|path: Seq<Scene>|
            {
                &&& #[trigger] path.len() == first.len() + 1
                &&& path[0] == scene
                &&& path[first.len() as int] == before
                &&& forall|i: int|
                    0 <= i < first.len() ==> actions::action_may(
                        #[trigger] first[i],
                        path[i],
                        Some((path[i + 1], Ok(()))),
                    )
            };
        assert forall|i: int| 0 <= i < path.len() - 1 implies actions::action_may(
            #[trigger] actions[i],
            path[i],
            Some((path[i + 1], Ok(()))),
        ) by {
            assert(first[i] == actions[i]);
        }
        assert(actions::action_may(
            actions[path.len() - 1],
            path.last(),
            Some((after, Err(error))),
        ));
    }
    if exists|path: Seq<Scene>, after: Scene|
        {
            &&& 0 < path.len() <= actions.len()
            &&& path[0] == scene
            &&& forall|i: int|
                0 <= i < path.len() - 1 ==> actions::action_may(
                    #[trigger] actions[i],
                    path[i],
                    Some((path[i + 1], Ok(()))),
                )
            &&& #[trigger] actions::action_may(
                actions[path.len() - 1],
                path.last(),
                Some((after, Err(error))),
            )
        } {
        let (path, after) = choose|path: Seq<Scene>, after: Scene|
            {
                &&& 0 < path.len() <= actions.len()
                &&& path[0] == scene
                &&& forall|i: int|
                    0 <= i < path.len() - 1 ==> actions::action_may(
                        #[trigger] actions[i],
                        path[i],
                        Some((path[i + 1], Ok(()))),
                    )
                &&& #[trigger] actions::action_may(
                    actions[path.len() - 1],
                    path.last(),
                    Some((after, Err(error))),
                )
            };
        let n = path.len() - 1;
        let first = actions.take(n);
        assert forall|i: int| 0 <= i < first.len() implies actions::action_may(
            #[trigger] first[i],
            path[i],
            Some((path[i + 1], Ok(()))),
        ) by {
            assert(first[i] == actions[i]);
        }
        lemma_path_is_left(first, path);
        let failed: Result<(), String> = Err(error);
        assert(actions::action_may(actions[n], path[n], Some((after, failed))));
    }
}

/// Actions that never panic can be run, and so can the tasks that apply them.
pub proof fn law_actions_that_do_not_panic_can_run(actions: Seq<Action>, scene: Scene)
    requires
        forall|i: int, before: Scene|
            0 <= i < actions.len() ==> !#[trigger] actions::action_may(actions[i], before, None),
    ensures
        actions::run_returns(actions, scene),
        forall|task: SceneTask|
            #[trigger] jobs::task_start(task) == (actions, scene) ==> jobs::task_returns(task),
{
}

/// The output of a task is what running its actions on its scene gives.
pub proof fn law_task_gives_what_running_gives(task: SceneTask, output: Result<Scene, String>)
    ensures
        jobs::task_may(task, output) == actions::run_may(
            jobs::task_start(task).0,
            jobs::task_start(task).1,
            output,
        ),
{
}

// Registrations.

/// The registrations are what the tables hold.
pub proof fn law_registrations_are_what_the_tables_hold(
    intermediate: RegisteredPostProcessActions,
    id: SceneId,
)
    ensures
        intermediate.targets().contains_key(id) == tables::target_table(
            intermediate.unprocessed_to_targets,
        ).contains_key(id),
        intermediate.targets().contains_key(id) ==> {
            let targets = tables::target_table(intermediate.unprocessed_to_targets)[id];
            &&& intermediate.targets()[id].handle == targets.unprocessed_handle
            &&& intermediate.targets()[id].actions == tables::action_table(
                targets.processed_to_action,
            )
        },
        intermediate.ready() == tables::scene_set(intermediate.new_scenes),
{
}

/// A key is registered if its unprocessed scene has an action for its processed scene, and
/// with that action.
pub proof fn law_registered_keys_have_an_action(
    targets: Map<SceneId, Targets>,
    unprocessed_id: SceneId,
    processed_id: SceneId,
)
    ensures
        ({
            let key = PostProcessKey { unprocessed_id, processed_id };
            &&& registry::registered(targets, key) == (targets.contains_key(unprocessed_id)
                && targets[unprocessed_id].actions.contains_key(processed_id))
            &&& registry::action_of(targets, key) == targets[unprocessed_id].actions[processed_id]
            &&& registry::output_of(targets, key) == handles::weak_target(
                targets[unprocessed_id].actions[processed_id].processed_handle,
            )
        }),
{
}

/// A registration is found under the identifier of the handle that it was made with, adds
/// its one action there and touches no other scene. The handle that is held is the one that
/// was held, or the given one where that is the first, or the first strong one.
pub proof fn law_registration_is_found_under_its_handle(
    targets: Map<SceneId, Targets>,
    scene: SceneHandle,
    output: SceneId,
    action: PostProcessAction,
)
    ensures
        ({
            let after = registry::with_action(targets, scene, output, action);
            let id = match scene {
                SceneHandle::Strong(handle) => handles::strong_id(handle),
                SceneHandle::Weak(id) => id,
            };
            &&& after.dom() == targets.dom().insert(id)
            &&& forall|other: SceneId|
                other != id && #[trigger] targets.contains_key(other) ==> after[other]
                    == targets[other]
            &&& after[id].actions.contains_key(output)
            &&& after[id].actions[output] == action
            &&& targets.contains_key(id) ==> {
                &&& after[id].actions == targets[id].actions.insert(output, action)
                &&& targets[id].handle is Strong ==> after[id].handle == targets[id].handle
                &&& scene is Weak ==> after[id].handle == targets[id].handle
                &&& targets[id].handle is Weak && scene is Strong ==> after[id].handle == scene
            }
            &&& !targets.contains_key(id) ==> {
                &&& after[id].handle == scene
                &&& after[id].actions.dom() == Set::empty().insert(output)
            }
        }),
{
    let after = registry::with_action(targets, scene, output, action);
    let id = scene.scene_id();
    assert(after.dom() =~= targets.dom().insert(id));
    if !targets.contains_key(id) {
        assert(after[id].actions.dom() =~= Set::empty().insert(output));
    }
}

/// Where nothing is registered, the registrations are in order, and nothing has to be done
/// for them to stay so: this is what registering, dropping and the systems start from.
pub proof fn law_no_registrations_are_in_order(
    slots: Set<Arc<StrongHandle>>,
    reserved: Set<SceneId>,
)
    ensures
        registry::consistent(Map::<SceneId, Targets>::empty()),
        registry::storable(Map::<SceneId, Targets>::empty(), slots),
        registry::outputs_reserved(Map::<SceneId, Targets>::empty(), reserved),
        registry::sources_allotted(Map::<SceneId, Targets>::empty(), reserved),
        jobs::tasks_return(Map::<PostProcessKey, SceneTask>::empty()),
{
}

/// Stable identifiers and those that were handed out are allotted.
pub proof fn law_identifiers_that_exist_are_allotted(
    uuid: u128,
    bits: u64,
    reserved: Set<SceneId>,
)
    ensures
        registry::allotted(SceneId::Uuid(uuid), reserved),
        registry::allotted(SceneId::Index(bits), reserved) == reserved.contains(
            SceneId::Index(bits),
        ),
{
}

// Dropping.

/// Exactly the registrations whose handle was found dropped are dropped. Every other one
/// was found in use and keeps its action and the handle of its unprocessed scene. That
/// handle is let go with the last of the actions.
pub proof fn law_unused_registrations_are_dropped(
    targets: Map<SceneId, Targets>,
    dropped: Set<PostProcessKey>,
    unprocessed_id: SceneId,
    processed_id: SceneId,
)
    requires
        cleanup::registered_among(targets, dropped) == dropped,
        cleanup::seen_unused(targets, dropped),
    ensures
        ({
            let after = cleanup::without_all(targets, dropped);
            let key = PostProcessKey { unprocessed_id, processed_id };
            let was = targets.contains_key(unprocessed_id)
                && targets[unprocessed_id].actions.contains_key(processed_id);
            let is = after.contains_key(unprocessed_id)
                && after[unprocessed_id].actions.contains_key(processed_id);
            let handle = targets[unprocessed_id].actions[processed_id].processed_handle;
            &&& is == (was && !dropped.contains(key))
            &&& dropped.contains(key) ==> was && handles::seen_in_use(handle, false)
            &&& is ==> {
                &&& handles::seen_in_use(handle, true)
                &&& after[unprocessed_id].actions[processed_id]
                    == targets[unprocessed_id].actions[processed_id]
                &&& after[unprocessed_id].handle == targets[unprocessed_id].handle
            }
            &&& after.contains_key(unprocessed_id) ==> exists|output: SceneId| #[trigger]
                after[unprocessed_id].actions.contains_key(output)
        }),
{
    let after = cleanup::without_all(targets, dropped);
    let key = PostProcessKey { unprocessed_id, processed_id };
    laws::law_dropping_keeps_the_rest(targets, dropped);
    cleanup::lemma_registered_without_all(targets, dropped, key);
    if dropped.contains(key) {
        assert(cleanup::registered_among(targets, dropped).contains(key));
    }
    if registry::registered(targets, key) {
        assert(registry::action_of(targets, key)
            == targets[unprocessed_id].actions[processed_id]);
    }
    if registry::registered(after, key) {
        assert(registry::action_of(after, key) == registry::action_of(targets, key));
    }
    if after.contains_key(unprocessed_id) {
        let output = choose|output: SceneId|
            registry::registered(
                after,
                PostProcessKey { unprocessed_id, processed_id: output },
            );
        assert(after[unprocessed_id].actions.contains_key(output));
    }
}

/// The registered keys among some keys are those with an action.
pub proof fn law_registered_among_have_an_action(
    targets: Map<SceneId, Targets>,
    keys: Set<PostProcessKey>,
    key: PostProcessKey,
)
    ensures
        cleanup::registered_among(targets, keys).contains(key) == (keys.contains(key)
            && targets.contains_key(key.unprocessed_id)
            && targets[key.unprocessed_id].actions.contains_key(key.processed_id)),
{
}

/// Forgetting one registration ends that one and no other. With its last action the handle
/// of the unprocessed scene is let go.
pub proof fn law_forgetting_one_keeps_the_rest(
    targets: Map<SceneId, Targets>,
    key: PostProcessKey,
    unprocessed_id: SceneId,
    processed_id: SceneId,
)
    requires
        registry::consistent(targets),
    ensures
        ({
            let after = cleanup::without(targets, key);
            let was = targets.contains_key(unprocessed_id)
                && targets[unprocessed_id].actions.contains_key(processed_id);
            let is = after.contains_key(unprocessed_id)
                && after[unprocessed_id].actions.contains_key(processed_id);
            &&& is == (was && key != (PostProcessKey { unprocessed_id, processed_id }))
            &&& is ==> {
                &&& after[unprocessed_id].actions[processed_id]
                    == targets[unprocessed_id].actions[processed_id]
                &&& after[unprocessed_id].handle == targets[unprocessed_id].handle
            }
            &&& after.contains_key(unprocessed_id) ==> exists|output: SceneId| #[trigger]
                after[unprocessed_id].actions.contains_key(output)
        }),
{
    let after = cleanup::without(targets, key);
    let left = targets[key.unprocessed_id].actions.remove(key.processed_id);
    if registry::registered(targets, key) {
        if exists|output: SceneId| left.contains_key(output) {
            let output = choose|output: SceneId| left.contains_key(output);
            assert(after[key.unprocessed_id].actions.contains_key(output));
        } else {
            assert(!left.contains_key(processed_id));
        }
    }
    if after.contains_key(unprocessed_id) && (unprocessed_id != key.unprocessed_id
        || !registry::registered(targets, key)) {
        assert(targets.contains_key(unprocessed_id));
    }
}

// Changes of scenes.

/// What is watched is what is stored, running and queued.
pub proof fn law_watching_looks_at_what_is_there(
    stored: SceneStore<'_>,
    post_process_tasks: ScenePostProcessTasks,
    failures: Vec<SceneSpawnError>,
)
    ensures
        ({
            let state = watch::watch_state(stored, post_process_tasks, failures);
            let start = watch::watch_start(stored, post_process_tasks);
            &&& state.scenes == scenes::stored_scenes(stored)
            &&& state.tasks == tables::task_table(post_process_tasks)
            &&& state.events == scenes::queued_events(stored)
            &&& state.failures == failures@
            &&& start.scenes == scenes::stored_scenes(stored)
            &&& start.tasks == tables::task_table(post_process_tasks)
            &&& start.events == scenes::queued_events(stored)
            &&& start.failures.len() == 0
        }),
{
}

/// Scenes can be processed where neither copying nor an action ever panics.
pub proof fn law_scenes_that_do_not_panic_are_processable(
    targets: Map<SceneId, Targets>,
    stored: Map<SceneId, Scene>,
    type_registry: AppTypeRegistry,
    changed: Set<SceneId>,
)
    requires
        forall|scene: Scene| !#[trigger] scenes::clone_may(scene, type_registry, None),
        forall|action: Action, scene: Scene| !#[trigger] actions::action_may(action, scene, None),
    ensures
        watch::processable(targets, stored, type_registry, changed),
{
}

/// While every changed scene that is registered is stored, and no copy fails, handling
/// changes leaves the stored scenes and the queued events exactly as they were: a processed
/// scene stays until the new one is done.
pub proof fn law_processed_scenes_stay_while_processing(
    targets: Map<SceneId, Targets>,
    type_registry: AppTypeRegistry,
    order: Seq<SceneId>,
    before: WatchState,
    after: WatchState,
)
    requires
        watch::scene_steps(targets, type_registry, order, before, after),
        forall|i: int|
            0 <= i < order.len() && targets.contains_key(#[trigger] order[i])
                ==> before.scenes.contains_key(order[i]),
        after.failures.len() == before.failures.len(),
    ensures
        after.scenes == before.scenes,
        after.events == before.events,
        after.failures == before.failures,
    decreases order.len(),
{
    if order.len() > 0 {
        let rest = order.drop_last();
        let id = order.last();
        let between = laws::lemma_last_change(targets, type_registry, order, before, after);
        laws::lemma_step_changes_own_keys(targets, type_registry, id, between, after);
        lemma_failures_grow(targets, type_registry, rest, before, between);
        assert forall|i: int|
            0 <= i < rest.len() && targets.contains_key(
                #[trigger] rest[i],
            ) implies before.scenes.contains_key(rest[i]) by {
            assert(order[i] == rest[i]);
        }
        law_processed_scenes_stay_while_processing(targets, type_registry, rest, before, between);
        assert(order[order.len() - 1] == id);
    }
}

/// Failures are only added.
proof fn lemma_failures_grow(
    targets: Map<SceneId, Targets>,
    type_registry: AppTypeRegistry,
    order: Seq<SceneId>,
    before: WatchState,
    after: WatchState,
)
    requires
        watch::scene_steps(targets, type_registry, order, before, after),
    ensures
        before.failures.len() <= after.failures.len() <= before.failures.len() + order.len(),
        after.failures.take(before.failures.len() as int) == before.failures,
        forall|error: SceneSpawnError| #[trigger]
            before.failures.contains(error) ==> after.failures.contains(error),
    decreases order.len(),
{
    if order.len() > 0 {
        let id = order.last();
        let between = laws::lemma_last_change(targets, type_registry, order, before, after);
        laws::lemma_step_changes_own_keys(targets, type_registry, id, between, after);
        lemma_failures_grow(targets, type_registry, order.drop_last(), before, between);
        assert(after.failures.take(before.failures.len() as int) =~= after.failures.take(
            between.failures.len() as int,
        ).take(before.failures.len() as int));
    }
    assert forall|error: SceneSpawnError| #[trigger]
        before.failures.contains(error) implies after.failures.contains(error) by {
        let i = before.failures.index_of(error);
        assert(after.failures.take(before.failures.len() as int)[i] == error);
        assert(after.failures[i] == error);
    }
}

/// A scene leaves only for a cause: it is what a changed scene is processed into, no task is
/// left to replace it, and that scene is not stored, or a copy of it failed, with an error
/// that is reported. And no scene changes or comes.
pub proof fn law_scenes_leave_only_for_a_cause(
    targets: Map<SceneId, Targets>,
    type_registry: AppTypeRegistry,
    order: Seq<SceneId>,
    before: WatchState,
    after: WatchState,
)
    requires
        watch::scene_steps(targets, type_registry, order, before, after),
        order.no_duplicates(),
    ensures
        forall|id: SceneId| #[trigger]
            after.scenes.contains_key(id) ==> before.scenes.contains_key(id) && after.scenes[id]
                == before.scenes[id],
        forall|id: SceneId| #[trigger]
            before.scenes.contains_key(id) && !after.scenes.contains_key(id) ==> exists|
                source: SceneId,
            |
                {
                    &&& #[trigger] order.contains(source)
                    &&& targets.contains_key(source)
                    &&& targets[source].actions.contains_key(id)
                    &&& !after.tasks.contains_key(
                        PostProcessKey { unprocessed_id: source, processed_id: id },
                    )
                    &&& !after.scenes.contains_key(source) || exists|error: SceneSpawnError|
                        {
                            &&& #[trigger] after.failures.contains(error)
                            &&& scenes::clone_may(
                                before.scenes[source],
                                type_registry,
                                Some(Err(error)),
                            )
                        }
                },
    decreases order.len(),
{
    if order.len() > 0 {
        let rest = order.drop_last();
        let last = order.last();
        let between = laws::lemma_last_change(targets, type_registry, order, before, after);
        laws::lemma_step_changes_own_keys(targets, type_registry, last, between, after);
        assert(rest.no_duplicates());
        law_scenes_leave_only_for_a_cause(targets, type_registry, rest, before, between);
        assert(order[order.len() - 1] == last);
        assert(order.contains(last));
        assert forall|id: SceneId| #[trigger] after.scenes.contains_key(id) implies {
            &&& before.scenes.contains_key(id)
            &&& after.scenes[id] == before.scenes[id]
        } by {
            assert(between.scenes.contains_key(id));
        }
        assert forall|id: SceneId| #[trigger]
            before.scenes.contains_key(id) && !after.scenes.contains_key(id) implies exists|
            source: SceneId,
        |
            {
                &&& #[trigger] order.contains(source)
                &&& targets.contains_key(source)
                &&& targets[source].actions.contains_key(id)
                &&& !after.tasks.contains_key(
                    PostProcessKey { unprocessed_id: source, processed_id: id },
                )
                &&& !after.scenes.contains_key(source) || exists|error: SceneSpawnError|
                    {
                        &&& #[trigger] after.failures.contains(error)
                        &&& scenes::clone_may(
                            before.scenes[source],
                            type_registry,
                            Some(Err(error)),
                        )
                    }
            } by {
            if between.scenes.contains_key(id) {
                let key = PostProcessKey { unprocessed_id: last, processed_id: id };
                assert(registry::registered(targets, key));
                assert(watch::keys_of(last, targets[last].actions.dom()).contains(key));
                if between.scenes.contains_key(last) {
                    laws::lemma_present_step(targets, type_registry, last, between, after);
                    assert(!watch::begun_step(
                        last,
                        targets[last],
                        between.scenes[last],
                        type_registry,
                        between,
                        after,
                    ));
                    let error = choose|error: SceneSpawnError|
                        {
                            &&& scenes::clone_may(
                                between.scenes[last],
                                type_registry,
                                Some(Err(error)),
                            )
                            &&& after.failures == #[trigger] between.failures.push(error)
                        };
                    assert(after.failures[between.failures.len() as int] == error);
                    assert(after.failures.contains(error));
                } else {
                    assert(!after.scenes.contains_key(last));
                }
            } else {
                let source = choose|source: SceneId|
                    {
                        &&& #[trigger] rest.contains(source)
                        &&& targets.contains_key(source)
                        &&& targets[source].actions.contains_key(id)
                        &&& !between.tasks.contains_key(
                            PostProcessKey { unprocessed_id: source, processed_id: id },
                        )
                        &&& !between.scenes.contains_key(source) || exists|error: SceneSpawnError|
                            {
                                &&& #[trigger] between.failures.contains(error)
                                &&& scenes::clone_may(
                                    before.scenes[source],
                                    type_registry,
                                    Some(Err(error)),
                                )
                            }
                    };
                let at = rest.index_of(source);
                assert(order[at] == source);
                assert(order.contains(source));
                assert(source != last);
                let key = PostProcessKey { unprocessed_id: source, processed_id: id };
                assert(after.tasks.contains_key(key) == between.tasks.contains_key(key));
                if !between.scenes.contains_key(source) {
                    assert(!after.scenes.contains_key(source));
                } else {
                    let error = choose|error: SceneSpawnError|
                        {
                            &&& #[trigger] between.failures.contains(error)
                            &&& scenes::clone_may(
                                before.scenes[source],
                                type_registry,
                                Some(Err(error)),
                            )
                        };
                    let i = between.failures.index_of(error);
                    assert(after.failures.take(between.failures.len() as int)[i] == error);
                    assert(after.failures[i] == error);
                    assert(after.failures.contains(error));
                }
            }
        }
    }
}

/// What becomes of each changed scene that is registered, in whatever order: it was stored
/// and each of its processed scenes has a task that applies the registered actions to a copy
/// of it; or it was stored and a copy failed, which is reported, and none of its processed
/// scenes is stored or has a task; or it is not stored, none of its processed scenes has a
/// task, and none is stored but those whose handle was found dropped.
pub proof fn law_every_changed_scene_is_handled(
    targets: Map<SceneId, Targets>,
    type_registry: AppTypeRegistry,
    order: Seq<SceneId>,
    before: WatchState,
    after: WatchState,
    id: SceneId,
)
    requires
        watch::scene_steps(targets, type_registry, order, before, after),
        order.no_duplicates(),
        order.contains(id),
        targets.contains_key(id),
    ensures
        ({
            ||| {
                &&& before.scenes.contains_key(id)
                &&& forall|output: SceneId| #[trigger]
                    targets[id].actions.contains_key(output) ==> {
                        let key = PostProcessKey { unprocessed_id: id, processed_id: output };
                        &&& after.tasks.contains_key(key)
                        &&& jobs::task_start(after.tasks[key]).0
                            == targets[id].actions[output].actions@
                        &&& scenes::clone_may(
                            before.scenes[id],
                            type_registry,
                            Some(Ok(jobs::task_start(after.tasks[key]).1)),
                        )
                    }
            }
            ||| {
                &&& before.scenes.contains_key(id)
                &&& exists|error: SceneSpawnError|
                    {
                        &&& #[trigger] after.failures.contains(error)
                        &&& scenes::clone_may(before.scenes[id], type_registry, Some(Err(error)))
                    }
                &&& forall|output: SceneId| #[trigger]
                    targets[id].actions.contains_key(output) ==> {
                        &&& !after.scenes.contains_key(output)
                        &&& !after.tasks.contains_key(
                            PostProcessKey { unprocessed_id: id, processed_id: output },
                        )
                    }
            }
            ||| {
                &&& !after.scenes.contains_key(id)
                &&& forall|output: SceneId| #[trigger]
                    targets[id].actions.contains_key(output) ==> {
                        &&& !after.tasks.contains_key(
                            PostProcessKey { unprocessed_id: id, processed_id: output },
                        )
                        &&& !after.scenes.contains_key(output) || handles::seen_upgraded(
                            targets[id].actions[output].processed_handle,
                            false,
                        )
                    }
            }
        }),
    decreases order.len(),
{
    let rest = order.drop_last();
    let last = order.last();
    let between = laws::lemma_last_change(targets, type_registry, order, before, after);
    laws::lemma_step_changes_own_keys(targets, type_registry, last, between, after);
    laws::law_changes_remove_only_processed_scenes(targets, type_registry, rest, before, between);
    if last == id {
        if between.scenes.contains_key(id) {
            assert(between.scenes.dom().contains(id) && before.scenes.dom().contains(id));
            assert(before.scenes.contains_key(id) && before.scenes[id] == between.scenes[id]);
            if watch::begun_step(
                id,
                targets[id],
                between.scenes[id],
                type_registry,
                between,
                after,
            ) {
                assert forall|output: SceneId| #[trigger]
                    targets[id].actions.contains_key(output) implies {
                    let key = PostProcessKey { unprocessed_id: id, processed_id: output };
                    &&& after.tasks.contains_key(key)
                    &&& jobs::task_start(after.tasks[key]).0
                        == targets[id].actions[output].actions@
                    &&& scenes::clone_may(
                        before.scenes[id],
                        type_registry,
                        Some(Ok(jobs::task_start(after.tasks[key]).1)),
                    )
                } by {
                    let key = PostProcessKey { unprocessed_id: id, processed_id: output };
                    assert(watch::keys_of(id, targets[id].actions.dom()).contains(key));
                }
            } else {
                let error = choose|error: SceneSpawnError|
                    {
                        &&& scenes::clone_may(
                            between.scenes[id],
                            type_registry,
                            Some(Err(error)),
                        )
                        &&& after.failures == #[trigger] between.failures.push(error)
                    };
                assert(after.failures[between.failures.len() as int] == error);
                assert(after.failures.contains(error));
                assert forall|output: SceneId| #[trigger]
                    targets[id].actions.contains_key(output) implies {
                    &&& !after.scenes.contains_key(output)
                    &&& !after.tasks.contains_key(
                        PostProcessKey { unprocessed_id: id, processed_id: output },
                    )
                } by {
                    let key = PostProcessKey { unprocessed_id: id, processed_id: output };
                    assert(watch::keys_of(id, targets[id].actions.dom()).contains(key));
                }
            }
        } else {
            let used = choose|used: Seq<SceneId>|
                {
                    &&& used.to_set().subset_of(targets[id].actions.dom())
                    &&& watch::seen_used(targets[id], used.to_set())
                    &&& after.scenes == between.scenes.remove_keys(used.to_set())
                    &&& after.events == between.events + #[trigger] scenes::removal_events(
                        between.scenes,
                        used,
                    )
                };
            assert forall|output: SceneId| #[trigger]
                targets[id].actions.contains_key(output) implies {
                &&& !after.tasks.contains_key(
                    PostProcessKey { unprocessed_id: id, processed_id: output },
                )
                &&& !after.scenes.contains_key(output) || handles::seen_upgraded(
                    targets[id].actions[output].processed_handle,
                    false,
                )
            } by {
                let key = PostProcessKey { unprocessed_id: id, processed_id: output };
                assert(watch::keys_of(id, targets[id].actions.dom()).contains(key));
            }
        }
    } else {
        let at = order.index_of(id);
        assert(rest[at] == id);
        assert(rest.no_duplicates());
        law_every_changed_scene_is_handled(targets, type_registry, rest, before, between, id);
        assert forall|error: SceneSpawnError| #[trigger]
            between.failures.contains(error) implies after.failures.contains(error) by {
            let i = between.failures.index_of(error);
            assert(after.failures.take(between.failures.len() as int)[i] == error);
            assert(after.failures[i] == error);
        }
        if before.scenes.contains_key(id) && exists|error: SceneSpawnError|
            {
                &&& #[trigger] between.failures.contains(error)
                &&& scenes::clone_may(before.scenes[id], type_registry, Some(Err(error)))
            } {
            let error = choose|error: SceneSpawnError|
                {
                    &&& #[trigger] between.failures.contains(error)
                    &&& scenes::clone_may(before.scenes[id], type_registry, Some(Err(error)))
                };
            assert(after.failures.contains(error));
        }
    }
}

/// No task is touched but those of changed scenes that are registered.
pub proof fn law_tasks_of_unchanged_scenes_stay(
    targets: Map<SceneId, Targets>,
    type_registry: AppTypeRegistry,
    order: Seq<SceneId>,
    before: WatchState,
    after: WatchState,
    key: PostProcessKey,
)
    requires
        watch::scene_steps(targets, type_registry, order, before, after),
        !order.contains(key.unprocessed_id) || !targets.contains_key(key.unprocessed_id)
            || !targets[key.unprocessed_id].actions.contains_key(key.processed_id),
    ensures
        after.tasks.contains_key(key) == before.tasks.contains_key(key),
        after.tasks.contains_key(key) ==> after.tasks[key] == before.tasks[key],
    decreases order.len(),
{
    if order.len() > 0 {
        let rest = order.drop_last();
        let last = order.last();
        let between = laws::lemma_last_change(targets, type_registry, order, before, after);
        laws::lemma_step_changes_own_keys(targets, type_registry, last, between, after);
        assert(order[order.len() - 1] == last);
        assert(rest.contains(key.unprocessed_id) ==> order.contains(key.unprocessed_id)) by {
            if rest.contains(key.unprocessed_id) {
                assert(order[rest.index_of(key.unprocessed_id)] == key.unprocessed_id);
            }
        }
        assert(order.contains(last));
        law_tasks_of_unchanged_scenes_stay(
            targets,
            type_registry,
            rest,
            before,
            between,
            key,
        );
        assert(after.tasks.contains_key(key) == between.tasks.contains_key(key));
    }
}

/// Every failure that is reported is one of copying a changed scene that is registered and
/// was stored, one for each scene that has one, and such a scene has no task left. No
/// earlier failure is lost.
pub proof fn law_failures_are_of_changed_scenes(
    targets: Map<SceneId, Targets>,
    type_registry: AppTypeRegistry,
    order: Seq<SceneId>,
    before: WatchState,
    after: WatchState,
) -> (sources: Seq<SceneId>)
    requires
        watch::scene_steps(targets, type_registry, order, before, after),
        order.no_duplicates(),
    ensures
        after.failures.len() == before.failures.len() + sources.len(),
        after.failures.take(before.failures.len() as int) == before.failures,
        sources.no_duplicates(),
        forall|i: int|
            0 <= i < sources.len() ==> {
                &&& order.contains(#[trigger] sources[i])
                &&& targets.contains_key(sources[i])
                &&& before.scenes.contains_key(sources[i])
                &&& scenes::clone_may(
                    before.scenes[sources[i]],
                    type_registry,
                    Some(Err(after.failures[before.failures.len() + i])),
                )
            },
        forall|key: PostProcessKey|
            #![trigger after.tasks.contains_key(key)]
            sources.contains(key.unprocessed_id)
                && targets[key.unprocessed_id].actions.contains_key(key.processed_id)
                ==> !after.tasks.contains_key(key),
    decreases order.len(),
{
    lemma_failures_grow(targets, type_registry, order, before, after);
    if order.len() == 0 {
        Seq::empty()
    } else {
        let rest = order.drop_last();
        let last = order.last();
        let between = laws::lemma_last_change(targets, type_registry, order, before, after);
        laws::lemma_step_changes_own_keys(targets, type_registry, last, between, after);
        laws::law_changes_remove_only_processed_scenes(
            targets,
            type_registry,
            rest,
            before,
            between,
        );
        assert(rest.no_duplicates());
        let first = law_failures_are_of_changed_scenes(
            targets,
            type_registry,
            rest,
            before,
            between,
        );
        assert(order[order.len() - 1] == last);
        assert(order.contains(last));
        assert(!rest.contains(last)) by {
            if rest.contains(last) {
                assert(order[rest.index_of(last)] == last);
            }
        }
        assert forall|i: int| 0 <= i < first.len() implies order.contains(#[trigger] first[i])
            && first[i] != last by {
            assert(rest.contains(first[i]));
            assert(order[rest.index_of(first[i])] == first[i]);
        }
        if after.failures.len() == between.failures.len() {
            assert(after.failures =~= after.failures.take(between.failures.len() as int));
            assert forall|key: PostProcessKey|
                #![trigger after.tasks.contains_key(key)]
                first.contains(key.unprocessed_id)
                    && targets[key.unprocessed_id].actions.contains_key(
                    key.processed_id,
                ) implies !after.tasks.contains_key(key) by {
                assert(first[first.index_of(key.unprocessed_id)] == key.unprocessed_id);
                assert(after.tasks.contains_key(key) == between.tasks.contains_key(key));
            }
            first
        } else {
            assert(between.scenes.contains_key(last));
            assert(between.scenes.dom().contains(last) && before.scenes.dom().contains(last));
            let error = choose|error: SceneSpawnError|
                {
                    &&& scenes::clone_may(between.scenes[last], type_registry, Some(Err(error)))
                    &&& after.failures == #[trigger] between.failures.push(error)
                };
            let sources = first.push(last);
            assert forall|i: int| 0 <= i < sources.len() implies {
                &&& order.contains(#[trigger] sources[i])
                &&& targets.contains_key(sources[i])
                &&& before.scenes.contains_key(sources[i])
                &&& scenes::clone_may(
                    before.scenes[sources[i]],
                    type_registry,
                    Some(Err(after.failures[before.failures.len() + i])),
                )
            } by {
                if i < first.len() {
                    assert(sources[i] == first[i]);
                    assert(after.failures[before.failures.len() + i]
                        == between.failures[before.failures.len() + i]);
                }
            }
            assert forall|key: PostProcessKey|
                #![trigger after.tasks.contains_key(key)]
                sources.contains(key.unprocessed_id)
                    && targets[key.unprocessed_id].actions.contains_key(
                    key.processed_id,
                ) implies !after.tasks.contains_key(key) by {
                let i = sources.index_of(key.unprocessed_id);
                if i < first.len() {
                    assert(first[i] == key.unprocessed_id);
                    assert(first.contains(key.unprocessed_id));
                    assert(after.tasks.contains_key(key) == between.tasks.contains_key(key));
                } else {
                    assert(watch::keys_of(last, targets[last].actions.dom()).contains(key));
                }
            }
            sources
        }
    }
}

/// The events that are queued by handling changes are the removals of the scenes that leave,
/// one for each.
pub proof fn law_leaving_scenes_are_reported_once(
    targets: Map<SceneId, Targets>,
    type_registry: AppTypeRegistry,
    order: Seq<SceneId>,
    before: WatchState,
    after: WatchState,
) -> (more: Seq<SceneEvent>)
    requires
        watch::scene_steps(targets, type_registry, order, before, after),
    ensures
        after.events == before.events + more,
        more.no_duplicates(),
        forall|event: SceneEvent| #[trigger]
            more.contains(event) ==> (exists|id: SceneId|
                event == (SceneEvent::Removed { id }) && #[trigger] before.scenes.contains_key(id)
                    && !after.scenes.contains_key(id)),
        forall|id: SceneId| #[trigger]
            before.scenes.contains_key(id) && !after.scenes.contains_key(id) ==> more.contains(
                SceneEvent::Removed { id },
            ),
    decreases order.len(),
{
    if order.len() == 0 {
        assert(after.events =~= before.events + Seq::empty());
        Seq::empty()
    } else {
        let rest = order.drop_last();
        let last = order.last();
        let between = laws::lemma_last_change(targets, type_registry, order, before, after);
        let first = law_leaving_scenes_are_reported_once(
            targets,
            type_registry,
            rest,
            before,
            between,
        );
        laws::law_changes_remove_only_processed_scenes(
            targets,
            type_registry,
            rest,
            before,
            between,
        );
        let second = lemma_step_reports_leaving_scenes(
            targets,
            type_registry,
            last,
            between,
            after,
        );
        let more = first + second;
        laws::lemma_step_changes_own_keys(targets, type_registry, last, between, after);
        assert(after.events =~= before.events + more);
        assert forall|id: SceneId| #[trigger] between.scenes.contains_key(id) implies
            before.scenes.contains_key(id) by {
            assert(between.scenes.dom().contains(id) && before.scenes.dom().contains(id));
        }
        assert forall|event: SceneEvent| #[trigger] more.contains(event) implies (exists|
            id: SceneId,
        |
            event == (SceneEvent::Removed { id }) && #[trigger] before.scenes.contains_key(id)
                && !after.scenes.contains_key(id)) by {
            let i = more.index_of(event);
            if i < first.len() {
                assert(first[i] == event);
                assert(first.contains(event));
                let id = choose|id: SceneId|
                    event == (SceneEvent::Removed { id })
                        && #[trigger] before.scenes.contains_key(id)
                        && !between.scenes.contains_key(id);
                assert(!after.scenes.contains_key(id));
            } else {
                assert(second[i - first.len()] == event);
                assert(second.contains(event));
                let id = choose|id: SceneId|
                    event == (SceneEvent::Removed { id })
                        && #[trigger] between.scenes.contains_key(id)
                        && !after.scenes.contains_key(id);
                assert(before.scenes.contains_key(id));
            }
        }
        assert forall|id: SceneId| #[trigger]
            before.scenes.contains_key(id) && !after.scenes.contains_key(
                id,
            ) implies more.contains(SceneEvent::Removed { id }) by {
            let event = SceneEvent::Removed { id };
            if between.scenes.contains_key(id) {
                let i = second.index_of(event);
                assert(more[first.len() + i] == event);
            } else {
                let i = first.index_of(event);
                assert(more[i] == event);
            }
        }
        assert forall|i: int, j: int|
            0 <= i < more.len() && 0 <= j < more.len() && i != j implies more[i] != more[j] by {
            if i < first.len() && j >= first.len() {
                lemma_reported_before_or_after(between, before, after, first, second, i, j);
            } else if j < first.len() && i >= first.len() {
                lemma_reported_before_or_after(between, before, after, first, second, j, i);
            } else if i >= first.len() {
                assert(second[i - first.len()] != second[j - first.len()]);
            }
        }
        more
    }
}

proof fn lemma_reported_before_or_after(
    between: WatchState,
    before: WatchState,
    after: WatchState,
    first: Seq<SceneEvent>,
    second: Seq<SceneEvent>,
    i: int,
    j: int,
)
    requires
        0 <= i < first.len() <= j < first.len() + second.len(),
        forall|event: SceneEvent| #[trigger]
            first.contains(event) ==> (exists|id: SceneId|
                event == (SceneEvent::Removed { id }) && #[trigger] before.scenes.contains_key(id)
                    && !between.scenes.contains_key(id)),
        forall|event: SceneEvent| #[trigger]
            second.contains(event) ==> (exists|id: SceneId|
                event == (SceneEvent::Removed { id }) && #[trigger] between.scenes.contains_key(id)
                    && !after.scenes.contains_key(id)),
    ensures
        (first + second)[i] != (first + second)[j],
{
    let a = first[i];
    let b = second[j - first.len()];
    assert(first.contains(a) && second.contains(b));
    let x = choose|id: SceneId|
        a == (SceneEvent::Removed { id }) && #[trigger] before.scenes.contains_key(id)
            && !between.scenes.contains_key(id);
    let y = choose|id: SceneId|
        b == (SceneEvent::Removed { id }) && #[trigger] between.scenes.contains_key(id)
            && !after.scenes.contains_key(id);
    assert(x != y);
}

proof fn lemma_step_reports_leaving_scenes(
    targets: Map<SceneId, Targets>,
    type_registry: AppTypeRegistry,
    id: SceneId,
    before: WatchState,
    after: WatchState,
) -> (more: Seq<SceneEvent>)
    requires
        watch::scene_step(targets, type_registry, id, before, after),
    ensures
        after.events == before.events + more,
        more.no_duplicates(),
        forall|event: SceneEvent| #[trigger]
            more.contains(event) ==> (exists|id: SceneId|
                event == (SceneEvent::Removed { id }) && #[trigger] before.scenes.contains_key(id)
                    && !after.scenes.contains_key(id)),
        forall|id: SceneId| #[trigger]
            before.scenes.contains_key(id) && !after.scenes.contains_key(id) ==> more.contains(
                SceneEvent::Removed { id },
            ),
{
    if after.scenes == before.scenes && after.events == before.events {
        assert(after.events =~= before.events + Seq::empty());
        Seq::empty()
    } else {
        let removed = choose|removed: Seq<SceneId>|
            {
                &&& after.scenes == before.scenes.remove_keys(removed.to_set())
                &&& after.events == before.events + #[trigger] scenes::removal_events(
                    before.scenes,
                    removed,
                )
            };
        let more = scenes::removal_events(before.scenes, removed);
        law_removing_has_one_event_for_each_stored_scene(before.scenes, removed);
        assert forall|event: SceneEvent| #[trigger] more.contains(event) implies (exists|
            id: SceneId,
        |
            event == (SceneEvent::Removed { id }) && #[trigger] before.scenes.contains_key(id)
                && !after.scenes.contains_key(id)) by {
            let id = choose|id: SceneId|
                event == (SceneEvent::Removed { id }) && #[trigger] removed.contains(id)
                    && before.scenes.contains_key(id);
            assert(removed.to_set().contains(id));
            assert(before.scenes.contains_key(id));
        }
        assert forall|id: SceneId| #[trigger]
            before.scenes.contains_key(id) && !after.scenes.contains_key(
                id,
            ) implies more.contains(SceneEvent::Removed { id }) by {
            assert(removed.to_set().contains(id));
            assert(removed.contains(id));
        }
        more
    }
}

// Finished tasks.

/// What is handled is what is stored, running and queued.
pub proof fn law_finishing_looks_at_what_is_there(
    stored: SceneStore<'_>,
    post_process_tasks: ScenePostProcessTasks,
    failures: Vec<ProcessFailure>,
)
    ensures
        ({
            let state = finish::finish_state(stored, post_process_tasks, failures);
            let start = finish::finish_start(stored, post_process_tasks);
            &&& state.scenes == scenes::stored_scenes(stored)
            &&& state.tasks == tables::task_table(post_process_tasks)
            &&& state.events == scenes::queued_events(stored)
            &&& state.failures == failures@
            &&& start.scenes == scenes::stored_scenes(stored)
            &&& start.tasks == tables::task_table(post_process_tasks)
            &&& start.events == scenes::queued_events(stored)
            &&& start.failures.len() == 0
        }),
{
}

/// What becomes of a task: see [`law_every_task_is_handled`].
spec fn task_result(
    targets: Map<SceneId, Targets>,
    key: PostProcessKey,
    before: FinishState,
    after: FinishState,
) -> bool {
    let task = before.tasks[key];
    let id = key.processed_id;
    let is_registered = targets.contains_key(key.unprocessed_id)
        && targets[key.unprocessed_id].actions.contains_key(id);
    let handle = targets[key.unprocessed_id].actions[id].processed_handle;
    let count_before = ids::event_count(before.events, id);
    let count_after = ids::event_count(after.events, id);
    ||| {
        &&& jobs::seen_finished(task, false)
        &&& after.tasks.contains_key(key)
        &&& after.tasks[key] == task
        &&& laws::same_scene(before.scenes, after.scenes, id)
        &&& count_after == count_before
    }
    ||| {
        &&& jobs::seen_finished(task, true)
        &&& !after.tasks.contains_key(key)
        &&& exists|error: String|
            {
                &&& actions::run_may(
                    jobs::task_start(task).0,
                    jobs::task_start(task).1,
                    Err(error),
                )
                &&& #[trigger] after.failures.contains(
                    ProcessFailure { unprocessed_id: key.unprocessed_id, error },
                )
            }
        &&& !after.scenes.contains_key(id)
        &&& count_after == count_before + (if before.scenes.contains_key(id) {
            1nat
        } else {
            0nat
        })
    }
    ||| {
        &&& jobs::seen_finished(task, true)
        &&& !after.tasks.contains_key(key)
        &&& is_registered
        &&& handles::seen_upgraded(handle, true)
        &&& after.scenes.contains_key(id)
        &&& actions::run_may(
            jobs::task_start(task).0,
            jobs::task_start(task).1,
            Ok(after.scenes[id]),
        )
        &&& count_after == count_before + 1
    }
    ||| {
        &&& jobs::seen_finished(task, true)
        &&& !after.tasks.contains_key(key)
        &&& !is_registered || handles::seen_upgraded(handle, false)
        &&& exists|scene: Scene| #[trigger]
            actions::run_may(jobs::task_start(task).0, jobs::task_start(task).1, Ok(scene))
        &&& laws::same_scene(before.scenes, after.scenes, id)
        &&& count_after == count_before
    }
}

proof fn lemma_task_result(
    targets: Map<SceneId, Targets>,
    order: Seq<PostProcessKey>,
    before: FinishState,
    after: FinishState,
    key: PostProcessKey,
)
    requires
        finish::task_steps(targets, order, before, after),
        order.no_duplicates(),
        order.contains(key),
        before.tasks.contains_key(key),
        forall|i: int|
            0 <= i < order.len() && order[i] != key ==> (#[trigger] order[i]).processed_id
                != key.processed_id,
    ensures
        task_result(targets, key, before, after),
    decreases order.len(),
{
    let id = key.processed_id;
    let rest = order.drop_last();
    let last = order.last();
    let between = laws::lemma_last_task(targets, order, before, after);
    let at = order.index_of(key);
    assert(order[order.len() - 1] == last);
    assert forall|i: int| 0 <= i < rest.len() implies #[trigger] rest[i] == order[i] by {}
    let one = seq![last];
    assert(one.drop_last() =~= Seq::empty());
    assert(finish::task_steps(targets, one.drop_last(), between, between));
    assert(finish::task_step(targets, one.last(), between, after));
    assert(finish::task_steps(targets, one, between, after));
    laws::lemma_tasks_change_own_scenes(targets, one, between, after);
    laws::lemma_task_queues_one_event(targets, last, between, after, id);
    if last == key {
        laws::lemma_tasks_change_own_scenes(targets, rest, before, between);
        laws::lemma_tasks_queue_own_events(targets, rest, before, between, id);
        assert(!rest.contains(key)) by {
            if rest.contains(key) {
                assert(order[rest.index_of(key)] == key);
            }
        }
        assert(between.tasks.contains_key(key) == before.tasks.contains_key(key));
        assert(laws::same_scene(before.scenes, between.scenes, id));
        if !(after == between && jobs::seen_finished(between.tasks[key], false)) {
            let output = choose|output: Result<Scene, String>|
                {
                    &&& jobs::seen_finished(between.tasks[key], true)
                    &&& jobs::task_may(between.tasks[key], output)
                    &&& #[trigger] finish::output_step(targets, key, output, between, after)
                };
            let task = before.tasks[key];
            match output {
                Err(error) => {
                    let failure = ProcessFailure { unprocessed_id: key.unprocessed_id, error };
                    assert(after.failures[between.failures.len() as int] == failure);
                    assert(after.failures.contains(failure));
                    scenes::lemma_removal_of_one(between.scenes, id);
                    assert(between.events + Seq::empty() =~= between.events);
                },
                Ok(scene) => {
                    assert(actions::run_may(
                        jobs::task_start(task).0,
                        jobs::task_start(task).1,
                        Ok(scene),
                    ));
                    let event = scenes::storing_event(between.scenes, id);
                    law_every_event_counts_once(between.events, event, id);
                },
            }
        }
    } else {
        assert(rest[at] == key);
        assert(rest.no_duplicates());
        lemma_task_result(targets, rest, before, between, key);
        assert(!one.contains(key));
        assert(last.processed_id != id);
        assert(after.tasks.contains_key(key) == between.tasks.contains_key(key));
        assert(laws::same_scene(between.scenes, after.scenes, id));
        if exists|error: String|
            {
                &&& actions::run_may(
                    jobs::task_start(before.tasks[key]).0,
                    jobs::task_start(before.tasks[key]).1,
                    Err(error),
                )
                &&& #[trigger] between.failures.contains(
                    ProcessFailure { unprocessed_id: key.unprocessed_id, error },
                )
            } {
            let error = choose|error: String|
                {
                    &&& actions::run_may(
                        jobs::task_start(before.tasks[key]).0,
                        jobs::task_start(before.tasks[key]).1,
                        Err(error),
                    )
                    &&& #[trigger] between.failures.contains(
                        ProcessFailure { unprocessed_id: key.unprocessed_id, error },
                    )
                };
            assert(after.failures.contains(
                ProcessFailure { unprocessed_id: key.unprocessed_id, error },
            ));
        }
    }
}

/// What becomes of each task, in whatever order, where no two tasks are processed into the
/// same scene. Either it was found not to have run, and it and the processed scene stay as
/// they are. Or it was found to have run and is gone, and one of three things holds. An
/// action failed, the error is reported, and the processed scene is not stored. Or the
/// registration is there and its handle could be upgraded, and what is stored is what
/// running the actions gave. Or the registration is gone or its handle could not be
/// upgraded, and the processed scene stays as it is. One event about the processed scene is
/// queued where it is stored or removed, and none otherwise.
pub proof fn law_every_task_is_handled(
    targets: Map<SceneId, Targets>,
    order: Seq<PostProcessKey>,
    before: FinishState,
    after: FinishState,
    key: PostProcessKey,
)
    requires
        finish::task_steps(targets, order, before, after),
        order.no_duplicates(),
        order.to_set() == before.tasks.dom(),
        before.tasks.contains_key(key),
        forall|other: PostProcessKey| #[trigger]
            before.tasks.contains_key(other) && other != key ==> other.processed_id
                != key.processed_id,
    ensures
        ({
            let task = before.tasks[key];
            let id = key.processed_id;
            let is_registered = targets.contains_key(key.unprocessed_id)
                && targets[key.unprocessed_id].actions.contains_key(id);
            let handle = targets[key.unprocessed_id].actions[id].processed_handle;
            let stays = before.scenes.contains_key(id) == after.scenes.contains_key(id) && (
            before.scenes.contains_key(id) ==> before.scenes[id] == after.scenes[id]);
            let count_before = ids::event_count(before.events, id);
            let count_after = ids::event_count(after.events, id);
            ||| {
                &&& jobs::seen_finished(task, false)
                &&& after.tasks.contains_key(key)
                &&& after.tasks[key] == task
                &&& stays
                &&& count_after == count_before
            }
            ||| {
                &&& jobs::seen_finished(task, true)
                &&& !after.tasks.contains_key(key)
                &&& exists|error: String|
                    {
                        &&& actions::run_may(
                            jobs::task_start(task).0,
                            jobs::task_start(task).1,
                            Err(error),
                        )
                        &&& #[trigger] after.failures.contains(
                            ProcessFailure { unprocessed_id: key.unprocessed_id, error },
                        )
                    }
                &&& !after.scenes.contains_key(id)
                &&& count_after == count_before + (if before.scenes.contains_key(id) {
                    1nat
                } else {
                    0nat
                })
            }
            ||| {
                &&& jobs::seen_finished(task, true)
                &&& !after.tasks.contains_key(key)
                &&& is_registered
                &&& handles::seen_upgraded(handle, true)
                &&& after.scenes.contains_key(id)
                &&& actions::run_may(
                    jobs::task_start(task).0,
                    jobs::task_start(task).1,
                    Ok(after.scenes[id]),
                )
                &&& count_after == count_before + 1
            }
            ||| {
                &&& jobs::seen_finished(task, true)
                &&& !after.tasks.contains_key(key)
                &&& !is_registered || handles::seen_upgraded(handle, false)
                &&& exists|scene: Scene| #[trigger]
                    actions::run_may(
                        jobs::task_start(task).0,
                        jobs::task_start(task).1,
                        Ok(scene),
                    )
                &&& stays
                &&& count_after == count_before
            }
        }),
{
    assert(order.to_set().contains(key));
    assert forall|i: int| 0 <= i < order.len() && order[i] != key implies (#[trigger]
    order[i]).processed_id != key.processed_id by {
        assert(order.to_set().contains(order[i]));
        assert(before.tasks.contains_key(order[i]));
    }
    lemma_task_result(targets, order, before, after, key);
}

/// Handling finished tasks begins none, and touches no scene but those that the tasks are
/// processed into, nor queues an event about another.
pub proof fn law_finishing_touches_only_processed_scenes(
    targets: Map<SceneId, Targets>,
    order: Seq<PostProcessKey>,
    before: FinishState,
    after: FinishState,
    id: SceneId,
)
    requires
        finish::task_steps(targets, order, before, after),
        order.to_set() == before.tasks.dom(),
        forall|key: PostProcessKey| #[trigger]
            before.tasks.contains_key(key) ==> key.processed_id != id,
    ensures
        before.scenes.contains_key(id) == after.scenes.contains_key(id),
        before.scenes.contains_key(id) ==> before.scenes[id] == after.scenes[id],
        ids::event_count(after.events, id) == ids::event_count(before.events, id),
        forall|key: PostProcessKey| #[trigger]
            after.tasks.contains_key(key) ==> before.tasks.contains_key(key),
{
    laws::lemma_tasks_change_own_scenes(targets, order, before, after);
    assert forall|i: int| 0 <= i < order.len() implies (#[trigger] order[i]).processed_id
        != id by {
        assert(order.to_set().contains(order[i]));
        assert(before.tasks.contains_key(order[i]));
    }
    laws::lemma_tasks_queue_own_events(targets, order, before, after, id);
    assert(laws::same_scene(before.scenes, after.scenes, id));
    assert forall|key: PostProcessKey| #[trigger] after.tasks.contains_key(key) implies
        before.tasks.contains_key(key) by {
        if !order.contains(key) {
            assert(after.tasks.contains_key(key) == before.tasks.contains_key(key));
        } else {
            assert(order.to_set().contains(key));
        }
    }
}

/// Every failure that is reported is that of a task that is gone, one for each task that has
/// one: running its actions can give the error. No earlier failure is lost.
pub proof fn law_failures_are_of_finished_tasks(
    targets: Map<SceneId, Targets>,
    order: Seq<PostProcessKey>,
    before: FinishState,
    after: FinishState,
) -> (sources: Seq<PostProcessKey>)
    requires
        finish::task_steps(targets, order, before, after),
        order.no_duplicates(),
        forall|key: PostProcessKey| #[trigger]
            order.contains(key) ==> before.tasks.contains_key(key),
    ensures
        after.failures.len() == before.failures.len() + sources.len(),
        after.failures.take(before.failures.len() as int) == before.failures,
        sources.no_duplicates(),
        forall|i: int|
            0 <= i < sources.len() ==> {
                let failure = after.failures[before.failures.len() + i];
                &&& order.contains(#[trigger] sources[i])
                &&& !after.tasks.contains_key(sources[i])
                &&& failure.unprocessed_id == sources[i].unprocessed_id
                &&& actions::run_may(
                    jobs::task_start(before.tasks[sources[i]]).0,
                    jobs::task_start(before.tasks[sources[i]]).1,
                    Err(failure.error),
                )
            },
    decreases order.len(),
{
    if order.len() == 0 {
        assert(after.failures.take(before.failures.len() as int) =~= before.failures);
        Seq::empty()
    } else {
        let rest = order.drop_last();
        let last = order.last();
        let between = laws::lemma_last_task(targets, order, before, after);
        assert(order[order.len() - 1] == last);
        assert(order.contains(last));
        assert forall|key: PostProcessKey| #[trigger] rest.contains(key) implies order.contains(
            key,
        ) && before.tasks.contains_key(key) && key != last by {
            assert(order[rest.index_of(key)] == key);
            assert(order.contains(key));
        }
        let first = law_failures_are_of_finished_tasks(targets, rest, before, between);
        laws::lemma_tasks_change_own_scenes(targets, rest, before, between);
        assert(between.tasks.contains_key(last) == before.tasks.contains_key(last));
        assert(after.failures.take(between.failures.len() as int) =~= between.failures);
        assert(after.failures.take(before.failures.len() as int) =~= between.failures.take(
            before.failures.len() as int,
        ));
        let sources = if after.failures.len() == between.failures.len() {
            first
        } else {
            first.push(last)
        };
        assert forall|i: int| 0 <= i < first.len() implies rest.contains(#[trigger] first[i])
            && first[i] != last && !after.tasks.contains_key(first[i]) by {}
        assert forall|i: int| 0 <= i < sources.len() implies {
            let failure = after.failures[before.failures.len() + i];
            &&& order.contains(#[trigger] sources[i])
            &&& !after.tasks.contains_key(sources[i])
            &&& failure.unprocessed_id == sources[i].unprocessed_id
            &&& actions::run_may(
                jobs::task_start(before.tasks[sources[i]]).0,
                jobs::task_start(before.tasks[sources[i]]).1,
                Err(failure.error),
            )
        } by {
            if i < first.len() {
                assert(sources[i] == first[i]);
                assert(after.failures[before.failures.len() + i]
                    == between.failures[before.failures.len() + i]);
            }
        }
        sources
    }
}

/// The kinds of the events that handling tasks queues, where no two tasks are processed into
/// the same scene: an addition of a scene that was not stored and is, a modification of one
/// that was stored and is, a removal of one that was stored and is not.
pub proof fn law_results_are_reported_as_they_are(
    targets: Map<SceneId, Targets>,
    order: Seq<PostProcessKey>,
    before: FinishState,
    after: FinishState,
) -> (more: Seq<SceneEvent>)
    requires
        finish::task_steps(targets, order, before, after),
        forall|i: int, j: int|
            0 <= i < order.len() && 0 <= j < order.len() && i != j
                ==> (#[trigger] order[i]).processed_id != (#[trigger] order[j]).processed_id,
    ensures
        after.events == before.events + more,
        forall|event: SceneEvent| #[trigger]
            more.contains(event) ==> (match event {
                SceneEvent::Added { id } => !before.scenes.contains_key(id)
                    && after.scenes.contains_key(id),
                SceneEvent::Modified { id } => before.scenes.contains_key(id)
                    && after.scenes.contains_key(id),
                SceneEvent::Removed { id } => before.scenes.contains_key(id)
                    && !after.scenes.contains_key(id),
                _ => false,
            }),
        forall|event: SceneEvent| #[trigger]
            more.contains(event) ==> (exists|i: int|
                0 <= i < order.len() && (#[trigger] order[i]).processed_id == ids::event_id(event)),
    decreases order.len(),
{
    if order.len() == 0 {
        assert(after.events =~= before.events + Seq::empty());
        Seq::empty()
    } else {
        let rest = order.drop_last();
        let last = order.last();
        let id = last.processed_id;
        let between = laws::lemma_last_task(targets, order, before, after);
        assert forall|i: int| 0 <= i < rest.len() implies #[trigger] rest[i] == order[i] by {}
        let first = law_results_are_reported_as_they_are(targets, rest, before, between);
        laws::lemma_tasks_change_own_scenes(targets, rest, before, between);
        assert(order[order.len() - 1] == last);
        assert(laws::same_scene(before.scenes, between.scenes, id));
        let removed = scenes::removal_events(between.scenes, seq![id]);
        scenes::lemma_removal_of_one(between.scenes, id);
        let stored = scenes::storing_event(between.scenes, id);
        let more = if after.events == between.events {
            first
        } else if after.scenes.contains_key(id) {
            first.push(stored)
        } else {
            first + removed
        };
        assert(between.events + Seq::empty() =~= between.events);
        assert(after.events =~= before.events + more);
        assert forall|event: SceneEvent| #[trigger] more.contains(event) implies {
            &&& match event {
                SceneEvent::Added { id } => !before.scenes.contains_key(id)
                    && after.scenes.contains_key(id),
                SceneEvent::Modified { id } => before.scenes.contains_key(id)
                    && after.scenes.contains_key(id),
                SceneEvent::Removed { id } => before.scenes.contains_key(id)
                    && !after.scenes.contains_key(id),
                _ => false,
            }
            &&& exists|i: int|
                0 <= i < order.len() && (#[trigger] order[i]).processed_id == ids::event_id(event)
        } by {
            let n = more.index_of(event);
            if n < first.len() {
                assert(first[n] == event);
                assert(first.contains(event));
                let i = choose|i: int|
                    0 <= i < rest.len() && (#[trigger] rest[i]).processed_id == ids::event_id(
                        event,
                    );
                assert(order[i].processed_id == ids::event_id(event));
                assert(order[i].processed_id != order[order.len() - 1].processed_id);
                assert(ids::event_id(event) != id);
            } else {
                assert(order[order.len() - 1].processed_id == ids::event_id(event));
            }
        }
        more
    }
}

} // verus!
