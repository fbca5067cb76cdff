//! What holds over any number of frames: the processed scenes end up matching the
//! unprocessed ones.

use bevy::prelude::AppTypeRegistry;
use bevy::scene::{Scene, SceneSpawnError};
use vstd::prelude::*;

use crate::actions;
use crate::cleanup;
use crate::finish;
use crate::finish::{FinishState, ProcessFailure};
use crate::handles;
use crate::handles::SceneHandle;
use crate::ids;
use crate::ids::{PostProcessKey, SceneEvent, SceneId};
use crate::jobs;
use crate::jobs::SceneTask;
use crate::laws;
use crate::registry;
use crate::registry::{PostProcessAction, Targets};
use crate::scenes;
use crate::watch;
use crate::watch::WatchState;

verus! {

// Following.

/// Whether copying `scene`, or one of the actions on a copy, can fail.
pub open spec fn can_fail(
    scene: Scene,
    type_registry: AppTypeRegistry,
    action: PostProcessAction,
) -> bool {
    ||| exists|error: SceneSpawnError| #[trigger]
        scenes::clone_may(scene, type_registry, Some(Err(error)))
    ||| exists|copy: Scene, error: String|
        {
            &&& #[trigger] scenes::clone_may(scene, type_registry, Some(Ok(copy)))
            &&& #[trigger] actions::run_may(action.actions@, copy, Err(error))
        }
}

/// Whether the processed scene of `key` matches the unprocessed one. Where nothing is stored
/// for the one, nothing is stored for the other. Where both are stored, the processed scene
/// was made from a copy of the other by all the actions, in order. Only where copying or an
/// action can fail may the processed scene be missing.
pub open spec fn scenes_match(
    targets: Map<SceneId, Targets>,
    type_registry: AppTypeRegistry,
    key: PostProcessKey,
    stored: Map<SceneId, Scene>,
) -> bool {
    let action = registry::action_of(targets, key);
    let scene = stored[key.unprocessed_id];
    if !stored.contains_key(key.unprocessed_id) {
        !stored.contains_key(key.processed_id)
    } else if stored.contains_key(key.processed_id) {
        laws::processed_from(stored[key.processed_id], scene, type_registry, action)
    } else {
        can_fail(scene, type_registry, action)
    }
}

/// Whether the processed scene of `key` follows the unprocessed one: there is a task that
/// processes the scene as it is, or none and the two match, or nobody holds the handle of
/// the processed scene.
pub open spec fn follows(
    targets: Map<SceneId, Targets>,
    type_registry: AppTypeRegistry,
    key: PostProcessKey,
    stored: Map<SceneId, Scene>,
    running: Map<PostProcessKey, SceneTask>,
) -> bool {
    let action = registry::action_of(targets, key);
    ||| handles::seen_upgraded(action.processed_handle, false)
    ||| {
        &&& running.contains_key(key)
        &&& stored.contains_key(key.unprocessed_id)
        &&& watch::processes(running[key], stored[key.unprocessed_id], type_registry, action)
    }
    ||| {
        &&& !running.contains_key(key)
        &&& scenes_match(targets, type_registry, key, stored)
    }
}

/// Whether the processed scene of `key` follows the unprocessed one, or a change of the
/// latter is yet to be sent.
pub open spec fn follows_or_changes(
    targets: Map<SceneId, Targets>,
    type_registry: AppTypeRegistry,
    key: PostProcessKey,
    stored: Map<SceneId, Scene>,
    running: Map<PostProcessKey, SceneTask>,
    events: Seq<SceneEvent>,
) -> bool {
    ||| ids::changed_by(events).contains(key.unprocessed_id)
    ||| follows(targets, type_registry, key, stored, running)
}

// A frame.

/// Once a change of a scene is handled, its processed scenes follow it.
proof fn lemma_change_makes_follow(
    targets: Map<SceneId, Targets>,
    type_registry: AppTypeRegistry,
    before: WatchState,
    after: WatchState,
    key: PostProcessKey,
)
    requires
        watch::scene_step(targets, type_registry, key.unprocessed_id, before, after),
        registry::registered(targets, key),
    ensures
        follows(targets, type_registry, key, after.scenes, after.tasks),
{
    let id = key.unprocessed_id;
    let outputs = targets[id].actions.dom();
    let scene = before.scenes[id];
    laws::lemma_step_changes_own_keys(targets, type_registry, id, before, after);
    assert(watch::keys_of(id, outputs).contains(key));
    if !before.scenes.contains_key(id) {
        let used = choose|used: Seq<SceneId>|
            {
                &&& used.to_set().subset_of(outputs)
                &&& watch::seen_used(targets[id], used.to_set())
                &&& after.scenes == before.scenes.remove_keys(used.to_set())
                &&& after.events == before.events + #[trigger] scenes::removal_events(
                    before.scenes,
                    used,
                )
            };
        assert(targets[id].actions.contains_key(key.processed_id));
    } else if !watch::begun_step(id, targets[id], scene, type_registry, before, after) {
        let error = choose|error: SceneSpawnError|
            {
                &&& scenes::clone_may(scene, type_registry, Some(Err(error)))
                &&& after.failures == #[trigger] before.failures.push(error)
            };
        assert(scenes::clone_may(scene, type_registry, Some(Err(error))));
    }
}

/// Handling changes keeps a processed scene following the unprocessed one, and brings it
/// back where the unprocessed one is among the changed scenes. So the processed scenes of a
/// scene that has not changed go on following it.
pub proof fn law_watching_keeps_following(
    targets: Map<SceneId, Targets>,
    type_registry: AppTypeRegistry,
    order: Seq<SceneId>,
    before: WatchState,
    after: WatchState,
    key: PostProcessKey,
)
    requires
        watch::scene_steps(targets, type_registry, order, before, after),
        laws::outputs_apart(targets),
        registry::registered(targets, key),
        order.contains(key.unprocessed_id) || follows_or_changes(
            targets,
            type_registry,
            key,
            before.scenes,
            before.tasks,
            before.events,
        ),
    ensures
        follows_or_changes(
            targets,
            type_registry,
            key,
            after.scenes,
            after.tasks,
            after.events,
        ),
    decreases order.len(),
{
    if order.len() > 0 {
        let id = order.last();
        let rest = order.drop_last();
        let between = laws::lemma_last_change(targets, type_registry, order, before, after);
        laws::lemma_step_changes_own_keys(targets, type_registry, id, between, after);
        if id == key.unprocessed_id {
            lemma_change_makes_follow(targets, type_registry, between, after, key);
        } else {
            if order.contains(key.unprocessed_id) {
                let i = order.index_of(key.unprocessed_id);
                assert(rest[i] == key.unprocessed_id);
            }
            law_watching_keeps_following(targets, type_registry, rest, before, between, key);
            assert(after.tasks.contains_key(key) == between.tasks.contains_key(key));
            let other = PostProcessKey { unprocessed_id: id, processed_id: key.processed_id };
            assert(!registry::registered(targets, other)) by {
                if registry::registered(targets, other) {
                    assert(other == key);
                }
            }
            assert(laws::same_scene(between.scenes, after.scenes, key.processed_id));
            if !ids::changed_by(after.events).contains(key.unprocessed_id) {
                assert(laws::same_scene(between.scenes, after.scenes, key.unprocessed_id));
            }
        }
    }
}

/// Handling a task queues an event for every scene that it changes.
proof fn lemma_task_changes_are_queued(
    targets: Map<SceneId, Targets>,
    key: PostProcessKey,
    before: FinishState,
    after: FinishState,
)
    requires
        finish::task_step(targets, key, before, after),
    ensures
        forall|id: SceneId|
            ids::changed_by(before.events).contains(id) || !laws::same_scene(
                before.scenes,
                after.scenes,
                id,
            ) ==> #[trigger] ids::changed_by(after.events).contains(id),
        forall|id: SceneId|
            id != key.processed_id ==> #[trigger] laws::same_scene(
                before.scenes,
                after.scenes,
                id,
            ),
{
    if after != before {
        let output = choose|output: Result<Scene, String>|
            {
                &&& jobs::seen_finished(before.tasks[key], true)
                &&& jobs::task_may(before.tasks[key], output)
                &&& #[trigger] finish::output_step(targets, key, output, before, after)
            };
        let id = key.processed_id;
        scenes::lemma_removal_of_one(before.scenes, id);
        let removed = scenes::removal_events(before.scenes, seq![id]);
        let event = scenes::storing_event(before.scenes, id);
        laws::lemma_changed_by_concat(before.events, removed);
        laws::lemma_changed_by_concat(before.events, seq![event]);
        assert(before.events + seq![event] =~= before.events.push(event));
        assert(ids::change_of(seq![event][0]) == Some(id));
        assert(ids::change_of(seq![SceneEvent::Removed { id }][0]) == Some(id));
    }
}

/// Handling finished tasks keeps a processed scene following the unprocessed one.
pub proof fn law_finishing_keeps_following(
    targets: Map<SceneId, Targets>,
    type_registry: AppTypeRegistry,
    order: Seq<PostProcessKey>,
    before: FinishState,
    after: FinishState,
    key: PostProcessKey,
)
    requires
        finish::task_steps(targets, order, before, after),
        laws::outputs_apart(targets),
        laws::tasks_registered(before.tasks, targets),
        order.no_duplicates(),
        forall|other: PostProcessKey| #[trigger]
            order.contains(other) ==> before.tasks.contains_key(other),
        registry::registered(targets, key),
        follows_or_changes(
            targets,
            type_registry,
            key,
            before.scenes,
            before.tasks,
            before.events,
        ),
    ensures
        follows_or_changes(
            targets,
            type_registry,
            key,
            after.scenes,
            after.tasks,
            after.events,
        ),
    decreases order.len(),
{
    if order.len() > 0 {
        let rest = order.drop_last();
        let last = order.last();
        let between = laws::lemma_last_task(targets, order, before, after);
        assert(order[order.len() - 1] == last);
        assert(order.contains(last));
        assert forall|other: PostProcessKey| #[trigger]
            rest.contains(other) implies before.tasks.contains_key(other) by {
            assert(order[rest.index_of(other)] == other);
            assert(order.contains(other));
        }
        law_finishing_keeps_following(targets, type_registry, rest, before, between, key);
        laws::lemma_tasks_change_own_scenes(targets, rest, before, between);
        assert(!rest.contains(last)) by {
            if rest.contains(last) {
                assert(order[rest.index_of(last)] == last);
            }
        }
        assert(between.tasks.contains_key(last) == before.tasks.contains_key(last));
        assert(registry::registered(targets, last));
        lemma_task_changes_are_queued(targets, last, between, after);
        if !ids::changed_by(after.events).contains(key.unprocessed_id) && after != between {
            assert(!ids::changed_by(between.events).contains(key.unprocessed_id));
            assert(laws::same_scene(between.scenes, after.scenes, key.unprocessed_id));
            let output = choose|output: Result<Scene, String>|
                {
                    &&& jobs::seen_finished(between.tasks[last], true)
                    &&& jobs::task_may(between.tasks[last], output)
                    &&& #[trigger] finish::output_step(targets, last, output, between, after)
                };
            let action = registry::action_of(targets, key);
            if last != key {
                assert(last.processed_id != key.processed_id);
                assert(laws::same_scene(between.scenes, after.scenes, key.processed_id));
                assert(after.tasks.contains_key(key) == between.tasks.contains_key(key));
            } else if !handles::seen_upgraded(action.processed_handle, false) {
                let scene = between.scenes[key.unprocessed_id];
                let copy = jobs::task_start(between.tasks[key]).1;
                assert(scenes::clone_may(scene, type_registry, Some(Ok(copy))));
                match output {
                    Ok(processed) => {
                        assert(laws::processed_from(processed, scene, type_registry, action));
                    },
                    Err(error) => {
                        assert(actions::run_may(action.actions@, copy, Err(error)));
                    },
                }
            }
        }
    }
}

// A history.

/// The scenes of an app and what is kept of them, at some point in time.
#[verifier::ext_equal]
pub struct AppState {
    /// The registrations.
    pub targets: Map<SceneId, Targets>,
    /// The scenes that are ready to be processed without an event.
    pub ready: Set<SceneId>,
    /// The stored scenes.
    pub scenes: Map<SceneId, Scene>,
    /// The running tasks.
    pub tasks: Map<PostProcessKey, SceneTask>,
    /// What has happened to the stored scenes and was not sent yet.
    pub queued: Seq<SceneEvent>,
    /// What has been sent and was not read yet.
    pub sent: Seq<SceneEvent>,
    /// The identifiers that were handed out.
    pub reserved: Set<SceneId>,
}

/// Nothing is registered and nothing is running.
pub open spec fn starts(state: AppState) -> bool {
    &&& state.targets == Map::<SceneId, Targets>::empty()
    &&& state.tasks == Map::<PostProcessKey, SceneTask>::empty()
}

/// `scene` is registered to be processed into `output`, as `ScenePostProcessor::process`
/// does.
pub open spec fn registers(
    before: AppState,
    after: AppState,
    scene: SceneHandle,
    output: SceneId,
    action: PostProcessAction,
) -> bool {
    &&& !before.reserved.contains(output)
    &&& after.reserved.contains(output)
    &&& before.reserved.subset_of(after.reserved)
    &&& !before.scenes.contains_key(output)
    &&& after == AppState {
        targets: registry::with_action(before.targets, scene, output, action),
        ready: if before.scenes.contains_key(scene.scene_id()) {
            before.ready.insert(scene.scene_id())
        } else {
            before.ready
        },
        reserved: after.reserved,
        ..before
    }
}

/// The registrations `dropped` are dropped, as `drop_unused_scenes` does.
pub open spec fn drops(before: AppState, after: AppState, dropped: Set<PostProcessKey>) -> bool {
    after == AppState {
        targets: cleanup::without_all(before.targets, dropped),
        tasks: before.tasks.remove_keys(dropped),
        ..before
    }
}

/// Bevy sends the events that are queued.
pub open spec fn sends(before: AppState, after: AppState) -> bool {
    after == AppState { sent: before.sent + before.queued, queued: Seq::empty(), ..before }
}

/// The events that were sent are read and handled, as `watch_for_changed_unprocessed` does.
pub open spec fn watches(
    before: AppState,
    after: AppState,
    type_registry: AppTypeRegistry,
    order: Seq<SceneId>,
    failures: Seq<SceneSpawnError>,
) -> bool {
    &&& order.to_set() == ids::changed_by(before.sent).union(before.ready)
    &&& watch::scene_steps(
        before.targets,
        type_registry,
        order,
        WatchState {
            scenes: before.scenes,
            tasks: before.tasks,
            failures: Seq::empty(),
            events: before.queued,
        },
        WatchState { scenes: after.scenes, tasks: after.tasks, failures, events: after.queued },
    )
    &&& after == AppState {
        ready: Set::empty(),
        sent: Seq::empty(),
        scenes: after.scenes,
        tasks: after.tasks,
        queued: after.queued,
        ..before
    }
}

/// The tasks that have run are handled, as `handle_finished_processing` does.
pub open spec fn finishes(
    before: AppState,
    after: AppState,
    order: Seq<PostProcessKey>,
    failures: Seq<ProcessFailure>,
) -> bool {
    &&& order.no_duplicates()
    &&& order.to_set() == before.tasks.dom()
    &&& finish::task_steps(
        before.targets,
        order,
        FinishState {
            scenes: before.scenes,
            tasks: before.tasks,
            failures: Seq::empty(),
            events: before.queued,
        },
        FinishState { scenes: after.scenes, tasks: after.tasks, failures, events: after.queued },
    )
    &&& after == AppState {
        scenes: after.scenes,
        tasks: after.tasks,
        queued: after.queued,
        ..before
    }
}

/// Something else happens in the app. It may change any scene but the processed scene of
/// `key`, as long as Bevy queues the event of a change of the unprocessed one.
pub open spec fn passes(before: AppState, after: AppState, key: PostProcessKey) -> bool {
    &&& registry::registered(before.targets, key) ==> laws::same_scene(
        before.scenes,
        after.scenes,
        key.processed_id,
    )
    &&& ids::changed_by(before.queued).contains(key.unprocessed_id) || !laws::same_scene(
        before.scenes,
        after.scenes,
        key.unprocessed_id,
    ) ==> ids::changed_by(after.queued).contains(key.unprocessed_id)
    &&& before.reserved.subset_of(after.reserved)
    &&& after == AppState {
        scenes: after.scenes,
        queued: after.queued,
        reserved: after.reserved,
        ..before
    }
}

/// One step of an app, of any kind.
pub open spec fn steps(
    before: AppState,
    after: AppState,
    type_registry: AppTypeRegistry,
    key: PostProcessKey,
) -> bool {
    ||| exists|scene: SceneHandle, output: SceneId, action: PostProcessAction| #[trigger]
        registers(before, after, scene, output, action)
    ||| exists|dropped: Set<PostProcessKey>| #[trigger] drops(before, after, dropped)
    ||| sends(before, after)
    ||| exists|order: Seq<SceneId>, failures: Seq<SceneSpawnError>| #[trigger]
        watches(before, after, type_registry, order, failures)
    ||| exists|order: Seq<PostProcessKey>, failures: Seq<ProcessFailure>| #[trigger]
        finishes(before, after, order, failures)
    ||| passes(before, after, key)
}

/// A history of an app: from a state in which nothing is registered, any steps in any order.
pub open spec fn history(
    states: Seq<AppState>,
    type_registry: AppTypeRegistry,
    key: PostProcessKey,
) -> bool
    decreases states.len(),
{
    if states.len() <= 1 {
        states.len() == 1 && starts(states[0])
    } else {
        &&& history(states.drop_last(), type_registry, key)
        &&& steps(states.drop_last().last(), states.last(), type_registry, key)
    }
}

/// Whether a change of the scene `id` is yet to be handled.
pub open spec fn change_pending(state: AppState, id: SceneId) -> bool {
    ||| ids::changed_by(state.queued).contains(id)
    ||| ids::changed_by(state.sent).contains(id)
    ||| state.ready.contains(id)
}

/// What every step keeps: the processed scenes are apart and have identifiers that were
/// handed out, every task belongs to a registration, and the processed scene of `key`
/// follows the unprocessed one, unless a change of that is yet to be handled.
pub open spec fn kept(
    state: AppState,
    type_registry: AppTypeRegistry,
    key: PostProcessKey,
) -> bool {
    &&& laws::outputs_apart(state.targets)
    &&& registry::outputs_reserved(state.targets, state.reserved)
    &&& laws::tasks_registered(state.tasks, state.targets)
    &&& registry::registered(state.targets, key) ==> change_pending(state, key.unprocessed_id)
        || follows(state.targets, type_registry, key, state.scenes, state.tasks)
}

proof fn lemma_registering_keeps(
    before: AppState,
    after: AppState,
    type_registry: AppTypeRegistry,
    key: PostProcessKey,
    scene: SceneHandle,
    output: SceneId,
    action: PostProcessAction,
)
    requires
        kept(before, type_registry, key),
        registers(before, after, scene, output, action),
    ensures
        kept(after, type_registry, key),
{
    let new = PostProcessKey { unprocessed_id: scene.scene_id(), processed_id: output };
    registry::lemma_with_action(before.targets, scene, output, action);
    assert(laws::not_an_output(before.targets, output));
    laws::law_registration_keeps_outputs_apart(before.targets, scene, output, action);
    laws::law_registering_keeps_tasks_registered(
        before.tasks,
        before.targets,
        scene,
        output,
        action,
    );
    if registry::registered(before.targets, key) {
        assert(key != new);
        assert(registry::action_of(after.targets, key) == registry::action_of(
            before.targets,
            key,
        ));
    } else {
        assert(!after.tasks.contains_key(key));
    }
}

proof fn lemma_dropping_keeps(
    before: AppState,
    after: AppState,
    type_registry: AppTypeRegistry,
    key: PostProcessKey,
    dropped: Set<PostProcessKey>,
)
    requires
        kept(before, type_registry, key),
        drops(before, after, dropped),
    ensures
        kept(after, type_registry, key),
{
    laws::law_dropping_keeps_the_rest(before.targets, dropped);
    laws::law_dropping_keeps_outputs_apart(before.targets, dropped);
    laws::law_dropping_keeps_tasks_registered(before.tasks, before.targets, dropped);
    if registry::registered(after.targets, key) {
        assert(registry::action_of(after.targets, key) == registry::action_of(
            before.targets,
            key,
        ));
        assert(after.tasks.contains_key(key) == before.tasks.contains_key(key));
    }
}

proof fn lemma_watching_keeps(
    before: AppState,
    after: AppState,
    type_registry: AppTypeRegistry,
    key: PostProcessKey,
    order: Seq<SceneId>,
    failures: Seq<SceneSpawnError>,
)
    requires
        kept(before, type_registry, key),
        watches(before, after, type_registry, order, failures),
    ensures
        kept(after, type_registry, key),
{
    let watched_before = WatchState {
        scenes: before.scenes,
        tasks: before.tasks,
        failures: Seq::empty(),
        events: before.queued,
    };
    let watched_after = WatchState {
        scenes: after.scenes,
        tasks: after.tasks,
        failures,
        events: after.queued,
    };
    laws::law_watching_keeps_tasks_registered(
        before.targets,
        type_registry,
        order,
        watched_before,
        watched_after,
    );
    if registry::registered(before.targets, key) {
        if ids::changed_by(before.sent).union(before.ready).contains(key.unprocessed_id) {
            assert(order.to_set().contains(key.unprocessed_id));
        }
        law_watching_keeps_following(
            before.targets,
            type_registry,
            order,
            watched_before,
            watched_after,
            key,
        );
    }
}

proof fn lemma_finishing_keeps(
    before: AppState,
    after: AppState,
    type_registry: AppTypeRegistry,
    key: PostProcessKey,
    order: Seq<PostProcessKey>,
    failures: Seq<ProcessFailure>,
)
    requires
        kept(before, type_registry, key),
        finishes(before, after, order, failures),
    ensures
        kept(after, type_registry, key),
{
    let finish_before = FinishState {
        scenes: before.scenes,
        tasks: before.tasks,
        failures: Seq::empty(),
        events: before.queued,
    };
    let finish_after = FinishState {
        scenes: after.scenes,
        tasks: after.tasks,
        failures,
        events: after.queued,
    };
    laws::law_finishing_keeps_tasks_registered(before.targets, order, finish_before, finish_after);
    if registry::registered(before.targets, key) && !ids::changed_by(before.sent).contains(
        key.unprocessed_id,
    ) && !before.ready.contains(key.unprocessed_id) {
        assert forall|other: PostProcessKey| #[trigger]
            order.contains(other) implies before.tasks.contains_key(other) by {
            assert(order.to_set().contains(other));
        }
        law_finishing_keeps_following(
            before.targets,
            type_registry,
            order,
            finish_before,
            finish_after,
            key,
        );
    }
}

/// Every step of an app keeps the processed scenes apart, every task with its registration,
/// and the processed scene of `key` following the unprocessed one, unless a change of that
/// is yet to be handled.
pub proof fn law_every_step_keeps_following(
    before: AppState,
    after: AppState,
    type_registry: AppTypeRegistry,
    key: PostProcessKey,
)
    requires
        kept(before, type_registry, key),
        steps(before, after, type_registry, key),
    ensures
        kept(after, type_registry, key),
{
    if exists|scene: SceneHandle, output: SceneId, action: PostProcessAction| #[trigger]
        registers(before, after, scene, output, action) {
        let (scene, output, action) = choose|
            scene: SceneHandle,
            output: SceneId,
            action: PostProcessAction,
        | #[trigger]
            registers(before, after, scene, output, action);
        lemma_registering_keeps(before, after, type_registry, key, scene, output, action);
    } else if exists|dropped: Set<PostProcessKey>| #[trigger] drops(before, after, dropped) {
        let dropped = choose|dropped: Set<PostProcessKey>| #[trigger]
            drops(before, after, dropped);
        lemma_dropping_keeps(before, after, type_registry, key, dropped);
    } else if sends(before, after) {
        laws::lemma_changed_by_concat(before.sent, before.queued);
    } else if exists|order: Seq<SceneId>, failures: Seq<SceneSpawnError>| #[trigger]
        watches(before, after, type_registry, order, failures) {
        let (order, failures) = choose|order: Seq<SceneId>, failures: Seq<SceneSpawnError>|
            #[trigger]
            watches(before, after, type_registry, order, failures);
        lemma_watching_keeps(before, after, type_registry, key, order, failures);
    } else if exists|order: Seq<PostProcessKey>, failures: Seq<ProcessFailure>| #[trigger]
        finishes(before, after, order, failures) {
        let (order, failures) = choose|order: Seq<PostProcessKey>, failures: Seq<ProcessFailure>|
            #[trigger]
            finishes(before, after, order, failures);
        lemma_finishing_keeps(before, after, type_registry, key, order, failures);
    }
}

/// After any history the processed scene of `key` follows the unprocessed one, unless a
/// change of that is yet to be handled.
pub proof fn law_history_keeps_following(
    states: Seq<AppState>,
    type_registry: AppTypeRegistry,
    key: PostProcessKey,
)
    requires
        history(states, type_registry, key),
    ensures
        kept(states.last(), type_registry, key),
    decreases states.len(),
{
    if states.len() > 1 {
        law_history_keeps_following(states.drop_last(), type_registry, key);
        law_every_step_keeps_following(
            states.drop_last().last(),
            states.last(),
            type_registry,
            key,
        );
    }
}

/// The processed scene ends up matching the unprocessed one. After any history, once every
/// change of the unprocessed scene has been handled and its task has finished, and while the
/// handle of the processed scene is held: the processed scene is stored only if the
/// unprocessed one is, and is then made from a copy of it, as it is now, by all the actions,
/// in order. And it is stored if the unprocessed one is, unless copying or an action can
/// fail.
pub proof fn law_processed_scene_ends_up_matching(
    states: Seq<AppState>,
    type_registry: AppTypeRegistry,
    key: PostProcessKey,
)
    requires
        history(states, type_registry, key),
        registry::registered(states.last().targets, key),
        !change_pending(states.last(), key.unprocessed_id),
        !states.last().tasks.contains_key(key),
        !handles::seen_upgraded(
            registry::action_of(states.last().targets, key).processed_handle,
            false,
        ),
    ensures
        ({
            let stored = states.last().scenes;
            let action = registry::action_of(states.last().targets, key);
            let scene = stored[key.unprocessed_id];
            &&& stored.contains_key(key.processed_id) ==> {
                &&& stored.contains_key(key.unprocessed_id)
                &&& laws::processed_from(
                    stored[key.processed_id],
                    scene,
                    type_registry,
                    action,
                )
            }
            &&& stored.contains_key(key.unprocessed_id) && !can_fail(scene, type_registry, action)
                ==> stored.contains_key(key.processed_id)
        }),
{
    law_history_keeps_following(states, type_registry, key);
}

} // verus!
