use std::sync::{Arc, Mutex};

use bevy::app::{App, Last};
use bevy::asset::{AssetEvent, AssetEvents, AssetId, AssetPlugin, Assets, Handle};
use bevy::ecs::component::StorageType;
use bevy::ecs::event::EventCursor;
use bevy::prelude::{
    AppTypeRegistry, Component, EventReader, Events, IntoSystemConfigs, Mut, Res, ResMut, Resource,
    TaskPoolPlugin, With, World,
};
use bevy::scene::{Scene, ScenePlugin, SceneSpawnError};
use bevy::tasks::{tick_global_task_pools_on_main_thread, AsyncComputeTaskPool};

use bevy_scene_postprocess::{
    drop_unused_scenes, forget_output, handle_finished_processing, remove_outputs, run_actions,
    store_output, watch_for_changed_unprocessed, Action, ActionFunc, BoxedError, PostProcessKey,
    ProcessFailure, RegisteredPostProcessActions, SceneEvent, SceneHandle, SceneId, SceneJob,
    ScenePostProcessTasks, ScenePostProcessor, SceneReader, SceneStore,
};

struct Registered(RegisteredPostProcessActions);

impl Resource for Registered {}

struct Tasks(ScenePostProcessTasks);

impl Resource for Tasks {}

struct Failures {
    copying: Vec<SceneSpawnError>,
    processing: Vec<ProcessFailure>,
}

impl Resource for Failures {}

fn scene_id(id: AssetId<Scene>) -> SceneId {
    match id {
        AssetId::Index { index, .. } => SceneId::Index(index.to_bits()),
        AssetId::Uuid { uuid } => SceneId::Uuid(uuid.as_u128()),
    }
}

fn scene_handle(handle: Handle<Scene>) -> SceneHandle {
    match handle {
        Handle::Strong(strong) => SceneHandle::Strong(strong),
        Handle::Weak(id) => SceneHandle::Weak(scene_id(id)),
    }
}

fn strong(handle: SceneHandle) -> Handle<Scene> {
    match handle {
        SceneHandle::Strong(strong) => Handle::Strong(strong),
        SceneHandle::Weak(_) => panic!("the handle is strong"),
    }
}

fn scene_event(event: &AssetEvent<Scene>) -> SceneEvent {
    match event {
        AssetEvent::Added { id } => SceneEvent::Added { id: scene_id(*id) },
        AssetEvent::Modified { id } => SceneEvent::Modified { id: scene_id(*id) },
        AssetEvent::Removed { id } => SceneEvent::Removed { id: scene_id(*id) },
        AssetEvent::Unused { id } => SceneEvent::Unused { id: scene_id(*id) },
        AssetEvent::LoadedWithDependencies { id } => {
            SceneEvent::LoadedWithDependencies { id: scene_id(*id) }
        }
    }
}

fn drop_unused(mut registered: ResMut<Registered>, mut tasks: ResMut<Tasks>) {
    drop_unused_scenes(&mut registered.0, &mut tasks.0);
}

fn watch_for_changed(
    mut events: EventReader<AssetEvent<Scene>>,
    mut registered: ResMut<Registered>,
    type_registry: Res<AppTypeRegistry>,
    mut scenes: ResMut<Assets<Scene>>,
    mut tasks: ResMut<Tasks>,
    mut failures: ResMut<Failures>,
) {
    let events: Vec<SceneEvent> = events.read().map(scene_event).collect();
    failures.copying.extend(watch_for_changed_unprocessed(
        &events,
        &mut registered.0,
        &type_registry,
        AsyncComputeTaskPool::get(),
        &mut SceneStore(&mut scenes),
        &mut tasks.0,
    ));
}

fn handle_finished(
    mut tasks: ResMut<Tasks>,
    registered: Res<Registered>,
    mut scenes: ResMut<Assets<Scene>>,
    mut failures: ResMut<Failures>,
) {
    failures.processing.extend(handle_finished_processing(
        &mut tasks.0,
        &registered.0,
        &mut SceneStore(&mut scenes),
    ));
}

fn create_app() -> App {
    let mut app = App::new();
    app.add_plugins(AssetPlugin::default())
        .add_plugins(ScenePlugin)
        .add_plugins(TaskPoolPlugin::default())
        .insert_resource(Registered(RegisteredPostProcessActions::default()))
        .insert_resource(Tasks(ScenePostProcessTasks::default()))
        .insert_resource(Failures { copying: Vec::new(), processing: Vec::new() })
        .add_systems(
            Last,
            (
                drop_unused,
                watch_for_changed.before(tick_global_task_pools_on_main_thread),
                handle_finished.after(tick_global_task_pools_on_main_thread),
            )
                .chain()
                .after(AssetEvents),
        );
    app
}

fn get_scenes(app: &App) -> &Assets<Scene> {
    app.world().resource()
}

fn get_scenes_mut(app: &mut App) -> Mut<'_, Assets<Scene>> {
    app.world_mut().resource_mut()
}

fn get_post_process_tasks(app: &App) -> usize {
    app.world().resource::<Tasks>().0.len()
}

fn get_registered(app: &App) -> usize {
    app.world().resource::<Registered>().0.len()
}

fn wait_for_tasks_to_finish(app: &App) {
    let task_pool = AsyncComputeTaskPool::get();
    while app.world().resource::<Tasks>().0.has_unfinished() {
        task_pool.with_local_executor(|exec| {
            exec.try_tick();
        });
    }
}

fn finish_processing_tasks(app: &mut App) {
    // Start processing.
    app.update();
    wait_for_tasks_to_finish(app);
    // Finish processing.
    app.update();
}

fn process(app: &mut App, scene: &Handle<Scene>, actions: Vec<Arc<ActionFunc>>) -> Handle<Scene> {
    app.world_mut().resource_scope(|world, mut registered: Mut<Registered>| {
        let mut post_processor = ScenePostProcessor {
            intermediate: &mut registered.0,
            scenes: SceneReader(world.resource::<Assets<Scene>>()),
        };
        let actions: Vec<Action> = actions.into_iter().map(Action).collect();
        strong(post_processor.process(scene_handle(scene.clone()), actions))
    })
}

fn empty_scene() -> Scene {
    Scene { world: World::new() }
}

struct ExampleMarker;

impl Component for ExampleMarker {
    const STORAGE_TYPE: StorageType = StorageType::Table;
}

struct AnotherMarker;

impl Component for AnotherMarker {
    const STORAGE_TYPE: StorageType = StorageType::Table;
}

struct MyUnregisteredComponent;

impl Component for MyUnregisteredComponent {
    const STORAGE_TYPE: StorageType = StorageType::Table;
}

fn spawn_entity_with_marker_action(world: &mut World) -> Result<(), BoxedError> {
    world.spawn(ExampleMarker);

    Ok(())
}

fn spawn_entity_with_another_marker_action(world: &mut World) -> Result<(), BoxedError> {
    world.spawn(AnotherMarker);

    Ok(())
}

fn failing_action(_: &mut World) -> Result<(), BoxedError> {
    Err("Some message".into())
}

fn count_entities_with<T: Component>(scene: &mut Scene) -> usize {
    let mut query_state = scene.world.query_filtered::<(), With<T>>();
    query_state.iter(&scene.world).len()
}

fn scene_contains_entity_with<T: Component>(scene: &mut Scene) -> bool {
    // Post processing inserted a new entity with the marker component.
    count_entities_with::<T>(scene) == 1
}

#[test]
fn processes_scene_after_loading() {
    let mut app = create_app();

    let scene_to_process = get_scenes(&app).reserve_handle();

    let (sender, receiver) = crossbeam_channel::bounded::<()>(1);

    let processed_scene = process(
        &mut app,
        &scene_to_process,
        vec![Arc::new(move |world: &mut World| {
            receiver.recv().unwrap();

            spawn_entity_with_marker_action(world)
        })],
    );

    app.update();

    // The processed scene hasn't been added yet, since the unprocessed scene
    // hasn't been loaded.
    let mut scenes = get_scenes_mut(&mut app);
    assert!(scenes.get(&processed_scene).is_none());

    // Add an empty scene for the unprocessed scene.
    scenes.insert(scene_to_process.id(), empty_scene());

    app.update();

    // The processed scene has only just started processing, so it's not added
    // yet.
    assert!(get_scenes(&app).get(&processed_scene).is_none());
    // There is a task to be processed.
    assert_eq!(get_post_process_tasks(&app), 1);

    // Let the task finish processing.
    sender.send(()).unwrap();
    wait_for_tasks_to_finish(&app);
    app.update();

    let mut scenes = get_scenes_mut(&mut app);
    let processed_scene =
        scenes.get_mut(&processed_scene).expect("the scene is finally processed.");
    // Post processing inserted a new entity with the marker component.
    assert!(scene_contains_entity_with::<ExampleMarker>(processed_scene));
    // There are no more tasks to be processed.
    assert_eq!(get_post_process_tasks(&app), 0);
}

#[test]
fn processes_loaded_scene_immediately() {
    let mut app = create_app();

    let scene_to_process = get_scenes_mut(&mut app).add(empty_scene());

    // Update so the events are processed by the scene processor (even though they
    // will just be ignored).
    app.update();
    // Clear out the events to make sure these events can't affect processing.
    // This is not necessary but it makes it clear the events aren't related here.
    app.world_mut().resource_mut::<Events<AssetEvent<Scene>>>().clear();

    let processed_scene =
        process(&mut app, &scene_to_process, vec![Arc::new(spawn_entity_with_marker_action)]);

    finish_processing_tasks(&mut app);

    let mut scenes = get_scenes_mut(&mut app);
    let processed_scene =
        scenes.get_mut(&processed_scene).expect("the processed scene has been loaded.");
    // Post processing inserted a new entity with the marker component.
    assert!(scene_contains_entity_with::<ExampleMarker>(processed_scene));
    // There are no more tasks to be processed.
    assert_eq!(get_post_process_tasks(&app), 0);
}

#[test]
fn drops_processed_scene_if_unprocessed_is_dropped() {
    let mut app = create_app();

    let scene_to_process = get_scenes_mut(&mut app).add(empty_scene());
    let processed_scene =
        process(&mut app, &scene_to_process, vec![Arc::new(spawn_entity_with_marker_action)]);

    finish_processing_tasks(&mut app);

    let mut scenes = get_scenes_mut(&mut app);
    assert!(scenes.get(&processed_scene).is_some());

    // Removing the unprocessed scene should also remove the processed scene.
    scenes.remove(&scene_to_process);

    // Update to let the plugin react.
    app.update();

    assert!(get_scenes(&app).get(&processed_scene).is_none());
}

#[test]
fn multiple_asset_events_only_results_in_one_change() {
    let mut app = create_app();

    let scene_to_process = get_scenes_mut(&mut app).add(empty_scene());

    let (sender, receiver) = crossbeam_channel::bounded::<()>(1);

    // Keep the scene alive even though we don't use it any longer.
    let _processed_scene = process(
        &mut app,
        &scene_to_process,
        vec![Arc::new(move |_: &mut World| {
            receiver.recv().unwrap();
            Ok(())
        })],
    );

    // Tell the task it is allowed to finish.
    sender.send(()).unwrap();
    finish_processing_tasks(&mut app);
    // Update once more to flush the internal asset events from inserting the
    // processed asset.
    app.update();

    // Clear out the events to make sure these events can't affect processing.
    // This is not necessary but it makes it clear the events aren't related here.
    app.world_mut().resource_mut::<Events<AssetEvent<Scene>>>().clear();

    let mut scenes = get_scenes_mut(&mut app);
    let scene = scenes.remove(&scene_to_process).unwrap();
    scenes.insert(&scene_to_process, scene);
    let scene = scenes.remove(&scene_to_process).unwrap();
    scenes.insert(&scene_to_process, scene);

    app.update();

    // There were 4 asset events from changes to the scene.
    let mut events = app.world_mut().resource_mut::<Events<AssetEvent<Scene>>>();
    assert_eq!(events.len(), 4);
    // Clear out the events so we don't double count them.
    events.clear();
    assert_eq!(get_post_process_tasks(&app), 1);

    // Tell the task it is allowed to finish.
    sender.send(()).unwrap();
    wait_for_tasks_to_finish(&app);

    // Update again to clear out the task pool.
    finish_processing_tasks(&mut app);

    // There was one event from the processed scene loading.
    assert_eq!(app.world().resource::<Events<AssetEvent<Scene>>>().len(), 1);
}

#[test]
fn drops_post_process_on_drop_output() {
    let mut app = create_app();

    // Keep the scene alive even though we don't use it any longer.
    let processed_scene = {
        let scene_to_process = get_scenes_mut(&mut app).add(empty_scene());
        process(&mut app, &scene_to_process, vec![Arc::new(spawn_entity_with_marker_action)])
    };

    finish_processing_tasks(&mut app);

    drop(processed_scene);

    // Update once to handle dropping the processed scene.
    app.update();
    // Update again so the asset system handles the dropped unprocessed scene.
    app.update();

    let scenes = get_scenes(&app);
    // All the scenes were dropped.
    assert_eq!(scenes.len(), 0, "{:?}", scenes.ids().collect::<Vec<_>>());
    assert_eq!(get_registered(&app), 0);
    assert_eq!(get_post_process_tasks(&app), 0);
}

#[test]
fn allows_processing_same_scene_multiple_times() {
    let mut app = create_app();

    let scene_to_process = get_scenes_mut(&mut app).add(empty_scene());

    let processed_scene_1 =
        process(&mut app, &scene_to_process, vec![Arc::new(spawn_entity_with_marker_action)]);
    let processed_scene_2 = process(
        &mut app,
        &scene_to_process,
        vec![Arc::new(spawn_entity_with_another_marker_action)],
    );

    finish_processing_tasks(&mut app);

    let mut scenes = get_scenes_mut(&mut app);
    assert!(scene_contains_entity_with::<ExampleMarker>(
        scenes.get_mut(&processed_scene_1).expect("The scene was processed."),
    ));
    assert!(scene_contains_entity_with::<AnotherMarker>(
        scenes.get_mut(&processed_scene_2).expect("The scene was processed."),
    ));
}

#[test]
fn error_causes_failed_load() {
    let mut app = create_app();

    let scene_to_process = get_scenes_mut(&mut app).add(empty_scene());

    let should_fail = Arc::new(Mutex::new(false));

    let processed_scene = {
        let should_fail = should_fail.clone();

        let action = Arc::new(move |world: &mut World| -> Result<(), BoxedError> {
            if *should_fail.lock().unwrap() {
                return Err("Some message".into());
            }

            spawn_entity_with_marker_action(world)
        });

        process(&mut app, &scene_to_process, vec![action])
    };

    finish_processing_tasks(&mut app);

    assert_eq!(get_post_process_tasks(&app), 0);
    // The scene was processed successfully.
    assert!(get_scenes(&app).get(&processed_scene).is_some());

    // Reprocessing the asset now will fail.
    *should_fail.lock().unwrap() = true;

    // Get the scene mutably to trigger a modified asset event to trigger
    // reprocessing.
    let _ = get_scenes_mut(&mut app).get_mut(&scene_to_process);

    finish_processing_tasks(&mut app);

    assert_eq!(get_post_process_tasks(&app), 0);
    // The stale scene was deleted because the new scene failed to be processed.
    assert!(get_scenes(&app).get(&processed_scene).is_none());

    // The failure was reported, with the message of the action.
    let failures = app.world().resource::<Failures>();
    assert_eq!(failures.processing.len(), 1);
    assert_eq!(failures.processing[0].unprocessed_id, scene_id(scene_to_process.id()));
    assert_eq!(failures.processing[0].error, "Some message");

    // Reprocessing the asset now will pass.
    *should_fail.lock().unwrap() = false;

    // Get the scene mutably to trigger a modified asset event to trigger
    // reprocessing.
    let _ = get_scenes_mut(&mut app).get_mut(&scene_to_process);

    finish_processing_tasks(&mut app);

    assert_eq!(get_post_process_tasks(&app), 0);
    // The scene was reprocessed successfully!
    assert!(get_scenes(&app).get(&processed_scene).is_some());
}

#[test]
fn failed_to_clone_scene_removes_all_processed_scenes() {
    let mut app = create_app();

    let scene_to_process = get_scenes_mut(&mut app).add(empty_scene());

    let processed_scene_1 =
        process(&mut app, &scene_to_process, vec![Arc::new(spawn_entity_with_marker_action)]);
    let processed_scene_2 = process(
        &mut app,
        &scene_to_process,
        vec![Arc::new(spawn_entity_with_another_marker_action)],
    );

    finish_processing_tasks(&mut app);

    assert_eq!(get_post_process_tasks(&app), 0);
    // The scenes were processed successfully.
    assert!(get_scenes(&app).get(&processed_scene_1).is_some());
    assert!(get_scenes(&app).get(&processed_scene_2).is_some());

    *get_scenes_mut(&mut app).get_mut(&scene_to_process).unwrap() = {
        let mut scene = empty_scene();
        scene.world.spawn(MyUnregisteredComponent);
        scene
    };

    // Start processing, which should fail.
    app.update();

    assert_eq!(get_post_process_tasks(&app), 0);
    // The scenes were both removed since cloning the unprocessed scene failed.
    assert!(get_scenes(&app).get(&processed_scene_1).is_none());
    assert!(get_scenes(&app).get(&processed_scene_2).is_none());

    // The failure was reported once.
    let failures = app.world().resource::<Failures>();
    assert_eq!(failures.copying.len(), 1);
    assert!(matches!(failures.copying[0], SceneSpawnError::UnregisteredType { .. }));
}

#[test]
fn handles_give_the_identifier_of_their_scene() {
    let app = create_app();
    let handle = get_scenes(&app).reserve_handle();

    let strong = scene_handle(handle.clone());
    assert!(matches!(strong, SceneHandle::Strong(_)));
    assert_eq!(strong.id(), scene_id(handle.id()));

    let weak = scene_handle(handle.clone_weak());
    assert!(matches!(weak, SceneHandle::Weak(_)));
    assert_eq!(weak.id(), scene_id(handle.id()));

    assert_eq!(SceneHandle::Weak(SceneId::Uuid(7)).id(), SceneId::Uuid(7));
}

#[test]
fn each_registration_reserves_a_new_handle() {
    let mut app = create_app();
    let scene_to_process = get_scenes_mut(&mut app).add(empty_scene());

    let first = process(&mut app, &scene_to_process, vec![]);
    let second = process(&mut app, &scene_to_process, vec![]);

    assert_ne!(first.id(), second.id());
    assert_ne!(first.id(), scene_to_process.id());
    assert!(get_scenes(&app).get(&first).is_none());
    // Both belong to the one scene.
    assert_eq!(get_registered(&app), 1);
}

#[test]
fn nothing_is_registered_or_running_at_first() {
    assert_eq!(RegisteredPostProcessActions::default().len(), 0);
    assert_eq!(ScenePostProcessTasks::default().len(), 0);
    assert!(!ScenePostProcessTasks::default().has_unfinished());
}

#[test]
fn actions_apply_in_order() {
    let mut app = create_app();
    let scene_to_process = get_scenes_mut(&mut app).add(empty_scene());

    let processed_scene = process(
        &mut app,
        &scene_to_process,
        vec![
            Arc::new(spawn_entity_with_marker_action),
            Arc::new(|world: &mut World| {
                // Double what the first action left.
                let count = world.query_filtered::<(), With<ExampleMarker>>().iter(world).len();
                for _ in 0..count {
                    world.spawn(ExampleMarker);
                }
                Ok(())
            }),
            Arc::new(spawn_entity_with_marker_action),
        ],
    );
    finish_processing_tasks(&mut app);

    let mut scenes = get_scenes_mut(&mut app);
    let processed_scene = scenes.get_mut(&processed_scene).unwrap();
    assert_eq!(count_entities_with::<ExampleMarker>(processed_scene), 3);
}

#[test]
fn run_actions_gives_the_scene_that_all_left() {
    let actions = vec![
        Action(Arc::new(spawn_entity_with_marker_action)),
        Action(Arc::new(spawn_entity_with_another_marker_action)),
        Action(Arc::new(spawn_entity_with_marker_action)),
    ];
    let mut scene = run_actions(&actions, empty_scene()).unwrap();
    assert_eq!(count_entities_with::<ExampleMarker>(&mut scene), 2);
    assert_eq!(count_entities_with::<AnotherMarker>(&mut scene), 1);

    let mut untouched = run_actions(&vec![], empty_scene()).unwrap();
    assert_eq!(count_entities_with::<ExampleMarker>(&mut untouched), 0);
}

#[test]
fn run_actions_stops_at_the_first_error() {
    let calls = Arc::new(Mutex::new(0));
    let counted = calls.clone();
    let actions = vec![
        Action(Arc::new(spawn_entity_with_marker_action)),
        Action(Arc::new(failing_action)),
        Action(Arc::new(move |_: &mut World| {
            *counted.lock().unwrap() += 1;
            Err("Another message".into())
        })),
    ];
    assert_eq!(run_actions(&actions, empty_scene()).err(), Some("Some message".to_string()));
    assert_eq!(*calls.lock().unwrap(), 0);
}

#[test]
fn job_takes_its_scene() {
    let actions = Arc::new(vec![Action(Arc::new(spawn_entity_with_marker_action))]);
    let mut job = SceneJob { actions, scene: Some(empty_scene()) };
    let mut scene = job.run().unwrap();
    assert!(scene_contains_entity_with::<ExampleMarker>(&mut scene));
    assert!(job.scene.is_none());
    assert_eq!(job.actions.len(), 1);
}

#[test]
fn unprocessed_scene_stays_loaded_and_unchanged() {
    let mut app = create_app();
    let scene_to_process = get_scenes_mut(&mut app).add(empty_scene());
    let id = scene_to_process.id();
    let processed_scene =
        process(&mut app, &scene_to_process, vec![Arc::new(spawn_entity_with_marker_action)]);
    // Only the registration holds the unprocessed scene from here on.
    drop(scene_to_process);
    finish_processing_tasks(&mut app);
    app.update();

    let mut scenes = get_scenes_mut(&mut app);
    assert!(scenes.get(&processed_scene).is_some());
    let unprocessed = scenes.get_mut(id).expect("the unprocessed scene is kept");
    assert_eq!(count_entities_with::<ExampleMarker>(unprocessed), 0);
}

/// An action that counts how often it was applied.
fn counting_action() -> (Arc<Mutex<usize>>, Arc<ActionFunc>) {
    let count = Arc::new(Mutex::new(0));
    let counted = count.clone();
    let action = Arc::new(move |_: &mut World| {
        *counted.lock().unwrap() += 1;
        Ok(())
    });
    (count, action)
}

#[test]
fn dropping_one_output_keeps_the_other() {
    let mut app = create_app();
    let scene_to_process = get_scenes_mut(&mut app).add(empty_scene());
    let (dropped_count, dropped_action) = counting_action();
    let (kept_count, kept_action) = counting_action();
    let dropped = process(&mut app, &scene_to_process, vec![dropped_action]);
    let kept = process(&mut app, &scene_to_process, vec![kept_action]);
    finish_processing_tasks(&mut app);
    assert_eq!((*dropped_count.lock().unwrap(), *kept_count.lock().unwrap()), (1, 1));

    drop(dropped);
    app.update();
    app.update();
    assert_eq!(get_registered(&app), 1);
    // The unprocessed scene and the one that is kept.
    assert_eq!(get_scenes(&app).len(), 2);

    // A change still reaches the one that is kept, and only that one.
    get_scenes_mut(&mut app).get_mut(&scene_to_process).unwrap();
    finish_processing_tasks(&mut app);
    assert_eq!((*dropped_count.lock().unwrap(), *kept_count.lock().unwrap()), (1, 2));
    assert!(get_scenes(&app).get(&kept).is_some());
}

#[test]
fn changes_of_other_scenes_are_ignored() {
    let mut app = create_app();
    let scene_to_process = get_scenes_mut(&mut app).add(empty_scene());
    let other = get_scenes_mut(&mut app).add(empty_scene());
    let (count, action) = counting_action();
    let processed_scene = process(&mut app, &scene_to_process, vec![action]);
    finish_processing_tasks(&mut app);
    app.update();
    assert_eq!(*count.lock().unwrap(), 1);

    get_scenes_mut(&mut app).get_mut(&other).unwrap();
    finish_processing_tasks(&mut app);
    get_scenes_mut(&mut app).remove(&other);
    finish_processing_tasks(&mut app);
    assert_eq!(*count.lock().unwrap(), 1);
    assert!(get_scenes(&app).get(&processed_scene).is_some());
    assert!(get_scenes(&app).get(&scene_to_process).is_some());
}

#[test]
fn change_while_processing_starts_anew() {
    let mut app = create_app();
    let scene_to_process = get_scenes_mut(&mut app).add(empty_scene());

    let (sender, receiver) = crossbeam_channel::unbounded::<()>();
    let seen = Arc::new(Mutex::new(Vec::new()));
    let processed_scene = {
        let seen = seen.clone();
        process(
            &mut app,
            &scene_to_process,
            vec![Arc::new(move |world: &mut World| {
                receiver.recv().unwrap();
                seen.lock().unwrap().push(world.entities().len());
                spawn_entity_with_marker_action(world)
            })],
        )
    };
    app.update();
    assert_eq!(get_post_process_tasks(&app), 1);

    // The scene changes before the first task is done. An entity without components needs
    // no registration of types to be copied.
    get_scenes_mut(&mut app).get_mut(&scene_to_process).unwrap().world.spawn_empty();
    app.update();
    assert_eq!(get_post_process_tasks(&app), 1);
    assert!(get_scenes(&app).get(&processed_scene).is_none());

    sender.send(()).unwrap();
    sender.send(()).unwrap();
    wait_for_tasks_to_finish(&app);
    app.update();

    // What is stored comes from the scene as it is now, whatever became of the first task.
    let mut scenes = get_scenes_mut(&mut app);
    let processed_scene = scenes.get_mut(&processed_scene).unwrap();
    assert_eq!(processed_scene.world.entities().len(), 2);
    assert!(seen.lock().unwrap().contains(&1));
    assert_eq!(get_post_process_tasks(&app), 0);
}

#[test]
fn removing_unprocessed_scene_cancels_its_task() {
    let mut app = create_app();
    let scene_to_process = get_scenes_mut(&mut app).add(empty_scene());
    let (sender, receiver) = crossbeam_channel::unbounded::<()>();
    let processed_scene = process(
        &mut app,
        &scene_to_process,
        vec![Arc::new(move |world: &mut World| {
            let _ = receiver.recv();
            spawn_entity_with_marker_action(world)
        })],
    );
    app.update();
    assert_eq!(get_post_process_tasks(&app), 1);

    get_scenes_mut(&mut app).remove(&scene_to_process);
    app.update();
    assert_eq!(get_post_process_tasks(&app), 0);
    drop(sender);
    app.update();
    assert!(get_scenes(&app).get(&processed_scene).is_none());
    // The registration stays, for when the scene is loaded again.
    assert_eq!(get_registered(&app), 1);
    get_scenes_mut(&mut app).insert(&scene_to_process, empty_scene());
    finish_processing_tasks(&mut app);
    assert!(get_scenes(&app).get(&processed_scene).is_some());
}

#[test]
fn result_is_not_stored_once_its_handle_is_dropped() {
    let mut app = create_app();
    let scene_to_process = get_scenes_mut(&mut app).add(empty_scene());
    let (sender, receiver) = crossbeam_channel::bounded::<()>(1);
    let processed_scene = process(
        &mut app,
        &scene_to_process,
        vec![Arc::new(move |world: &mut World| {
            receiver.recv().unwrap();
            spawn_entity_with_marker_action(world)
        })],
    );
    app.update();
    assert_eq!(get_post_process_tasks(&app), 1);
    sender.send(()).unwrap();
    wait_for_tasks_to_finish(&app);

    let id = processed_scene.id();
    drop(processed_scene);
    app.world_mut().resource_scope(|world, mut tasks: Mut<Tasks>| {
        world.resource_scope(|world, mut scenes: Mut<Assets<Scene>>| {
            let registered = world.resource::<Registered>();
            let failures = handle_finished_processing(
                &mut tasks.0,
                &registered.0,
                &mut SceneStore(&mut scenes),
            );
            assert_eq!(failures.len(), 0);
        });
    });
    assert_eq!(get_post_process_tasks(&app), 0);
    assert!(get_scenes(&app).get(id).is_none());
}

#[test]
fn dropping_a_registration_cancels_its_task() {
    let mut app = create_app();
    let scene_to_process = get_scenes_mut(&mut app).add(empty_scene());
    let (sender, receiver) = crossbeam_channel::unbounded::<()>();
    let waiting = Arc::new(move |_: &mut World| {
        let _ = receiver.recv();
        Ok(())
    });
    let first = process(&mut app, &scene_to_process, vec![waiting.clone()]);
    let second = process(&mut app, &scene_to_process, vec![waiting]);
    app.update();
    assert_eq!(get_post_process_tasks(&app), 2);

    let key = |processed: &Handle<Scene>| PostProcessKey {
        unprocessed_id: scene_id(scene_to_process.id()),
        processed_id: scene_id(processed.id()),
    };
    app.world_mut().resource_scope(|world, mut registered: Mut<Registered>| {
        let mut tasks = world.resource_mut::<Tasks>();
        // What is not registered stays as it is.
        registered.0.drop_output(&mut tasks.0, key(&scene_to_process));
        assert_eq!((registered.0.len(), tasks.0.len()), (1, 2));
        registered.0.drop_output(&mut tasks.0, key(&first));
        assert_eq!((registered.0.len(), tasks.0.len()), (1, 1));
        // With its last output the scene itself is forgotten.
        registered.0.drop_outputs(&mut tasks.0, &vec![key(&first), key(&second)]);
        assert_eq!((registered.0.len(), tasks.0.len()), (0, 0));
    });
    drop(sender);
}

#[test]
fn processed_scene_can_be_processed_again() {
    let mut app = create_app();
    let scene_to_process = get_scenes_mut(&mut app).add(empty_scene());
    let add_entity = |world: &mut World| {
        world.spawn_empty();
        Ok(())
    };
    let once = process(&mut app, &scene_to_process, vec![Arc::new(add_entity)]);
    let twice = process(&mut app, &once, vec![Arc::new(add_entity)]);
    assert_eq!(get_registered(&app), 2);

    finish_processing_tasks(&mut app);
    finish_processing_tasks(&mut app);

    let scenes = get_scenes(&app);
    assert_eq!(scenes.get(&once).unwrap().world.entities().len(), 1);
    assert_eq!(scenes.get(&twice).unwrap().world.entities().len(), 2);
}

#[test]
fn processes_scene_with_stable_identifier() {
    let mut app = create_app();
    let scene_to_process: Handle<Scene> = Handle::weak_from_u128(0x1234_5678_9abc_def0);
    get_scenes_mut(&mut app).insert(&scene_to_process, empty_scene());
    let processed_scene =
        process(&mut app, &scene_to_process, vec![Arc::new(spawn_entity_with_marker_action)]);
    finish_processing_tasks(&mut app);
    let mut scenes = get_scenes_mut(&mut app);
    assert!(scene_contains_entity_with::<ExampleMarker>(
        scenes.get_mut(&processed_scene).unwrap()
    ));

    scenes.remove(&scene_to_process);
    app.update();
    assert!(get_scenes(&app).get(&processed_scene).is_none());
}

#[test]
fn removes_scenes_by_identifier() {
    let mut app = create_app();
    let mut scenes = get_scenes_mut(&mut app);
    let kept = scenes.add(empty_scene());
    let first = scenes.add(empty_scene());
    let second = scenes.add(empty_scene());
    let never_stored = SceneId::Index(u64::from(u32::MAX));

    let mut stored = SceneStore(&mut scenes);
    stored.remove(scene_id(first.id()));
    stored.remove(scene_id(first.id()));
    stored.remove(never_stored);
    stored.remove(SceneId::Uuid(1));
    remove_outputs(&mut stored, &vec![never_stored, scene_id(second.id())]);

    assert!(scenes.get(&kept).is_some());
    assert!(scenes.get(&first).is_none());
    assert!(scenes.get(&second).is_none());
    assert_eq!(scenes.len(), 1);
}

#[test]
fn forgets_output_only_through_its_handle() {
    let mut app = create_app();
    let mut scenes = get_scenes_mut(&mut app);
    let output = scenes.add(empty_scene());
    let key =
        PostProcessKey { unprocessed_id: SceneId::Uuid(1), processed_id: scene_id(output.id()) };
    let mut tasks = ScenePostProcessTasks::default();

    forget_output(&mut SceneStore(&mut scenes), &mut tasks, key, None);
    assert!(scenes.get(&output).is_some());

    let Handle::Strong(arc) = &output else {
        panic!("the handle is strong");
    };
    forget_output(&mut SceneStore(&mut scenes), &mut tasks, key, Some(arc.clone()));
    assert!(scenes.get(&output).is_none());
    assert_eq!(tasks.len(), 0);
}

#[test]
fn stores_output_only_through_its_handle() {
    let mut app = create_app();
    let mut scenes = get_scenes_mut(&mut app);
    let output = scenes.reserve_handle();
    let Handle::Strong(arc) = &output else {
        panic!("the handle is strong");
    };
    let unprocessed_id = SceneId::Uuid(1);
    let key = PostProcessKey { unprocessed_id, processed_id: scene_id(output.id()) };

    let failure = store_output(&mut SceneStore(&mut scenes), key, Ok(empty_scene()), None);
    assert!(failure.is_none());
    assert!(scenes.get(&output).is_none());

    let failure =
        store_output(&mut SceneStore(&mut scenes), key, Ok(empty_scene()), Some(arc.clone()));
    assert!(failure.is_none());
    assert!(scenes.get(&output).is_some());

    let error = Err("Some message".to_string());
    let failure = store_output(&mut SceneStore(&mut scenes), key, error, Some(arc.clone()))
        .expect("the failure is reported");
    assert_eq!(failure.unprocessed_id, unprocessed_id);
    assert_eq!(failure.error, "Some message");
    assert!(scenes.get(&output).is_none());
}

#[test]
fn failed_copy_cancels_the_older_task() {
    let mut app = create_app();
    let scene_to_process = get_scenes_mut(&mut app).add(empty_scene());
    let (sender, receiver) = crossbeam_channel::unbounded::<()>();
    let processed_scene = process(
        &mut app,
        &scene_to_process,
        vec![Arc::new(move |world: &mut World| {
            let _ = receiver.recv();
            spawn_entity_with_marker_action(world)
        })],
    );
    app.update();
    assert_eq!(get_post_process_tasks(&app), 1);

    // The scene changes into one that cannot be copied while it is being processed.
    let mut scenes = get_scenes_mut(&mut app);
    scenes.get_mut(&scene_to_process).unwrap().world.spawn(MyUnregisteredComponent);
    app.update();
    assert_eq!(app.world().resource::<Failures>().copying.len(), 1);
    assert_eq!(get_post_process_tasks(&app), 0);

    // What the older task makes of the former content is never stored.
    drop(sender);
    app.update();
    app.update();
    assert!(get_scenes(&app).get(&processed_scene).is_none());
    // The registration stays, for when the scene can be copied again.
    *get_scenes_mut(&mut app).get_mut(&scene_to_process).unwrap() = empty_scene();
    finish_processing_tasks(&mut app);
    assert!(get_scenes(&app).get(&processed_scene).is_some());
}

#[test]
fn strong_handle_replaces_weak_one() {
    let mut app = create_app();
    let scene_to_process = get_scenes_mut(&mut app).add(empty_scene());
    let id = scene_to_process.id();
    let weak = scene_to_process.clone_weak();
    let first = process(&mut app, &weak, vec![Arc::new(spawn_entity_with_marker_action)]);
    let second = process(&mut app, &scene_to_process, vec![]);
    // A weak handle does not take the place of the strong one.
    let third = process(&mut app, &weak, vec![]);
    drop(scene_to_process);
    finish_processing_tasks(&mut app);
    app.update();

    let scenes = get_scenes(&app);
    assert!(scenes.contains(id));
    assert!(scenes.contains(&first));
    assert!(scenes.contains(&second));
    assert!(scenes.contains(&third));
    assert_eq!(get_registered(&app), 1);
}

/// Processes what has changed and collects the events about `id` that are sent meanwhile.
fn finish_and_collect_events(
    app: &mut App,
    cursor: &mut EventCursor<AssetEvent<Scene>>,
    id: AssetId<Scene>,
) -> Vec<SceneEvent> {
    let mut collected = Vec::new();
    // A frame to begin the task, a frame to store its result and a frame to send the event
    // of that.
    for _ in 0..3 {
        app.update();
        let events = app.world().resource::<Events<AssetEvent<Scene>>>();
        let about_id = cursor.read(events).filter(|event| match event {
            AssetEvent::Added { id: other }
            | AssetEvent::Modified { id: other }
            | AssetEvent::Removed { id: other }
            | AssetEvent::Unused { id: other }
            | AssetEvent::LoadedWithDependencies { id: other } => *other == id,
        });
        collected.extend(about_id.map(scene_event));
        wait_for_tasks_to_finish(app);
    }
    collected
}

#[test]
fn storing_and_removing_a_result_queues_one_event_each() {
    let mut app = create_app();
    let scene_to_process = get_scenes_mut(&mut app).add(empty_scene());
    let should_fail = Arc::new(Mutex::new(false));
    let processed_scene = {
        let should_fail = should_fail.clone();
        process(
            &mut app,
            &scene_to_process,
            vec![Arc::new(move |world: &mut World| {
                if *should_fail.lock().unwrap() {
                    return failing_action(world);
                }
                Ok(())
            })],
        )
    };
    let id = processed_scene.id();
    let mut cursor = app.world().resource::<Events<AssetEvent<Scene>>>().get_cursor();

    let stored = finish_and_collect_events(&mut app, &mut cursor, id);
    assert_eq!(stored, vec![SceneEvent::Added { id: scene_id(id) }]);

    get_scenes_mut(&mut app).get_mut(&scene_to_process).unwrap();
    let replaced = finish_and_collect_events(&mut app, &mut cursor, id);
    assert_eq!(replaced, vec![SceneEvent::Modified { id: scene_id(id) }]);

    *should_fail.lock().unwrap() = true;
    get_scenes_mut(&mut app).get_mut(&scene_to_process).unwrap();
    let removed = finish_and_collect_events(&mut app, &mut cursor, id);
    assert_eq!(removed, vec![SceneEvent::Removed { id: scene_id(id) }]);

    let unchanged = finish_and_collect_events(&mut app, &mut cursor, id);
    assert_eq!(unchanged, vec![]);
}

#[test]
fn processed_scene_ends_up_matching_over_many_frames() {
    let mut app = create_app();
    let scene_to_process = get_scenes_mut(&mut app).add(empty_scene());
    let add_entity = |world: &mut World| {
        world.spawn_empty();
        Ok(())
    };
    let processed_scene = process(&mut app, &scene_to_process, vec![Arc::new(add_entity)]);
    for entities in 1..5 {
        let mut scenes = get_scenes_mut(&mut app);
        scenes.get_mut(&scene_to_process).unwrap().world.spawn_empty();
        finish_processing_tasks(&mut app);
        // Frames without a change leave the processed scene as it is.
        app.update();
        app.update();
        let processed = get_scenes(&app).get(&processed_scene).unwrap();
        assert_eq!(processed.world.entities().len(), entities + 1);
    }
    get_scenes_mut(&mut app).remove(&scene_to_process);
    app.update();
    assert!(get_scenes(&app).get(&processed_scene).is_none());
}
