# bevy_scene_postprocess

A library for Bevy that "postprocesses" scenes after they are loaded: a list of actions is
applied, in the background, to a copy of a loaded scene, and the copy is stored under a
handle of its own once all actions have been completed. The logic is verified with Verus.

## Layout

- `src/` is the verified library.
  - `processor.rs` registers scenes, `cleanup.rs` drops what is no longer used, `watch.rs`
    reacts to changed scenes and `finish.rs` stores what has been processed.
  - `registry.rs` holds the registrations, `actions.rs` and `jobs.rs` the work of a task.
  - `ids.rs`, `handles.rs`, `scenes.rs` and `tables.rs` stand for Bevy's identifiers,
    handles, scenes and hash tables. What they claim of Bevy is not proved.
  - `laws.rs` and `history.rs` state what holds of the library as a whole, in a frame and
    over many of them.
- `app/` is the Bevy plugin: it schedules the library's functions as systems.
- `tests/` runs the library in a Bevy app.

## How to use

1. Load a scene the way you normally would.
2. Call `ScenePostProcessor::process`.
3. Use the returned handle as you would normally.
