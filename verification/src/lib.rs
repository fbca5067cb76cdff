//! Post-processing of Bevy scenes: a scene is loaded once, a list of actions is
//! applied to a copy of it in the background, and the copy is stored under a
//! handle of its own.

pub mod actions;
pub mod cleanup;
pub mod finish;
pub mod handles;
pub mod history;
pub mod ids;
pub mod jobs;
pub mod laws;
pub mod operations;
pub mod plugin;
pub mod processor;
pub mod registry;
pub mod scenes;
mod seqs;
pub mod tables;
pub mod watch;

pub use actions::{run_actions, Action, ActionFunc, BoxedError};
pub use cleanup::drop_unused_scenes;
pub use finish::{handle_finished_processing, store_output, ProcessFailure};
pub use handles::{SceneHandle, WeakHandle};
pub use ids::{asset_event_to_change, PostProcessKey, SceneEvent, SceneId};
pub use jobs::{SceneJob, SceneTask};
pub use plugin::{PostProcessSet, ScenePostProcessPlugin};
pub use processor::ScenePostProcessor;
pub use registry::{PostProcessAction, ProcessingTargets, RegisteredPostProcessActions};
pub use scenes::{SceneReader, SceneStore};
pub use tables::{ActionTable, ScenePostProcessTasks, SceneSet, TargetTable};
pub use watch::{
    begin_output, forget_output, remove_outputs, watch_for_changed_unprocessed,
};
