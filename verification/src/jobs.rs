use bevy::scene::Scene;
use bevy::tasks::{block_on, poll_once, AsyncComputeTaskPool, Task};
use std::sync::Arc;
use vstd::prelude::*;

use crate::actions;
use crate::actions::Action;
use crate::ids::PostProcessKey;

verus! {

/// Bevy's pool for work that may span several frames. It stays opaque.
#[verifier::external_type_specification]
#[verifier::external_body]
pub struct ExAsyncComputeTaskPool(bevy::tasks::AsyncComputeTaskPool);

/// Bevy's task: a computation that runs in the background. It stays opaque.
#[verifier::external_type_specification]
#[verifier::external_body]
#[verifier::reject_recursive_types(T)]
pub struct ExTask<T>(bevy::tasks::Task<T>);

/// A task that post-processes a scene.
pub type SceneTask = Task<Result<Scene, String>>;

/// What a task was started with, before its output was taken: the actions that it
/// applies and the scene that it applies them to.
pub uninterp spec fn task_start(task: SceneTask) -> (Seq<Action>, Scene);

/// Whether a look at the task has found that it has run, or has found that it has not. A
/// task runs in the background, so both can be true. One that has run stays so until its
/// output is taken.
pub uninterp spec fn seen_finished(task: SceneTask, finished: bool) -> bool;

/// Whether taking the output of `task` cannot panic.
pub open spec fn task_returns(task: SceneTask) -> bool {
    actions::run_returns(task_start(task).0, task_start(task).1)
}

/// Whether `output` can be the output of `task`.
pub open spec fn task_may(task: SceneTask, output: Result<Scene, String>) -> bool {
    actions::run_may(task_start(task).0, task_start(task).1, output)
}

/// Whether taking the output of none of the tasks panics.
pub open spec fn tasks_return(running: Map<PostProcessKey, SceneTask>) -> bool {
    forall|key: PostProcessKey| #[trigger]
        running.contains_key(key) ==> task_returns(running[key])
}

/// The work of a task.
pub struct SceneJob {
    /// The actions to apply, in order.
    pub actions: Arc<Vec<Action>>,
    /// The scene to apply them to, until it is taken.
    pub scene: Option<Scene>,
}

impl SceneJob {
    /// Takes the scene and applies the actions to it.
    pub fn run(&mut self) -> (result: Result<Scene, String>)
        requires
            old(self).scene is Some,
            actions::run_returns(old(self).actions@, old(self).scene->0),
        ensures
            actions::run_may(old(self).actions@, old(self).scene->0, result),
            final(self).scene is None,
            final(self).actions == old(self).actions,
    {
        let scene = self.scene.take().unwrap();
        actions::run_actions(&self.actions, scene)
    }
}

/// `TaskPool::spawn` on Bevy's pool: hands out a task that runs `job` once, on another
/// thread, and has what it returns for its output.
#[verifier::external_body]
pub(crate) fn spawn(pool: &AsyncComputeTaskPool, job: SceneJob) -> (task: SceneTask)
    requires
        job.scene is Some,
        actions::run_returns(job.actions@, job.scene->0),
    ensures
        task_start(task) == (job.actions@, job.scene->0),
{
    let mut job = job;
    pool.spawn(std::future::poll_fn(move |_| std::task::Poll::Ready(job.run())))
}

/// `Task::is_finished`: a look at whether the task has run. What it finds depends on what
/// other threads have done, so that is not stated.
#[verifier::external_body]
pub(crate) fn is_finished(task: &SceneTask) -> (finished: bool)
    ensures
        seen_finished(*task, finished),
{
    task.is_finished()
}

/// `bevy::tasks::poll_once`, waited for with `bevy::tasks::block_on`, on a task that has
/// run: its output. (On a task whose work has panicked Bevy panics.)
#[verifier::external_body]
pub(crate) fn poll(task: &mut SceneTask) -> (output: Option<Result<Scene, String>>)
    requires
        seen_finished(*old(task), true),
        task_returns(*old(task)),
    ensures
        output is Some,
        output matches Some(result) ==> task_may(*old(task), result),
{
    block_on(poll_once(task))
}

} // verus!
