use bevy::prelude::World;
use bevy::scene::Scene;
use std::sync::Arc;
use vstd::prelude::*;

verus! {

/// Error type for post-processing actions.
pub type BoxedError = Box<dyn std::error::Error + Send + Sync>;

/// A post-processing action.
pub type ActionFunc = dyn Fn(&mut World) -> Result<(), BoxedError> + Send + Sync;

/// A post-processing action that can be shared.
///
/// The verifier has no declaration for a trait object with several bounds, so it is
/// hidden in a struct.
#[verifier::external_body]
pub struct Action(pub Arc<ActionFunc>);

/// The ways in which `action` can end on `scene`: with the scene that it leaves and
/// what it returns, an error by its message, or, for `None`, with a panic. An action
/// may read anything, so one scene may have several.
pub uninterp spec fn action_may(
    action: Action,
    scene: Scene,
    outcome: Option<(Scene, Result<(), String>)>,
) -> bool;

impl Action {
    /// Calls the action on the world of `scene`: one of the outcomes that it can have.
    #[verifier::external_body]
    pub(crate) fn call(&self, scene: &mut Scene) -> (result: Result<(), String>)
        requires
            !action_may(*self, *old(scene), None),
        ensures
            action_may(*self, *old(scene), Some((*final(scene), result))),
    {
        (self.0)(&mut scene.world).map_err(|error| error.to_string())
    }
}

/// Whether `actions`, each called on what the one before it left of `scene`, can all
/// succeed and leave `after`.
pub open spec fn can_leave(actions: Seq<Action>, scene: Scene, after: Scene) -> bool
    decreases actions.len(),
{
    if actions.len() == 0 {
        after == scene
    } else {
        exists|before: Scene|
            can_leave(actions.drop_last(), scene, before) && #[trigger] action_may(
                actions.last(),
                before,
                Some((after, Ok(()))),
            )
    }
}

/// Whether running `actions` in order on `scene` can give `result`: the scene that all
/// of them left, or the error of the first one that failed.
pub open spec fn run_may(
    actions: Seq<Action>,
    scene: Scene,
    result: Result<Scene, String>,
) -> bool {
    match result {
        Ok(after) => can_leave(actions, scene, after),
        Err(error) => exists|i: int, before: Scene, after: Scene, failed: Result<(), String>|
            0 <= i < actions.len() && can_leave(actions.take(i), scene, before)
                && #[trigger] action_may(actions[i], before, Some((after, failed))) && failed
                == Err::<(), String>(error),
    }
}

/// Whether running `actions` in order on `scene` cannot panic.
pub open spec fn run_returns(actions: Seq<Action>, scene: Scene) -> bool {
    forall|i: int, before: Scene|
        0 <= i < actions.len() && #[trigger] can_leave(actions.take(i), scene, before)
            ==> !action_may(actions[i], before, None)
}

/// Applies `actions` to `scene` in order, up to the first one that fails.
pub fn run_actions(actions: &Vec<Action>, scene: Scene) -> (result: Result<Scene, String>)
    requires
        run_returns(actions@, scene),
    ensures
        run_may(actions@, scene, result),
{
    let mut processed_scene = scene;
    let mut i: usize = 0;
    while i < actions.len()
        invariant
            i <= actions.len(),
            run_returns(actions@, scene),
            can_leave(actions@.take(i as int), scene, processed_scene),
        decreases actions.len() - i,
    {
        let ghost before = processed_scene;
        match actions[i].call(&mut processed_scene) {
            Ok(unit) => {
                proof {
                    let done = actions@.take(i + 1);
                    assert(unit == ());
                    assert(done.drop_last() =~= actions@.take(i as int));
                    assert(action_may(done.last(), before, Some((processed_scene, Ok(unit)))));
                }
            },
            Err(error) => {
                assert(action_may(actions@[i as int], before, Some((processed_scene, Err(error)))));
                return Err(error);
            },
        }
        i = i + 1;
    }
    assert(actions@.take(i as int) =~= actions@);
    Ok(processed_scene)
}

} // verus!
