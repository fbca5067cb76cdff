use bevy::asset::StrongHandle;
use std::sync::Arc;
use vstd::prelude::*;

use crate::actions::Action;
use crate::handles;
use crate::handles::{SceneHandle, WeakHandle};
use crate::ids::{PostProcessKey, SceneId};
use crate::tables;
use crate::tables::{ActionTable, SceneSet, TargetTable};

verus! {

/// The action to take when post-processing occurs.
pub struct PostProcessAction {
    /// The handle where the post-processed scene will be written to. It is weak, to be
    /// able to determine whether the last reference to the scene is gone, and not to keep
    /// the processed scene alive.
    pub processed_handle: WeakHandle,
    /// The list of actions to apply to the scene in order.
    pub actions: Arc<Vec<Action>>,
}

/// The targets to be updated when a scene is updated.
pub struct ProcessingTargets {
    /// The handle of the unprocessed scene: a strong one, which keeps the scene alive, as
    /// soon as the scene was registered with one.
    pub unprocessed_handle: SceneHandle,
    /// The action that should be performed for each processed scene.
    pub processed_to_action: ActionTable,
}

/// The registered actions that will take a scene and create a post-processed scene.
pub struct RegisteredPostProcessActions {
    /// The targets that should be updated on changes, for each unprocessed scene.
    pub unprocessed_to_targets: TargetTable,
    /// The scenes that were registered and are immediately ready to be processed.
    pub new_scenes: SceneSet,
}

/// What a [`ProcessingTargets`] holds.
#[verifier::ext_equal]
pub struct Targets {
    /// The handle of the unprocessed scene.
    pub handle: SceneHandle,
    /// The action for each processed scene.
    pub actions: Map<SceneId, PostProcessAction>,
}

impl View for ProcessingTargets {
    type V = Targets;

    open spec fn view(&self) -> Targets {
        Targets {
            handle: self.unprocessed_handle,
            actions: tables::action_table(self.processed_to_action),
        }
    }
}

impl RegisteredPostProcessActions {
    /// The targets of each unprocessed scene.
    pub open spec fn targets(self) -> Map<SceneId, Targets> {
        tables::target_table(self.unprocessed_to_targets).map_values(
            |targets: ProcessingTargets| targets@,
        )
    }

    /// The scenes that are ready to be processed without an event.
    pub open spec fn ready(self) -> Set<SceneId> {
        tables::scene_set(self.new_scenes)
    }
}

/// Whether the scene `key.unprocessed_id` is registered to be processed into
/// `key.processed_id`.
pub open spec fn registered(targets: Map<SceneId, Targets>, key: PostProcessKey) -> bool {
    &&& targets.contains_key(key.unprocessed_id)
    &&& targets[key.unprocessed_id].actions.contains_key(key.processed_id)
}

/// The action that is registered for `key`.
pub open spec fn action_of(
    targets: Map<SceneId, Targets>,
    key: PostProcessKey,
) -> PostProcessAction {
    targets[key.unprocessed_id].actions[key.processed_id]
}

/// The allocation of the handle that the result for `key` is written to.
pub open spec fn output_of(
    targets: Map<SceneId, Targets>,
    key: PostProcessKey,
) -> Arc<StrongHandle> {
    handles::weak_target(action_of(targets, key).processed_handle)
}

/// Every unprocessed scene has a handle of its own and something to be processed into,
/// and every processed scene has a handle of its own.
pub open spec fn consistent(targets: Map<SceneId, Targets>) -> bool {
    &&& forall|id: SceneId| #[trigger]
        targets.contains_key(id) ==> {
            &&& targets[id].handle.scene_id() == id
            &&& exists|output: SceneId| #[trigger] targets[id].actions.contains_key(output)
        }
    &&& forall|key: PostProcessKey| #[trigger]
        registered(targets, key) ==> handles::strong_id(output_of(targets, key))
            == key.processed_id
}

/// Every processed scene can be stored through its handle, where `slots` are the handles
/// with a place in the collection of scenes.
pub open spec fn storable(targets: Map<SceneId, Targets>, slots: Set<Arc<StrongHandle>>) -> bool {
    forall|key: PostProcessKey| #[trigger]
        registered(targets, key) ==> slots.contains(output_of(targets, key))
}

/// Every processed scene has an identifier that was reserved.
pub open spec fn outputs_reserved(targets: Map<SceneId, Targets>, reserved: Set<SceneId>) -> bool {
    forall|key: PostProcessKey| #[trigger]
        registered(targets, key) ==> reserved.contains(key.processed_id)
}

/// Whether `id` is a stable identifier, or an index that was handed out.
pub open spec fn allotted(id: SceneId, reserved: Set<SceneId>) -> bool {
    id is Uuid || reserved.contains(id)
}

/// Every unprocessed scene has a stable identifier, or an index that was handed out.
pub open spec fn sources_allotted(targets: Map<SceneId, Targets>, reserved: Set<SceneId>) -> bool {
    forall|id: SceneId| #[trigger] targets.contains_key(id) ==> allotted(id, reserved)
}

/// Which of two handles of a scene is held: the first one, unless only the other keeps the
/// scene alive.
pub open spec fn held_handle(first: SceneHandle, second: SceneHandle) -> SceneHandle {
    if first is Weak && second is Strong {
        second
    } else {
        first
    }
}

/// The targets after `scene` was registered to be processed into `output` by `action`. A
/// strong handle that the scene was registered with is kept.
pub open spec fn with_action(
    targets: Map<SceneId, Targets>,
    scene: SceneHandle,
    output: SceneId,
    action: PostProcessAction,
) -> Map<SceneId, Targets> {
    let id = scene.scene_id();
    let handle = if targets.contains_key(id) {
        held_handle(targets[id].handle, scene)
    } else {
        scene
    };
    let actions = if targets.contains_key(id) {
        targets[id].actions
    } else {
        Map::empty()
    };
    targets.insert(id, Targets { handle, actions: actions.insert(output, action) })
}

/// A registration adds one action and changes no other.
pub proof fn lemma_with_action(
    targets: Map<SceneId, Targets>,
    scene: SceneHandle,
    output: SceneId,
    action: PostProcessAction,
)
    ensures
        forall|key: PostProcessKey| #[trigger]
            registered(with_action(targets, scene, output, action), key) == (registered(
                targets,
                key,
            ) || key == (PostProcessKey {
                unprocessed_id: scene.scene_id(),
                processed_id: output,
            })),
        forall|key: PostProcessKey|
            registered(targets, key) && key != (PostProcessKey {
                unprocessed_id: scene.scene_id(),
                processed_id: output,
            }) ==> #[trigger] action_of(with_action(targets, scene, output, action), key)
                == action_of(targets, key),
        action_of(
            with_action(targets, scene, output, action),
            PostProcessKey { unprocessed_id: scene.scene_id(), processed_id: output },
        ) == action,
{
}

/// Picks the handle of a scene to hold.
fn hold(first: SceneHandle, second: SceneHandle) -> (handle: SceneHandle)
    ensures
        handle == held_handle(first, second),
{
    match (&first, &second) {
        (SceneHandle::Weak(_), SceneHandle::Strong(_)) => second,
        _ => first,
    }
}

impl RegisteredPostProcessActions {
    /// Registers `scene` to be processed by `actions` into the scene of `processed`.
    /// `loaded` tells whether the scene is there already, so that it can be processed
    /// without waiting for an event.
    pub fn register(
        &mut self,
        scene: SceneHandle,
        loaded: bool,
        processed: &Arc<StrongHandle>,
        actions: Vec<Action>,
    )
        ensures
            final(self).ready() == (if loaded {
                old(self).ready().insert(scene.scene_id())
            } else {
                old(self).ready()
            }),
            exists|action: PostProcessAction|
                {
                    &&& handles::weak_target(action.processed_handle) == *processed
                    &&& action.actions@ == actions@
                    &&& final(self).targets() == #[trigger] with_action(
                        old(self).targets(),
                        scene,
                        handles::strong_id(*processed),
                        action,
                    )
                },
            ({
                let id = match scene {
                    SceneHandle::Strong(handle) => handles::strong_id(handle),
                    SceneHandle::Weak(id) => id,
                };
                let output = handles::strong_id(*processed);
                let targets = final(self).targets();
                &&& loaded ==> final(self).ready().contains(id)
                &&& targets.contains_key(id)
                &&& targets[id].actions.contains_key(output)
                &&& handles::weak_target(targets[id].actions[output].processed_handle)
                    == *processed
                &&& targets[id].actions[output].actions@ == actions@
            }),
    {
        let ghost old_targets = old(self).targets();
        let id = scene.id();
        if loaded {
            self.new_scenes.insert(id);
        }
        let mut targets = match self.unprocessed_to_targets.remove(id) {
            Some(targets) => ProcessingTargets {
                unprocessed_handle: hold(targets.unprocessed_handle, scene),
                processed_to_action: targets.processed_to_action,
            },
            None => ProcessingTargets {
                unprocessed_handle: scene,
                processed_to_action: ActionTable::new(),
            },
        };
        proof {
            if !old_targets.contains_key(id) {
                assert(targets@.actions =~= Map::empty());
            }
        }
        let output = handles::id_of_strong(processed);
        let action = PostProcessAction {
            processed_handle: WeakHandle::downgrade(processed),
            actions: Arc::new(actions),
        };
        targets.processed_to_action.insert(output, action);
        self.unprocessed_to_targets.insert(id, targets);
        assert(self.targets() =~= with_action(old_targets, scene, output, action));
        assert(action.actions@ == actions@);
    }
}

impl RegisteredPostProcessActions {
    /// Returns the number of unprocessed scenes that are registered.
    pub fn len(&self) -> (count: usize)
        ensures
            count == self.targets().dom().len(),
    {
        let ids = self.unprocessed_to_targets.keys();
        proof {
            ids@.unique_seq_to_set();
            assert(self.targets().dom() =~= ids@.to_set());
        }
        ids.len()
    }
}

impl Default for RegisteredPostProcessActions {
    /// Nothing is registered.
    fn default() -> (registered: Self)
        ensures
            registered.targets() == Map::<SceneId, Targets>::empty(),
            registered.ready() == Set::<SceneId>::empty(),
            consistent(registered.targets()),
    {
        let registered = RegisteredPostProcessActions {
            unprocessed_to_targets: TargetTable::new(),
            new_scenes: SceneSet::new(),
        };
        assert(registered.targets() =~= Map::<SceneId, Targets>::empty());
        registered
    }
}

} // verus!
