use vstd::prelude::*;

use crate::actions::Action;
use crate::handles;
use crate::handles::SceneHandle;
use crate::ids::{PostProcessKey, SceneId};
use crate::laws;
use crate::registry;
use crate::registry::{PostProcessAction, RegisteredPostProcessActions};
use crate::scenes;
use crate::scenes::SceneReader;

verus! {

/// Registers post-processing actions.
pub struct ScenePostProcessor<'w> {
    /// The registered post-processing actions.
    pub intermediate: &'w mut RegisteredPostProcessActions,
    /// The currently existing scenes.
    pub scenes: SceneReader<'w>,
}

impl<'w> ScenePostProcessor<'w> {
    /// Registers a post-processing action on `scene`, which will apply the `actions` in
    /// order. Actions are given a copy of the world contained within `scene` and can mutate
    /// that copy in any way they want. Returns the handle of the processed scene.
    ///
    /// Some things to note:
    ///   - The same scene can be registered multiple times, and each registration will
    ///     post-process its own scene.
    ///   - The original, unprocessed scene will remain loaded even after post-processing
    ///     actions have completed. This allows for listening for hot-reloading events.
    ///   - The post-processed scene may not have all the same events as the unprocessed
    ///     scene. For example, if the unprocessed scene is loaded, then unloads and then
    ///     loads again before the first processing completes, it may only have one load
    ///     event (for the final finished processing). The processed scene however should end
    ///     up matching the unprocessed scene's state.
    ///
    /// What is stated of the registrations is exact, and they hold the new processed scene
    /// only weakly. How many strong handles of it there are is not stated: a contract speaks
    /// of values, and sees neither a copy of a handle nor that it is dropped.
    pub fn process(&mut self, scene: SceneHandle, actions: Vec<Action>) -> (processed: SceneHandle)
        ensures
            processed matches SceneHandle::Strong(strong) && {
                let stored = scenes::readable_scenes(old(self).scenes);
                let output = handles::strong_id(strong);
                let before = old(self).intermediate.targets();
                let after = final(self).intermediate.targets();
                let reserved = scenes::reserved_ids(old(self).scenes);
                let reserved_after = scenes::reserved_ids(final(self).scenes);
                // The identifier is new.
                &&& output is Index
                &&& !reserved.contains(output)
                &&& reserved_after.contains(output)
                &&& reserved.subset_of(reserved_after)
                // Nothing is stored under the handle yet, but something can be.
                &&& !stored.contains_key(output)
                &&& scenes::readable_slots(old(self).scenes).contains(strong)
                // A scene that is there already needs no event to be processed.
                &&& final(self).intermediate.ready() == (if stored.contains_key(scene.scene_id()) {
                    old(self).intermediate.ready().insert(scene.scene_id())
                } else {
                    old(self).intermediate.ready()
                })
                &&& exists|action: PostProcessAction|
                    {
                        &&& handles::weak_target(action.processed_handle) == strong
                        &&& action.actions@ == actions@
                        &&& after == #[trigger] registry::with_action(before, scene, output, action)
                    }
                // The registration is found under the identifier of the given handle.
                &&& {
                    let id = match scene {
                        SceneHandle::Strong(handle) => handles::strong_id(handle),
                        SceneHandle::Weak(id) => id,
                    };
                    &&& after.contains_key(id)
                    &&& after[id].actions.contains_key(output)
                    &&& handles::weak_target(after[id].actions[output].processed_handle) == strong
                    &&& after[id].actions[output].actions@ == actions@
                    &&& stored.contains_key(id) ==> final(self).intermediate.ready().contains(id)
                }
                // No handle is held but the given one and those that were.
                &&& forall|id: SceneId| #[trigger]
                    after.contains_key(id) ==> after[id].handle == scene || before.contains_key(id)
                        && after[id].handle == before[id].handle
                // The processed scene is one that no other registration has.
                &&& registry::outputs_reserved(before, reserved) ==> {
                    &&& forall|key: PostProcessKey| #[trigger]
                        registry::registered(before, key) ==> key.processed_id != output
                    &&& registry::outputs_reserved(after, reserved_after)
                }
                // Nor is it one that is processed, so nothing here keeps it alive.
                &&& registry::sources_allotted(before, reserved) && registry::allotted(
                    scene.scene_id(),
                    reserved,
                ) ==> {
                    &&& scene.scene_id() != output
                    &&& !before.contains_key(output)
                    &&& !after.contains_key(output)
                    &&& registry::consistent(before) ==> forall|id: SceneId| #[trigger]
                        after.contains_key(id) ==> (match after[id].handle {
                            SceneHandle::Strong(held) => handles::strong_id(held) != output,
                            SceneHandle::Weak(named) => named != output,
                        })
                    &&& registry::sources_allotted(after, reserved_after)
                }
            },
            registry::consistent(old(self).intermediate.targets()) ==> registry::consistent(
                final(self).intermediate.targets(),
            ),
            registry::storable(
                old(self).intermediate.targets(),
                scenes::readable_slots(old(self).scenes),
            ) ==> registry::storable(
                final(self).intermediate.targets(),
                scenes::readable_slots(final(self).scenes),
            ),
            scenes::readable_scenes(final(self).scenes) == scenes::readable_scenes(
                old(self).scenes,
            ),
            scenes::readable_slots(final(self).scenes) == scenes::readable_slots(old(self).scenes),
            *final(final(self).intermediate) == *final(old(self).intermediate),
    {
        let ghost before = self.intermediate.targets();
        let strong = self.scenes.reserve_handle().unwrap();
        let loaded = self.scenes.contains(scene.id());
        self.intermediate.register(scene, loaded, &strong, actions);
        let ghost output = handles::strong_id(strong);
        proof {
            let action = choose|action: PostProcessAction|
                {
                    &&& handles::weak_target(action.processed_handle) == strong
                    &&& action.actions@ == actions@
                    &&& self.intermediate.targets() == #[trigger] registry::with_action(
                        before,
                        scene,
                        output,
                        action,
                    )
                };
            if registry::consistent(before) {
                laws::law_registration_keeps_consistency(before, scene, output, action);
            }
            registry::lemma_with_action(before, scene, output, action);
        }
        SceneHandle::Strong(strong)
    }
}

} // verus!
