use bevy::asset::{AssetId, AssetIndex, Assets, Handle, StrongHandle};
use bevy::prelude::AppTypeRegistry;
use bevy::scene::{Scene, SceneSpawnError};
use std::sync::Arc;
use vstd::prelude::*;

use crate::handles;
use crate::ids;
use crate::ids::{SceneEvent, SceneId};

verus! {

/// A scene of Bevy. It stays opaque.
#[verifier::external_type_specification]
#[verifier::external_body]
pub struct ExScene(bevy::scene::Scene);

/// Bevy's error for a scene that cannot be copied. It stays opaque.
#[verifier::external_type_specification]
#[verifier::external_body]
pub struct ExSceneSpawnError(bevy::scene::SceneSpawnError);

/// Bevy's registry of types. It stays opaque.
#[verifier::external_type_specification]
#[verifier::external_body]
pub struct ExAppTypeRegistry(bevy::prelude::AppTypeRegistry);

/// The scenes that can be read, by identifier.
pub uninterp spec fn readable_scenes(scenes: SceneReader<'_>) -> Map<SceneId, Scene>;

/// The strong handles that have a place in the collection if they are alive: through such
/// a handle a scene can be stored.
pub uninterp spec fn readable_slots(scenes: SceneReader<'_>) -> Set<Arc<StrongHandle>>;

/// The identifiers that the collection had handed out when the reader was made or last
/// reserved one.
pub uninterp spec fn reserved_ids(scenes: SceneReader<'_>) -> Set<SceneId>;

/// The scenes that are stored, by identifier.
pub uninterp spec fn stored_scenes(scenes: SceneStore<'_>) -> Map<SceneId, Scene>;

/// The strong handles that have a place in the collection if they are alive: through such
/// a handle a scene can be stored.
pub uninterp spec fn stored_slots(scenes: SceneStore<'_>) -> Set<Arc<StrongHandle>>;

/// What has happened to the scenes since their events were last sent.
pub uninterp spec fn queued_events(scenes: SceneStore<'_>) -> Seq<SceneEvent>;

/// The ways in which copying `scene` can end: with a copy or an error, or, for
/// `None`, with a panic. What is registered in `registry` can change at any time, so
/// one scene may have several.
pub uninterp spec fn clone_may(
    scene: Scene,
    registry: AppTypeRegistry,
    outcome: Option<Result<Scene, SceneSpawnError>>,
) -> bool;

/// The event of storing a scene for `id` where `stored` is there.
pub open spec fn storing_event(stored: Map<SceneId, Scene>, id: SceneId) -> SceneEvent {
    if stored.contains_key(id) {
        SceneEvent::Modified { id }
    } else {
        SceneEvent::Added { id }
    }
}

/// The events of removing `ids`, one after the other, where `stored` is there: one for each
/// scene that is stored.
pub open spec fn removal_events(stored: Map<SceneId, Scene>, ids: Seq<SceneId>) -> Seq<SceneEvent>
    decreases ids.len(),
{
    if ids.len() == 0 {
        Seq::empty()
    } else {
        let rest = ids.drop_last();
        if stored.contains_key(ids.last()) && !rest.contains(ids.last()) {
            removal_events(stored, rest).push(SceneEvent::Removed { id: ids.last() })
        } else {
            removal_events(stored, rest)
        }
    }
}

/// Removing one scene has one event, if it is stored.
pub proof fn lemma_removal_of_one(stored: Map<SceneId, Scene>, id: SceneId)
    ensures
        removal_events(stored, seq![id]) == (if stored.contains_key(id) {
            seq![SceneEvent::Removed { id }]
        } else {
            Seq::empty()
        }),
{
    assert(seq![id].drop_last() =~= Seq::empty());
    reveal_with_fuel(removal_events, 2);
}

/// Every stored scene that is removed is reported to have changed.
pub proof fn lemma_removals_are_changes(
    stored: Map<SceneId, Scene>,
    removed: Seq<SceneId>,
    id: SceneId,
)
    requires
        removed.contains(id),
        stored.contains_key(id),
    ensures
        ids::changed_by(removal_events(stored, removed)).contains(id),
    decreases removed.len(),
{
    let rest = removed.drop_last();
    let events = removal_events(stored, removed);
    if rest.contains(id) {
        lemma_removals_are_changes(stored, rest, id);
        let before = removal_events(stored, rest);
        let i = choose|i: int|
            0 <= i < before.len() && ids::change_of(#[trigger] before[i]) == Some(id);
        assert(events[i] == before[i]);
    } else {
        assert(removed.last() == id) by {
            let i = removed.index_of(id);
            if i < removed.len() - 1 {
                assert(rest[i] == id);
            }
        }
        assert(ids::change_of(events[events.len() - 1]) == Some(id));
    }
}

/// Shared access to the scenes of an app.
///
/// The parameter of `bevy::asset::Assets` is bound by a trait of Bevy, for which the
/// verifier has no declaration, so the collection is hidden in a struct.
#[verifier::external_body]
pub struct SceneReader<'a>(pub &'a Assets<Scene>);

/// Exclusive access to the scenes of an app, hidden as in [`SceneReader`].
#[verifier::external_body]
pub struct SceneStore<'a>(pub &'a mut Assets<Scene>);

impl<'a> SceneReader<'a> {
    /// `Assets::<Scene>::contains`: whether a scene is stored for `id`.
    #[verifier::external_body]
    pub(crate) fn contains(&self, id: SceneId) -> (found: bool)
        ensures
            found == readable_scenes(*self).contains_key(id),
    {
        self.0.contains(match id {
            SceneId::Index(bits) => AssetId::from(AssetIndex::from_bits(bits)),
            SceneId::Uuid(uuid) => Handle::weak_from_u128(uuid).id(),
        })
    }

    /// `Assets::<Scene>::get`: the scene that is stored for `id`, if there is one.
    #[verifier::external_body]
    pub(crate) fn get(&self, id: SceneId) -> (scene: Option<&Scene>)
        ensures
            scene is Some == readable_scenes(*self).contains_key(id),
            scene matches Some(found) ==> *found == readable_scenes(*self)[id],
    {
        self.0.get(match id {
            SceneId::Index(bits) => AssetId::from(AssetIndex::from_bits(bits)),
            SceneId::Uuid(uuid) => Handle::weak_from_u128(uuid).id(),
        })
    }

    /// `Assets::<Scene>::reserve_handle`: a strong handle with a place of its own in the
    /// collection. Its identifier is an index that was not handed out before, and nothing is
    /// stored under it. (An index has a counter of 32 bits for its reuse, and the indices
    /// have one for their number. This holds short of an overflow of either.) Which index it
    /// is depends on what was reserved and dropped before, so that is not stated.
    #[verifier::external_body]
    pub(crate) fn reserve_handle(&mut self) -> (handle: Option<Arc<StrongHandle>>)
        ensures
            handle is Some,
            handle matches Some(strong) ==> {
                &&& handles::strong_id(strong) is Index
                &&& !readable_scenes(*old(self)).contains_key(handles::strong_id(strong))
                &&& !reserved_ids(*old(self)).contains(handles::strong_id(strong))
                &&& reserved_ids(*final(self)).contains(handles::strong_id(strong))
                &&& readable_slots(*old(self)).contains(strong)
            },
            reserved_ids(*old(self)).subset_of(reserved_ids(*final(self))),
            readable_scenes(*final(self)) == readable_scenes(*old(self)),
            readable_slots(*final(self)) == readable_slots(*old(self)),
    {
        match self.0.reserve_handle() {
            Handle::Strong(strong) => Some(strong),
            Handle::Weak(_) => None,
        }
    }
}

impl<'a> SceneStore<'a> {
    /// Reborrows the collection for reading. It is the same collection.
    #[verifier::external_body]
    pub(crate) fn reader(&self) -> (reader: SceneReader<'_>)
        ensures
            readable_scenes(reader) == stored_scenes(*self),
            readable_slots(reader) == stored_slots(*self),
    {
        SceneReader(&*self.0)
    }

    /// `Assets::<Scene>::remove` on an identifier for which a scene is stored: exactly
    /// that scene leaves, and an event that says so is queued. (On an identifier whose index
    /// the collection never handed out Bevy panics.)
    #[verifier::external_body]
    pub(crate) fn remove_stored(&mut self, id: SceneId)
        requires
            stored_scenes(*old(self)).contains_key(id),
        ensures
            stored_scenes(*final(self)) == stored_scenes(*old(self)).remove(id),
            stored_slots(*final(self)) == stored_slots(*old(self)),
            queued_events(*final(self)) == queued_events(*old(self)).push(
                SceneEvent::Removed { id },
            ),
    {
        self.0.remove(match id {
            SceneId::Index(bits) => AssetId::from(AssetIndex::from_bits(bits)),
            SceneId::Uuid(uuid) => Handle::weak_from_u128(uuid).id(),
        });
    }

    /// `Assets::<Scene>::insert` through a strong handle that has a place in the
    /// collection: the scene is stored under the handle's identifier, in place of what
    /// was stored there, and one event is queued, which says whether there was something.
    /// (Without a place Bevy panics.)
    #[verifier::external_body]
    pub(crate) fn insert(&mut self, handle: &Arc<StrongHandle>, scene: Scene)
        requires
            stored_slots(*old(self)).contains(*handle),
        ensures
            stored_scenes(*final(self)) == stored_scenes(*old(self)).insert(
                handles::strong_id(*handle),
                scene,
            ),
            stored_slots(*final(self)) == stored_slots(*old(self)),
            queued_events(*final(self)) == queued_events(*old(self)).push(
                storing_event(stored_scenes(*old(self)), handles::strong_id(*handle)),
            ),
    {
        self.0.insert(&Handle::Strong(handle.clone()), scene);
    }

    /// Removes the scene that is stored for `id`, if there is one.
    pub fn remove(&mut self, id: SceneId)
        ensures
            stored_scenes(*final(self)) == stored_scenes(*old(self)).remove(id),
            stored_slots(*final(self)) == stored_slots(*old(self)),
            queued_events(*final(self)) == (if stored_scenes(*old(self)).contains_key(id) {
                queued_events(*old(self)).push(SceneEvent::Removed { id })
            } else {
                queued_events(*old(self))
            }),
    {
        if self.reader().contains(id) {
            self.remove_stored(id);
        } else {
            assert(stored_scenes(*self) =~= stored_scenes(*self).remove(id));
        }
    }
}

/// `Scene::clone_with`: one of the outcomes that copying `scene` with `registry` can
/// have.
#[verifier::external_body]
pub(crate) fn clone_scene(scene: &Scene, registry: &AppTypeRegistry) -> (copy: Result<
    Scene,
    SceneSpawnError,
>)
    requires
        !clone_may(*scene, *registry, None),
    ensures
        clone_may(*scene, *registry, Some(copy)),
{
    scene.clone_with(registry)
}

} // verus!
