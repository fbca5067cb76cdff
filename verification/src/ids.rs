use vstd::prelude::*;

verus! {

/// The identifier of a scene, as plain numbers.
#[derive(Clone, Copy, PartialEq, Eq, Structural, Hash, Debug)]
pub enum SceneId {
    /// A runtime identifier: the bits of a `bevy::asset::AssetIndex`.
    Index(u64),
    /// A stable identifier: the number of a UUID.
    Uuid(u128),
}

/// The key of a post-processing task.
#[derive(Clone, Copy, PartialEq, Eq, Structural, Hash, Debug)]
pub struct PostProcessKey {
    /// The scene that is being processed.
    pub unprocessed_id: SceneId,
    /// The scene that the result is written to.
    pub processed_id: SceneId,
}

/// What happened to a scene: the counterpart of `bevy::asset::AssetEvent<Scene>`.
#[derive(Clone, Copy, PartialEq, Eq, Structural, Debug)]
pub enum SceneEvent {
    /// The scene was added.
    Added { id: SceneId },
    /// The scene was modified.
    Modified { id: SceneId },
    /// The scene was removed.
    Removed { id: SceneId },
    /// The last strong handle of the scene was dropped.
    Unused { id: SceneId },
    /// The scene and everything that it depends on has been loaded.
    LoadedWithDependencies { id: SceneId },
}

/// The scene whose content `event` reports to have changed, if it reports that.
pub open spec fn change_of(event: SceneEvent) -> Option<SceneId> {
    match event {
        SceneEvent::Added { id } => Some(id),
        SceneEvent::Modified { id } => Some(id),
        SceneEvent::Removed { id } => Some(id),
        _ => None,
    }
}

/// The scenes that `events` report to have changed.
pub open spec fn changed_by(events: Seq<SceneEvent>) -> Set<SceneId> {
    Set::new(
        |id: SceneId|
            exists|i: int|
                0 <= i < events.len() && change_of(#[trigger] events[i]) == Some(id),
    )
}

/// The scene that `event` is about.
pub open spec fn event_id(event: SceneEvent) -> SceneId {
    match event {
        SceneEvent::Added { id } => id,
        SceneEvent::Modified { id } => id,
        SceneEvent::Removed { id } => id,
        SceneEvent::Unused { id } => id,
        SceneEvent::LoadedWithDependencies { id } => id,
    }
}

/// How many of `events` are about the scene `id`.
pub open spec fn event_count(events: Seq<SceneEvent>, id: SceneId) -> nat
    decreases events.len(),
{
    if events.len() == 0 {
        0
    } else {
        let before = event_count(events.drop_last(), id);
        if event_id(events.last()) == id {
            before + 1
        } else {
            before
        }
    }
}

/// Determines whether to reprocess a scene from an event.
pub fn asset_event_to_change(scene_event: &SceneEvent) -> (change: Option<SceneId>)
    ensures
        change == change_of(*scene_event),
        match *scene_event {
            SceneEvent::Added { id } => change == Some(id),
            SceneEvent::Modified { id } => change == Some(id),
            SceneEvent::Removed { id } => change == Some(id),
            SceneEvent::Unused { .. } => change is None,
            SceneEvent::LoadedWithDependencies { .. } => change is None,
        },
{
    match *scene_event {
        SceneEvent::Added { id } | SceneEvent::Modified { id } | SceneEvent::Removed { id } => Some(
            id,
        ),
        // The content is as it was. If the scene leaves, that is reported as its removal.
        SceneEvent::Unused { .. } => None,
        SceneEvent::LoadedWithDependencies { .. } => None,
    }
}

/// One more event adds the scene that it reports to have changed.
pub proof fn lemma_changed_by_one_more(events: Seq<SceneEvent>, i: int)
    requires
        0 <= i < events.len(),
    ensures
        changed_by(events.take(i + 1)) == (match change_of(events[i]) {
            Some(id) => changed_by(events.take(i)).insert(id),
            None => changed_by(events.take(i)),
        }),
{
    let before = changed_by(events.take(i));
    let after = changed_by(events.take(i + 1));
    assert forall|id: SceneId| before.contains(id) || change_of(events[i]) == Some(
        id,
    ) implies #[trigger] after.contains(id) by {
        if before.contains(id) {
            let j = choose|j: int|
                0 <= j < events.take(i).len() && change_of(#[trigger] events.take(i)[j]) == Some(
                    id,
                );
            assert(events.take(i + 1)[j] == events.take(i)[j]);
        } else {
            assert(events.take(i + 1)[i] == events[i]);
        }
    }
    assert forall|id: SceneId| #[trigger] after.contains(id) && change_of(events[i]) != Some(
        id,
    ) implies before.contains(id) by {
        let j = choose|j: int|
            0 <= j < events.take(i + 1).len() && change_of(#[trigger] events.take(i + 1)[j])
                == Some(id);
        assert(events.take(i)[j] == events.take(i + 1)[j]);
    }
    match change_of(events[i]) {
        Some(id) => assert(after =~= before.insert(id)),
        None => assert(after =~= before),
    }
}

} // verus!
