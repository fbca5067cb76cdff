use bevy_scene_postprocess::{asset_event_to_change, SceneEvent, SceneId};

#[test]
fn content_events_are_changes() {
    let id = SceneId::Index(3);
    assert_eq!(asset_event_to_change(&SceneEvent::Added { id }), Some(id));
    assert_eq!(asset_event_to_change(&SceneEvent::Modified { id }), Some(id));
    assert_eq!(asset_event_to_change(&SceneEvent::Removed { id }), Some(id));
}

#[test]
fn other_events_are_no_changes() {
    let id = SceneId::Uuid(5);
    assert_eq!(asset_event_to_change(&SceneEvent::Unused { id }), None);
    assert_eq!(asset_event_to_change(&SceneEvent::LoadedWithDependencies { id }), None);
}
