use vstd::prelude::*;

verus! {

/// The plugin that post-processes the scenes of an app.
///
/// In each frame, after Bevy has sent the events of its assets, it drops what is no longer
/// used, then watches for changes, then handles what has been processed.
#[derive(Clone, Copy, PartialEq, Eq, Structural, Hash, Debug)]
pub struct ScenePostProcessPlugin;

/// The set of the systems that post-process scenes.
#[derive(Clone, Copy, PartialEq, Eq, Structural, Hash, Debug)]
pub struct PostProcessSet;

} // verus!
