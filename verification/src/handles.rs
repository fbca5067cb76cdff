use bevy::asset::{AssetId, Handle, StrongHandle};
use bevy::scene::Scene;
use std::sync::{Arc, Weak};
use vstd::prelude::*;

use crate::ids::SceneId;

verus! {

/// Bevy's allocation behind a strong handle. It stays opaque.
#[verifier::external_type_specification]
#[verifier::external_body]
pub struct ExStrongHandle(bevy::asset::StrongHandle);

/// The identifier that a strong handle was made for.
pub uninterp spec fn strong_id(handle: Arc<StrongHandle>) -> SceneId;

/// The allocation that a weak reference points to, dropped or not.
pub uninterp spec fn weak_target(weak: WeakHandle) -> Arc<StrongHandle>;

/// Whether a count of the strong handles that are left has found some, or has found none. A
/// handle that was in use may be dropped later, so both can be true.
pub uninterp spec fn seen_in_use(weak: WeakHandle, in_use: bool) -> bool;

/// Whether an attempt to get a strong handle from the weak reference has succeeded, or has
/// failed. A handle that was in use may be dropped later, so both can be true.
pub uninterp spec fn seen_upgraded(weak: WeakHandle, upgraded: bool) -> bool;

/// A strong or a weak handle of a scene: the counterpart of
/// `bevy::asset::Handle<Scene>`, variant by variant.
pub enum SceneHandle {
    /// Keeps the scene alive.
    Strong(Arc<StrongHandle>),
    /// Only names the scene.
    Weak(SceneId),
}

/// `Handle::<Scene>::id` on a strong handle: the identifier stored in it, with the
/// bits of an index or the number of a UUID taken out.
#[verifier::external_body]
pub(crate) fn id_of_strong(handle: &Arc<StrongHandle>) -> (id: SceneId)
    ensures
        id == strong_id(*handle),
{
    match Handle::<Scene>::Strong(handle.clone()).id() {
        AssetId::Index { index, .. } => SceneId::Index(index.to_bits()),
        AssetId::Uuid { uuid } => SceneId::Uuid(uuid.as_u128()),
    }
}

impl SceneHandle {
    /// The identifier of the scene that the handle is for.
    pub open spec fn scene_id(self) -> SceneId {
        match self {
            SceneHandle::Strong(handle) => strong_id(handle),
            SceneHandle::Weak(id) => id,
        }
    }

    /// Returns the identifier of the scene that the handle is for.
    pub fn id(&self) -> (id: SceneId)
        ensures
            id == self.scene_id(),
            match *self {
                SceneHandle::Strong(handle) => id == strong_id(handle),
                SceneHandle::Weak(named) => id == named,
            },
    {
        match self {
            SceneHandle::Strong(handle) => id_of_strong(handle),
            SceneHandle::Weak(id) => *id,
        }
    }
}

/// A reference to a strong handle that does not keep the scene alive.
///
/// `std::sync::Weak` has an allocator parameter, for which the verifier has no
/// declaration, so the reference is hidden in a struct.
#[verifier::external_body]
pub struct WeakHandle(Weak<StrongHandle>);

impl WeakHandle {
    /// `std::sync::Arc::downgrade`: the new reference points to the allocation of
    /// `handle`.
    #[verifier::external_body]
    pub(crate) fn downgrade(handle: &Arc<StrongHandle>) -> (weak: WeakHandle)
        ensures
            weak_target(weak) == *handle,
    {
        WeakHandle(Arc::downgrade(handle))
    }

    /// `std::sync::Weak::strong_count`: the number of strong handles that are left. It
    /// depends on who holds and drops handles meanwhile, so it is not stated.
    #[verifier::external_body]
    pub(crate) fn strong_count(&self) -> (count: usize)
        ensures
            seen_in_use(*self, count > 0),
    {
        self.0.strong_count()
    }

    /// `std::sync::Weak::upgrade`: a strong handle to the allocation that the reference
    /// points to, if it is still in use. Whether it is depends on who holds and drops
    /// handles meanwhile, so that is not stated.
    #[verifier::external_body]
    pub(crate) fn upgrade(&self) -> (handle: Option<Arc<StrongHandle>>)
        ensures
            handle matches Some(strong) ==> strong == weak_target(*self),
            seen_upgraded(*self, handle is Some),
    {
        self.0.upgrade()
    }
}

} // verus!
