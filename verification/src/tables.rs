use bevy::utils::{HashMap, HashSet};
use vstd::prelude::*;

use crate::ids::{PostProcessKey, SceneId};
use crate::jobs::SceneTask;
use crate::registry::{PostProcessAction, ProcessingTargets};

// The allocator parameter of Bevy's hash tables is bound by a trait that is private to
// the crate they come from, so the verifier cannot be told of the tables themselves.
// Each is hidden in a struct here. Their keys compare and hash by the derived impls of
// `SceneId` and `PostProcessKey`: by variant and number.

verus! {

/// The actions of one unprocessed scene, by the identifier of the processed scene.
#[verifier::external_body]
pub struct ActionTable(HashMap<SceneId, PostProcessAction>);

/// What an [`ActionTable`] holds.
pub uninterp spec fn action_table(table: ActionTable) -> Map<SceneId, PostProcessAction>;

impl ActionTable {
    /// `HashMap::default`: a table that holds nothing.
    #[verifier::external_body]
    pub(crate) fn new() -> (table: ActionTable)
        ensures
            action_table(table).dom() == Set::<SceneId>::empty(),
    {
        ActionTable(HashMap::default())
    }

    /// `HashMap::insert`: `id` has `action` afterwards, and no other entry changes.
    #[verifier::external_body]
    pub(crate) fn insert(&mut self, id: SceneId, action: PostProcessAction)
        ensures
            action_table(*final(self)) == action_table(*old(self)).insert(id, action),
    {
        self.0.insert(id, action);
    }

    /// `HashMap::get`: the action of `id`, if it has one.
    #[verifier::external_body]
    pub(crate) fn get(&self, id: SceneId) -> (action: Option<&PostProcessAction>)
        ensures
            action is Some == action_table(*self).contains_key(id),
            action matches Some(found) ==> *found == action_table(*self)[id],
    {
        self.0.get(&id)
    }

    /// `HashMap::remove`: `id` has no action afterwards, and no other entry changes.
    #[verifier::external_body]
    pub(crate) fn remove(&mut self, id: SceneId)
        ensures
            action_table(*final(self)) == action_table(*old(self)).remove(id),
    {
        self.0.remove(&id);
    }

    /// `HashMap::keys`: each key once. Their order depends on the hasher, so it is not
    /// stated.
    #[verifier::external_body]
    pub(crate) fn keys(&self) -> (ids: Vec<SceneId>)
        ensures
            ids@.no_duplicates(),
            ids@.to_set() == action_table(*self).dom(),
    {
        self.0.keys().copied().collect()
    }
}

/// The targets of all unprocessed scenes, by the identifier of the unprocessed scene.
#[verifier::external_body]
pub struct TargetTable(HashMap<SceneId, ProcessingTargets>);

/// What a [`TargetTable`] holds.
pub uninterp spec fn target_table(table: TargetTable) -> Map<SceneId, ProcessingTargets>;

impl TargetTable {
    /// `HashMap::default`: a table that holds nothing.
    #[verifier::external_body]
    pub(crate) fn new() -> (table: TargetTable)
        ensures
            target_table(table).dom() == Set::<SceneId>::empty(),
    {
        TargetTable(HashMap::default())
    }

    /// `HashMap::insert`: `id` has `targets` afterwards, and no other entry changes.
    #[verifier::external_body]
    pub(crate) fn insert(&mut self, id: SceneId, targets: ProcessingTargets)
        ensures
            target_table(*final(self)) == target_table(*old(self)).insert(id, targets),
    {
        self.0.insert(id, targets);
    }

    /// `HashMap::get`: the targets of `id`, if it has any.
    #[verifier::external_body]
    pub(crate) fn get(&self, id: SceneId) -> (targets: Option<&ProcessingTargets>)
        ensures
            targets is Some == target_table(*self).contains_key(id),
            targets matches Some(found) ==> *found == target_table(*self)[id],
    {
        self.0.get(&id)
    }

    /// `HashMap::remove`: takes the targets of `id` out, if it has any. No other entry
    /// changes.
    #[verifier::external_body]
    pub(crate) fn remove(&mut self, id: SceneId) -> (targets: Option<ProcessingTargets>)
        ensures
            target_table(*final(self)) == target_table(*old(self)).remove(id),
            targets is Some == target_table(*old(self)).contains_key(id),
            targets matches Some(found) ==> found == target_table(*old(self))[id],
    {
        self.0.remove(&id)
    }

    /// `HashMap::keys`: each key once. Their order depends on the hasher, so it is not
    /// stated.
    #[verifier::external_body]
    pub(crate) fn keys(&self) -> (ids: Vec<SceneId>)
        ensures
            ids@.no_duplicates(),
            ids@.to_set() == target_table(*self).dom(),
    {
        self.0.keys().copied().collect()
    }
}

/// The currently running post-processing tasks. A task that is removed or replaced is
/// dropped, which cancels it.
#[verifier::external_body]
pub struct ScenePostProcessTasks(HashMap<PostProcessKey, SceneTask>);

/// What a [`ScenePostProcessTasks`] holds.
pub uninterp spec fn task_table(table: ScenePostProcessTasks) -> Map<PostProcessKey, SceneTask>;

impl ScenePostProcessTasks {
    /// `HashMap::default`: a table that holds nothing.
    #[verifier::external_body]
    pub(crate) fn new() -> (table: ScenePostProcessTasks)
        ensures
            task_table(table).dom() == Set::<PostProcessKey>::empty(),
    {
        ScenePostProcessTasks(HashMap::default())
    }

    /// `HashMap::insert`: `key` has `task` afterwards, and no other entry changes.
    #[verifier::external_body]
    pub(crate) fn insert(&mut self, key: PostProcessKey, task: SceneTask)
        ensures
            task_table(*final(self)) == task_table(*old(self)).insert(key, task),
    {
        self.0.insert(key, task);
    }

    /// `HashMap::get`: the task of `key`, if it has one.
    #[verifier::external_body]
    pub(crate) fn get(&self, key: PostProcessKey) -> (task: Option<&SceneTask>)
        ensures
            task is Some == task_table(*self).contains_key(key),
            task matches Some(found) ==> *found == task_table(*self)[key],
    {
        self.0.get(&key)
    }

    /// `HashMap::remove`: takes the task of `key` out, if it has one. No other entry
    /// changes.
    #[verifier::external_body]
    pub(crate) fn remove(&mut self, key: PostProcessKey) -> (task: Option<SceneTask>)
        ensures
            task_table(*final(self)) == task_table(*old(self)).remove(key),
            task is Some == task_table(*old(self)).contains_key(key),
            task matches Some(found) ==> found == task_table(*old(self))[key],
    {
        self.0.remove(&key)
    }

    /// `HashMap::keys`: each key once. Their order depends on the hasher, so it is not
    /// stated.
    #[verifier::external_body]
    pub(crate) fn keys(&self) -> (keys: Vec<PostProcessKey>)
        ensures
            keys@.no_duplicates(),
            keys@.to_set() == task_table(*self).dom(),
    {
        self.0.keys().copied().collect()
    }
}

impl ScenePostProcessTasks {
    /// Returns the number of tasks.
    pub fn len(&self) -> (count: usize)
        ensures
            count == task_table(*self).dom().len(),
    {
        let keys = self.keys();
        proof {
            keys@.unique_seq_to_set();
        }
        keys.len()
    }
}

impl Default for ScenePostProcessTasks {
    /// No task is running.
    fn default() -> (tasks: Self)
        ensures
            task_table(tasks) == Map::<PostProcessKey, SceneTask>::empty(),
    {
        let tasks = ScenePostProcessTasks::new();
        assert(task_table(tasks) =~= Map::<PostProcessKey, SceneTask>::empty());
        tasks
    }
}

/// A set of scenes.
#[verifier::external_body]
pub struct SceneSet(HashSet<SceneId>);

/// What a [`SceneSet`] holds.
pub uninterp spec fn scene_set(set: SceneSet) -> Set<SceneId>;

impl SceneSet {
    /// `HashSet::default`: a set that holds nothing.
    #[verifier::external_body]
    pub(crate) fn new() -> (set: SceneSet)
        ensures
            scene_set(set) == Set::<SceneId>::empty(),
    {
        SceneSet(HashSet::default())
    }

    /// `HashSet::insert`: adds `id`.
    #[verifier::external_body]
    pub(crate) fn insert(&mut self, id: SceneId)
        ensures
            scene_set(*final(self)) == scene_set(*old(self)).insert(id),
    {
        self.0.insert(id);
    }

    /// `HashSet::drain`: takes everything out, each identifier once. Their order depends
    /// on the hasher, so it is not stated.
    #[verifier::external_body]
    pub(crate) fn drain(&mut self) -> (ids: Vec<SceneId>)
        ensures
            scene_set(*final(self)) == Set::<SceneId>::empty(),
            ids@.no_duplicates(),
            ids@.to_set() == scene_set(*old(self)),
    {
        self.0.drain().collect()
    }
}

} // verus!
