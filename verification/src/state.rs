//! The life cycle of a chirp scene in the world: loading, reloading when its
//! file changes, and removal.
//!
//! The scene systems run these decisions on each scene instance and perform
//! the actions they return.
use vstd::prelude::*;

verus! {

/// Where a chirp scene instance is in its life cycle.
#[derive(Debug, Clone, Copy, PartialEq, Eq, Structural)]
pub enum ChirpState {
    /// The scene's entities are not yet added to the world.
    Loading,
    /// The scene's entities are in the world.
    Loaded,
    /// Reload the scene next time the scene systems run.
    MustReload,
    /// Remove the scene from the world next time the scene systems run.
    MustDelete,
}

/// What happened to a chirp file asset.
#[derive(Debug, Clone, Copy, PartialEq, Eq, Structural)]
pub enum AssetChange {
    /// The asset was added.
    Added,
    /// The asset was modified (its file changed).
    Modified,
    /// The asset was removed.
    Removed,
    /// The asset and its dependencies are loaded.
    LoadedWithDependencies,
}

/// What the scene systems do to an instance.
#[derive(Debug, Clone, Copy, PartialEq, Eq, Structural)]
pub enum StateAction {
    /// Nothing.
    Keep,
    /// Despawn the scene's entities, keeping the instance's own entity, so
    /// that the scene is spawned anew.
    Respawn,
    /// Despawn the scene's entities and the instance's own entity.
    Delete,
}

/// The state of an instance after `change` happened to an asset;
/// `same_asset` tells whether it is the instance's own asset.
pub open spec fn spec_after_asset_change(state: ChirpState, change: AssetChange, same_asset: bool) -> ChirpState {
    if same_asset && change == AssetChange::Modified {
        ChirpState::MustReload
    } else if same_asset && change == AssetChange::Removed {
        ChirpState::MustDelete
    } else {
        state
    }
}

/// The state of an instance after `change` happened to an asset: a change of
/// its own file asks for a reload, a removal asks for deletion.
pub fn after_asset_change(state: ChirpState, change: AssetChange, same_asset: bool) -> (r: ChirpState)
    ensures
        r == spec_after_asset_change(state, change, same_asset),
{
    match change {
        AssetChange::Modified if same_asset => ChirpState::MustReload,
        AssetChange::Removed if same_asset => ChirpState::MustDelete,
        _ => state,
    }
}

/// The state an instance whose state changed goes to, and what is done to it.
pub open spec fn spec_manage_state(state: ChirpState) -> (ChirpState, StateAction) {
    match state {
        ChirpState::MustReload => (ChirpState::Loading, StateAction::Respawn),
        ChirpState::MustDelete => (ChirpState::MustDelete, StateAction::Delete),
        _ => (state, StateAction::Keep),
    }
}

/// Act on an instance whose state changed: a reload despawns the scene and
/// loads it again, a deletion despawns it with its instance.
pub fn manage_state(state: ChirpState) -> (r: (ChirpState, StateAction))
    ensures
        r == spec_manage_state(state),
{
    match state {
        ChirpState::MustReload => (ChirpState::Loading, StateAction::Respawn),
        ChirpState::MustDelete => (ChirpState::MustDelete, StateAction::Delete),
        _ => (state, StateAction::Keep),
    }
}

/// The state of an instance once its asset is or is not loaded, and whether
/// its scene is spawned now.
pub open spec fn spec_mark_loaded(state: ChirpState, asset_loaded: bool) -> (ChirpState, bool) {
    if asset_loaded && state == ChirpState::Loading {
        (ChirpState::Loaded, true)
    } else {
        (state, false)
    }
}

/// Spawn the scene of a loading instance once its asset is loaded: the
/// instance is then loaded.
pub fn mark_loaded(state: ChirpState, asset_loaded: bool) -> (r: (ChirpState, bool))
    ensures
        r == spec_mark_loaded(state, asset_loaded),
{
    if asset_loaded && state == ChirpState::Loading {
        (ChirpState::Loaded, true)
    } else {
        (state, false)
    }
}

/// A change of a loaded scene's file reloads it: the scene is despawned,
/// then spawned again once the asset is loaded, and the instance ends up
/// loaded.
pub proof fn lemma_modified_reloads(state: ChirpState)
    requires
        state == ChirpState::Loaded,
    ensures
        ({
            let s1 = spec_after_asset_change(state, AssetChange::Modified, true);
            let (s2, action) = spec_manage_state(s1);
            let (s3, spawned) = spec_mark_loaded(s2, true);
            &&& action == StateAction::Respawn
            &&& spawned
            &&& s3 == ChirpState::Loaded
        }),
{
}

/// Changes to other assets leave an instance as it is.
pub proof fn lemma_other_asset_keeps(state: ChirpState, change: AssetChange)
    ensures
        spec_after_asset_change(state, change, false) == state,
{
}

/// A scene is spawned at most once per load: once spawned, it is loaded
/// and not spawned again until a reload puts it back to loading.
pub proof fn lemma_spawned_once(state: ChirpState, loaded: bool)
    ensures
        spec_mark_loaded(state, loaded).1 ==> !spec_mark_loaded(
            spec_mark_loaded(state, loaded).0,
            loaded,
        ).1,
{
}

/// Only a change of an instance's own file moves it: a modification asks
/// for a reload, a removal for deletion, and every other change (an
/// addition, the end of loading), or any change to another file, leaves the
/// instance as it is.
pub proof fn lemma_asset_change_effects(state: ChirpState, change: AssetChange, same_asset: bool)
    ensures
        (change == AssetChange::Added || change == AssetChange::LoadedWithDependencies || !same_asset)
            ==> spec_after_asset_change(state, change, same_asset) == state,
        same_asset && change == AssetChange::Modified ==> spec_after_asset_change(
            state,
            change,
            same_asset,
        ) == ChirpState::MustReload,
        same_asset && change == AssetChange::Removed ==> spec_after_asset_change(
            state,
            change,
            same_asset,
        ) == ChirpState::MustDelete,
{
}

/// Managing an instance acts only on pending requests: a reload respawns
/// the scene and puts the instance back to loading, a deletion deletes it,
/// and a loading or loaded instance is kept as it is.
pub proof fn lemma_manage_effects(state: ChirpState)
    ensures
        (state == ChirpState::Loading || state == ChirpState::Loaded) ==> spec_manage_state(state)
            == (state, StateAction::Keep),
        spec_manage_state(state).1 == StateAction::Respawn <==> state == ChirpState::MustReload,
        spec_manage_state(state).1 == StateAction::Delete <==> state == ChirpState::MustDelete,
        spec_manage_state(state).1 == StateAction::Respawn ==> spec_manage_state(state).0
            == ChirpState::Loading,
{
}

/// A scene is spawned exactly when its instance is loading and its asset is
/// loaded; spawning makes the instance loaded, and otherwise nothing
/// changes.
pub proof fn lemma_mark_loaded_effects(state: ChirpState, asset_loaded: bool)
    ensures
        spec_mark_loaded(state, asset_loaded).1 <==> (asset_loaded && state == ChirpState::Loading),
        spec_mark_loaded(state, asset_loaded).1 ==> spec_mark_loaded(state, asset_loaded).0
            == ChirpState::Loaded,
        !spec_mark_loaded(state, asset_loaded).1 ==> spec_mark_loaded(state, asset_loaded).0
            == state,
{
}

} // verus!
