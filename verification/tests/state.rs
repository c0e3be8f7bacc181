use cuicui_chirp::state::{
    after_asset_change, manage_state, mark_loaded, AssetChange, ChirpState, StateAction,
};

#[test]
fn reload_cycle() {
    let state = ChirpState::Loaded;
    let state = after_asset_change(state, AssetChange::Modified, true);
    assert_eq!(state, ChirpState::MustReload);
    let (state, action) = manage_state(state);
    assert_eq!((state, action), (ChirpState::Loading, StateAction::Respawn));
    assert_eq!(mark_loaded(state, false), (ChirpState::Loading, false));
    assert_eq!(mark_loaded(state, true), (ChirpState::Loaded, true));
    assert_eq!(mark_loaded(ChirpState::Loaded, true), (ChirpState::Loaded, false));
}

#[test]
fn removal_deletes() {
    let state = after_asset_change(ChirpState::Loaded, AssetChange::Removed, true);
    assert_eq!(state, ChirpState::MustDelete);
    assert_eq!(manage_state(state), (ChirpState::MustDelete, StateAction::Delete));
}

#[test]
fn other_changes_keep_state() {
    for change in [
        AssetChange::Added,
        AssetChange::Modified,
        AssetChange::Removed,
        AssetChange::LoadedWithDependencies,
    ] {
        assert_eq!(after_asset_change(ChirpState::Loaded, change, false), ChirpState::Loaded);
    }
    assert_eq!(
        after_asset_change(ChirpState::Loading, AssetChange::Added, true),
        ChirpState::Loading
    );
    assert_eq!(manage_state(ChirpState::Loaded), (ChirpState::Loaded, StateAction::Keep));
    assert_eq!(manage_state(ChirpState::Loading), (ChirpState::Loading, StateAction::Keep));
}
