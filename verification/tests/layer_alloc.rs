use spine_ui::layers::SpineUiRenderLayerManager;

const OWNER_A: u64 = 11;
const OWNER_B: u64 = 22;
const OWNER_C: u64 = 33;
const EXT_1: u64 = 1001;
const EXT_2: u64 = 1002;

#[test]
fn allocation_is_lowest_free_and_stable() {
    let mut mgr = SpineUiRenderLayerManager::new();
    assert_eq!(mgr.allocate_for_owner(OWNER_A), 1);
    assert_eq!(mgr.allocate_for_owner(OWNER_B), 2);
    // A second request returns the existing reservation.
    assert_eq!(mgr.allocate_for_owner(OWNER_A), 1);
    assert_eq!(mgr.allocate_for_owner(OWNER_B), 2);
}

#[test]
fn allocation_skips_externally_claimed_channels() {
    let mut mgr = SpineUiRenderLayerManager::new();
    mgr.upsert_external_layers(EXT_1, vec![1, 2]);
    assert_eq!(mgr.allocate_for_owner(OWNER_A), 3);
}

#[test]
fn released_channel_is_reused_by_the_next_allocation() {
    let mut mgr = SpineUiRenderLayerManager::new();
    assert_eq!(mgr.allocate_for_owner(OWNER_A), 1);
    assert_eq!(mgr.allocate_for_owner(OWNER_B), 2);
    mgr.release_owner(OWNER_A);
    assert_eq!(mgr.allocate_for_owner(OWNER_C), 1);
}

#[test]
fn reference_counts_keep_shared_channels_claimed() {
    let mut mgr = SpineUiRenderLayerManager::new();
    mgr.upsert_external_layers(EXT_1, vec![1]);
    mgr.upsert_external_layers(EXT_2, vec![1]);
    assert_eq!(mgr.allocate_for_owner(OWNER_A), 2);
    // One holder goes away; the channel is still claimed by the other.
    mgr.remove_external_entity(EXT_1);
    assert_eq!(mgr.allocate_for_owner(OWNER_B), 3);
    // The last holder goes away; the channel is free again.
    mgr.remove_external_entity(EXT_2);
    assert_eq!(mgr.allocate_for_owner(OWNER_C), 1);
}

#[test]
fn upserting_replaces_an_entity_previous_claim() {
    let mut mgr = SpineUiRenderLayerManager::new();
    mgr.upsert_external_layers(EXT_1, vec![1]);
    mgr.upsert_external_layers(EXT_1, vec![2]);
    assert_eq!(mgr.allocate_for_owner(OWNER_A), 1);
}

#[test]
fn colliding_claim_marks_the_owner_pending() {
    let mut mgr = SpineUiRenderLayerManager::new();
    assert_eq!(mgr.allocate_for_owner(OWNER_A), 1);
    assert_eq!(mgr.allocate_for_owner(OWNER_B), 2);
    mgr.upsert_external_layers(EXT_1, vec![2, 7]);
    let pending = mgr.take_pending_reassignments();
    assert_eq!(pending, vec![OWNER_B]);
    // The set was drained: a second drain is empty.
    assert!(mgr.take_pending_reassignments().is_empty());
}

#[test]
fn reassignment_moves_to_the_lowest_conflict_free_channel() {
    let mut mgr = SpineUiRenderLayerManager::new();
    assert_eq!(mgr.allocate_for_owner(OWNER_A), 1);
    mgr.upsert_external_layers(EXT_1, vec![1]);
    let moved = mgr.reassign_owner_layer(OWNER_A);
    assert_eq!(moved, Some((1, 2)));
    // Already conflict-free: reassigning again is a no-op.
    assert_eq!(mgr.reassign_owner_layer(OWNER_A), None);
    // An unknown owner cannot be reassigned.
    assert_eq!(mgr.reassign_owner_layer(OWNER_C), None);
}

#[test]
fn release_clears_the_pending_mark() {
    let mut mgr = SpineUiRenderLayerManager::new();
    assert_eq!(mgr.allocate_for_owner(OWNER_A), 1);
    mgr.upsert_external_layers(EXT_1, vec![1]);
    mgr.release_owner(OWNER_A);
    assert!(mgr.take_pending_reassignments().is_empty());
}
