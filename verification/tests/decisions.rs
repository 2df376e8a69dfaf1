use micro_voxels::app::{key_action, vram_stats, KeyAction};
use micro_voxels::camera::{KeyCode, MovementKeys};
use micro_voxels::display::{acquire_decision, FrameDecision, SurfaceStatus};
use micro_voxels::renderer::workgroup_counts;

#[test]
fn movement_keys_follow_presses() {
    let mut keys = MovementKeys::new();
    assert_eq!(keys.axes(), (0, 0, 0));
    keys.process_key_event(KeyCode::KeyW, true);
    keys.process_key_event(KeyCode::ArrowLeft, true);
    keys.process_key_event(KeyCode::Space, true);
    assert_eq!(keys.axes(), (-1, 1, 1));
    keys.process_key_event(KeyCode::KeyD, true);
    keys.process_key_event(KeyCode::ShiftLeft, true);
    assert_eq!(keys.axes(), (0, 1, 0));
    keys.process_key_event(KeyCode::ArrowUp, false);
    keys.process_key_event(KeyCode::KeyS, true);
    assert_eq!(keys.axes(), (0, -1, 0));
    let before = keys;
    keys.process_key_event(KeyCode::Other, true);
    keys.process_key_event(KeyCode::F11, true);
    assert_eq!(keys, before);
}

#[test]
fn key_actions() {
    assert_eq!(key_action(KeyCode::F11, true, false), KeyAction::SetFullscreen(true));
    assert_eq!(key_action(KeyCode::F11, true, true), KeyAction::SetFullscreen(false));
    assert_eq!(key_action(KeyCode::F11, false, true), KeyAction::Nothing);
    assert_eq!(key_action(KeyCode::Escape, true, false), KeyAction::ReleaseCursor);
    assert_eq!(key_action(KeyCode::KeyW, true, false), KeyAction::Nothing);
}

#[test]
fn frame_decisions() {
    assert_eq!(acquire_decision(false, SurfaceStatus::Success), FrameDecision::Skip);
    assert_eq!(acquire_decision(true, SurfaceStatus::Success), FrameDecision::Render);
    assert_eq!(acquire_decision(true, SurfaceStatus::Suboptimal), FrameDecision::Render);
    assert_eq!(acquire_decision(true, SurfaceStatus::Timeout), FrameDecision::Skip);
    assert_eq!(acquire_decision(true, SurfaceStatus::Lost), FrameDecision::Skip);
    assert_eq!(acquire_decision(true, SurfaceStatus::Outdated), FrameDecision::Reconfigure);
}

#[test]
fn workgroups_cover_the_output() {
    assert_eq!(workgroup_counts(800, 600), (50, 38));
    assert_eq!(workgroup_counts(0, 1), (0, 1));
    assert_eq!(workgroup_counts(16, 17), (1, 2));
    assert_eq!(workgroup_counts(u32::MAX, 15), (268435456, 1));
}

#[test]
fn vram_stats_of_first_device_local_heap() {
    let local = vec![false, true, true];
    let usage = vec![1, 2, 3];
    let budget = vec![10, 20, 30];
    assert_eq!(vram_stats(&local, &usage, &budget), (2, 20));
}
