use molview::camera::{default_pose, update_direct_translation, MoveSignals, Projection};
use molview::geom::Point3;

fn no_signals() -> MoveSignals {
    MoveSignals { forward: false, back: false, left: false, right: false }
}

#[test]
fn default_pose_values() {
    let p = default_pose();
    assert_eq!(p.position, Point3 { x: 0, y: 0, z: -5_000_000 });
    assert_eq!(p.target, Point3 { x: 0, y: 0, z: 0 });
    assert_eq!(p.up, Point3 { x: 0, y: 1_000_000, z: 0 });
    assert_eq!(p.fovy, 90_000_000);
    assert_eq!(p.projection, Projection::Perspective);
}

#[test]
fn forward_translates_position_only() {
    // position (0, 0, -5), forward active, dt = 0.1 s, speed = 2.0 units/s
    let mut pose = default_pose();
    let before = pose;
    let signals = MoveSignals { forward: true, ..no_signals() };
    update_direct_translation(&mut pose, signals, 100_000, 2_000_000);
    assert_eq!(pose.position, Point3 { x: 0, y: 0, z: -4_800_000 });
    assert_eq!(pose.target, before.target);
    assert_eq!(pose.up, before.up);
    assert_eq!(pose.fovy, before.fovy);
    assert_eq!(pose.projection, before.projection);
}

#[test]
fn back_and_strafe_signals() {
    let mut pose = default_pose();
    let signals = MoveSignals { back: true, ..no_signals() };
    update_direct_translation(&mut pose, signals, 100_000, 2_000_000);
    assert_eq!(pose.position.z, -5_200_000);

    let mut pose = default_pose();
    let signals = MoveSignals { right: true, ..no_signals() };
    update_direct_translation(&mut pose, signals, 500_000, 1_000_000);
    assert_eq!(pose.position.x, 500_000);

    let mut pose = default_pose();
    let signals = MoveSignals { left: true, ..no_signals() };
    update_direct_translation(&mut pose, signals, 500_000, 1_000_000);
    assert_eq!(pose.position.x, -500_000);
}

#[test]
fn opposite_signals_cancel() {
    let mut pose = default_pose();
    let signals = MoveSignals { forward: true, back: true, ..no_signals() };
    update_direct_translation(&mut pose, signals, 100_000, 2_000_000);
    assert_eq!(pose.position, default_pose().position);
}

#[test]
fn idle_update_leaves_pose_unchanged() {
    let mut pose = default_pose();
    update_direct_translation(&mut pose, no_signals(), 100_000, 2_000_000);
    assert_eq!(pose, default_pose());
}
