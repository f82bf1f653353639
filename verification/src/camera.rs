//! The camera controller.
//!
//! The pose starts from a fixed default and, in direct-translation mode,
//! moves along fixed world axes at a constant speed scaled by the frame
//! time, leaving target, up vector, field of view and projection
//! untouched. Orbit mode is delegated to the external rendering
//! collaborator, selected by a mode tag; this module only names that tag.

use vstd::prelude::*;
use crate::geom::Point3;

verus! {

/// How the camera is steered each frame.
#[derive(Clone, Copy, PartialEq, Eq, Structural, Debug)]
pub enum ControlMode {
    /// Four directional signals translate the position along world axes.
    DirectTranslation,
    /// The external rendering collaborator's orbit scheme updates the
    /// pose; the core only selects and invokes it with this tag.
    Orbit,
}

/// The camera projection.
#[derive(Clone, Copy, PartialEq, Eq, Structural, Debug)]
pub enum Projection {
    Perspective,
    Orthographic,
}

/// A camera pose: position, look-at target and up vector in fixed-point
/// steps, vertical field of view in millionths of a degree, and the
/// projection mode.
#[derive(Clone, Copy, PartialEq, Eq, Structural, Debug)]
pub struct CameraPose {
    pub position: Point3,
    pub target: Point3,
    pub up: Point3,
    pub fovy: i64,
    pub projection: Projection,
}

/// The four discrete directional signals of direct-translation mode.
#[derive(Clone, Copy, PartialEq, Eq, Structural, Debug)]
pub struct MoveSignals {
    pub forward: bool,
    pub back: bool,
    pub left: bool,
    pub right: bool,
}

/// The default vertical field of view: ninety degrees.
pub const DEFAULT_FOVY: i64 = 90_000_000;

/// Largest frame time accepted, in millionths of a second.
pub const DT_LIMIT: i64 = 1_000_000_000;

/// Largest speed accepted, in fixed-point steps per second.
pub const SPEED_LIMIT: i64 = 1_000_000_000;

/// Band each camera position coordinate is kept inside.
pub const CAM_POS_LIMIT: i64 = 1_000_000_000_000_000;

/// A valid pose: every position coordinate within the camera band.
pub open spec fn pose_wf(p: CameraPose) -> bool {
    -(CAM_POS_LIMIT as int) <= p.position.x <= CAM_POS_LIMIT as int && -(CAM_POS_LIMIT as int)
        <= p.position.y <= CAM_POS_LIMIT as int && -(CAM_POS_LIMIT as int) <= p.position.z
        <= CAM_POS_LIMIT as int
}

/// Clamp a camera coordinate into the camera band.
pub open spec fn clamp_cam(v: int) -> int {
    if v > CAM_POS_LIMIT as int {
        CAM_POS_LIMIT as int
    } else if v < -(CAM_POS_LIMIT as int) {
        -(CAM_POS_LIMIT as int)
    } else {
        v
    }
}

/// Net translation along one axis for one frame: speed times frame time
/// per active signal, the positive signal minus the negative one.
pub open spec fn axis_delta(pos_sig: bool, neg_sig: bool, speed: int, dt: int) -> int {
    (if pos_sig {
        speed * dt / 1_000_000
    } else {
        0
    }) - (if neg_sig {
        speed * dt / 1_000_000
    } else {
        0
    })
}

/// The fixed default pose: five units behind the world origin, looking
/// at the origin, up along the positive y axis, a ninety-degree
/// perspective projection.
pub fn default_pose() -> (p: CameraPose)
    ensures
        p.position == (Point3 { x: 0i64, y: 0i64, z: -5_000_000i64 }),
        p.target == (Point3 { x: 0i64, y: 0i64, z: 0i64 }),
        p.up == (Point3 { x: 0i64, y: 1_000_000i64, z: 0i64 }),
        p.fovy == DEFAULT_FOVY,
        p.projection == Projection::Perspective,
        pose_wf(p),
{
    CameraPose {
        position: Point3 { x: 0, y: 0, z: -5_000_000 },
        target: Point3 { x: 0, y: 0, z: 0 },
        up: Point3 { x: 0, y: 1_000_000, z: 0 },
        fovy: DEFAULT_FOVY,
        projection: Projection::Perspective,
    }
}

/// One direct-translation update: forward and back move the position
/// along the world z axis, right and left along the world x axis, each
/// by speed times frame time; target, up, field of view and projection
/// are left exactly as they were, so the view direction does not track
/// the position.
pub fn update_direct_translation(
    pose: &mut CameraPose,
    signals: MoveSignals,
    dt_micros: i64,
    speed_micros: i64,
)
    requires
        0 <= dt_micros <= DT_LIMIT,
        0 <= speed_micros <= SPEED_LIMIT,
        pose_wf(*old(pose)),
    ensures
        final(pose).position.x as int == clamp_cam(
            old(pose).position.x + axis_delta(
                signals.right,
                signals.left,
                speed_micros as int,
                dt_micros as int,
            ),
        ),
        final(pose).position.y == old(pose).position.y,
        final(pose).position.z as int == clamp_cam(
            old(pose).position.z + axis_delta(
                signals.forward,
                signals.back,
                speed_micros as int,
                dt_micros as int,
            ),
        ),
        final(pose).target == old(pose).target,
        final(pose).up == old(pose).up,
        final(pose).fovy == old(pose).fovy,
        final(pose).projection == old(pose).projection,
        pose_wf(*final(pose)),
{
    proof {
        assert(0 <= speed_micros * dt_micros <= 1_000_000_000_000_000_000) by (nonlinear_arith)
            requires
                0 <= dt_micros <= DT_LIMIT,
                0 <= speed_micros <= SPEED_LIMIT,
                DT_LIMIT == 1_000_000_000,
                SPEED_LIMIT == 1_000_000_000,
        ;
    }
    let step = (speed_micros * dt_micros) / 1_000_000;
    let dx = (if signals.right {
        step
    } else {
        0
    }) - (if signals.left {
        step
    } else {
        0
    });
    let dz = (if signals.forward {
        step
    } else {
        0
    }) - (if signals.back {
        step
    } else {
        0
    });
    let x = clamp_cam_exec(pose.position.x + dx);
    let z = clamp_cam_exec(pose.position.z + dz);
    pose.position = Point3 { x, y: pose.position.y, z };
}

/// Clamp a camera coordinate into the camera band.
fn clamp_cam_exec(v: i64) -> (r: i64)
    ensures
        r as int == clamp_cam(v as int),
{
    if v > CAM_POS_LIMIT {
        CAM_POS_LIMIT
    } else if v < -CAM_POS_LIMIT {
        -CAM_POS_LIMIT
    } else {
        v
    }
}

} // verus!
