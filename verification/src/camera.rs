//! The camera: where the picture is taken from, and the rays of its pixels.

use crate::fixed::{
    floor_div, lemma_div_bound, lemma_div_range, lemma_mul_floor_within, lemma_product_within,
    mul_fixed, mul_floor, ONE, WORLD_MAX,
};
use crate::halton::{radical_inverse, Fraction, Halton, Halton2};
use crate::hittable::{clip_is_valid, clip_wf};
use crate::vec3::{
    lemma_cross_exact_length, lemma_cross_exact_perpendicular, lemma_direction_along,
    lemma_direction_perpendicular, lemma_try_normalize, Vec3,
};
use parking_lot::RwLock;
use std::ops::Range;
use vstd::prelude::*;

verus! {

/// The largest width and the largest height of a picture.
pub const DIMENSION_MAX: u32 = 0xffff;

/// The largest tangent of half the field of view.
pub const TANGENT_MAX: i64 = 0x10_0000;

/// The largest magnitude of a component of a move, and of the seconds it
/// lasts: the size of the world.
pub const MOVE_MAX: i64 = 0x10_0000_0000;

/// The world units that the camera moves per second.
pub const MOVE_SPEED: i64 = 2;

/// The radians that the camera turns per second and unit of turn: a fifth.
pub const TURN_SPEED: i64 = 13107;

/// The largest magnitude of a turn, and of the seconds it lasts.
pub const TURN_MAX: i64 = 0x1000_0000;

/// How far the product of two directions may lie from zero for the two to
/// count as at right angles.
pub const PERPENDICULAR_SLACK: i128 = 0x10_0000;

/// Whether two directions are at right angles, up to `PERPENDICULAR_SLACK`.
pub open spec fn perpendicular(a: Vec3, b: Vec3) -> bool {
    -PERPENDICULAR_SLACK <= a.dot_spec(b) <= PERPENDICULAR_SLACK
}

/// Whether `look`, `right` and `up` are the axes of a camera: three
/// normalized directions, each at right angles to the other two, with `up`
/// on the side of `right x look`.
pub open spec fn is_frame(look: Vec3, right: Vec3, up: Vec3) -> bool {
    &&& look.within(ONE as int) && right.within(ONE as int) && up.within(ONE as int)
    &&& look.is_normalized_spec() && right.is_normalized_spec() && up.is_normalized_spec()
    &&& perpendicular(look, right) && perpendicular(look, up) && perpendicular(right, up)
    &&& right.cross_exact_spec(look).dot_spec(up) > 0
}

/// Tells whether `look`, `right` and `up` are the axes of a camera.
pub fn frame_holds(look: Vec3, right: Vec3, up: Vec3) -> (r: bool)
    ensures
        r == is_frame(look, right, up),
{
    if !(look.is_within(ONE) && right.is_within(ONE) && up.is_within(ONE)) {
        return false;
    }
    if !(look.is_normalized() && right.is_normalized() && up.is_normalized()) {
        return false;
    }
    let look_right: i128 = look.dot(right);
    let look_up: i128 = look.dot(up);
    let right_up: i128 = right.dot(up);
    if !(-PERPENDICULAR_SLACK <= look_right && look_right <= PERPENDICULAR_SLACK
        && -PERPENDICULAR_SLACK <= look_up && look_up <= PERPENDICULAR_SLACK
        && -PERPENDICULAR_SLACK <= right_up && right_up <= PERPENDICULAR_SLACK) {
        return false;
    }
    right.cross_exact(look).dot(up) > 0
}

/// An angle, given by its sine and its cosine.
#[derive(Clone, Copy, Debug, PartialEq, Eq, Structural)]
pub struct Rotation {
    pub sine: i64,
    pub cosine: i64,
}

impl Rotation {
    /// Whether neither the sine nor the cosine exceeds one.
    pub open spec fn wf(self) -> bool {
        -ONE <= self.sine <= ONE && -ONE <= self.cosine <= ONE
    }

    /// Tells whether the rotation is well-formed.
    pub fn is_valid(&self) -> (r: bool)
        ensures
            r == self.wf(),
    {
        -ONE <= self.sine && self.sine <= ONE && -ONE <= self.cosine && self.cosine <= ONE
    }
}

/// `v` turned about the direction `axis`: `v cos + (axis x v) sin + axis
/// (axis . v) (1 - cos)`, each product rounded down.
pub open spec fn rotated_spec(v: Vec3, axis: Vec3, rotation: Rotation) -> Vec3 {
    let along = axis.dot_spec(v) / (ONE as int);
    let lift = mul_floor(along, ONE - rotation.cosine);
    let turned = v.scaled_spec(rotation.cosine);
    let spun = axis.cross_spec(v).scaled_spec(rotation.sine);
    let lifted = axis.scaled_spec(lift as i64);
    turned.plus_spec(spun).plus_spec(lifted)
}

/// The direction `v` turned about the direction `axis`, as a direction
/// again. A turn that leaves `v` where it is leaves it as it is, and so does
/// one after which the vector has no direction.
pub open spec fn turned_spec(v: Vec3, axis: Vec3, rotation: Rotation) -> Vec3 {
    let rotated = rotated_spec(v, axis, rotation);
    if rotated == v {
        v
    } else {
        match rotated.try_normalize_spec() {
            Some(direction) => direction,
            None => v,
        }
    }
}

fn turned(v: Vec3, axis: Vec3, rotation: Rotation) -> (r: Vec3)
    requires
        v.within(ONE as int),
        v.is_normalized_spec(),
        axis.within(ONE as int),
        rotation.wf(),
    ensures
        r == turned_spec(v, axis, rotation),
        r.within(ONE as int),
        r.is_normalized_spec(),
{
    proof {
        lemma_product_within(axis.x as int, v.x as int, 0x1_0000, 0x1_0000);
        lemma_product_within(axis.y as int, v.y as int, 0x1_0000, 0x1_0000);
        lemma_product_within(axis.z as int, v.z as int, 0x1_0000, 0x1_0000);
        lemma_div_bound(axis.dot_spec(v), 0x1_0000, 0x3_0000);
    }
    let along: i64 = floor_div(axis.dot(v), ONE as i128) as i64;
    proof {
        lemma_mul_floor_within(along as int, ONE - rotation.cosine, 0x3_0000, 0x2_0000);
    }
    let lift: i64 = mul_fixed(along, ONE - rotation.cosine);
    let spin = axis.cross(v);
    proof {
        lemma_cross_within(axis, v);
        lemma_mul_floor_within(v.x as int, rotation.cosine as int, 0x1_0000, 0x1_0000);
        lemma_mul_floor_within(v.y as int, rotation.cosine as int, 0x1_0000, 0x1_0000);
        lemma_mul_floor_within(v.z as int, rotation.cosine as int, 0x1_0000, 0x1_0000);
        lemma_mul_floor_within(spin.x as int, rotation.sine as int, 0x2_0000, 0x1_0000);
        lemma_mul_floor_within(spin.y as int, rotation.sine as int, 0x2_0000, 0x1_0000);
        lemma_mul_floor_within(spin.z as int, rotation.sine as int, 0x2_0000, 0x1_0000);
        lemma_mul_floor_within(axis.x as int, lift as int, 0x1_0000, 0x6_0000);
        lemma_mul_floor_within(axis.y as int, lift as int, 0x1_0000, 0x6_0000);
        lemma_mul_floor_within(axis.z as int, lift as int, 0x1_0000, 0x6_0000);
    }
    let rotated = v.scaled(rotation.cosine).plus(spin.scaled(rotation.sine)).plus(
        axis.scaled(lift),
    );
    if rotated == v {
        v
    } else {
        match rotated.try_normalize() {
            Some(direction) => direction,
            None => v,
        }
    }
}

/// `parking_lot::RwLock`, by the type that it stands for in `lock_api`: a
/// lock around a value. What it holds is hidden.
#[verifier::external_type_specification]
#[verifier::external_body]
#[verifier::reject_recursive_types(R)]
#[verifier::reject_recursive_types(T)]
pub struct ExRwLock<R, T: ?Sized>(parking_lot::lock_api::RwLock<R, T>);

/// `parking_lot::RawRwLock`: the state of a lock.
#[verifier::external_type_specification]
#[verifier::external_body]
pub struct ExRawRwLock(parking_lot::RawRwLock);

/// `parking_lot::RwLock::new`: a lock, unlocked, around the sampler. A lock
/// hides what it holds, so nothing is claimed of it.
#[verifier::external_body]
fn jitter_cell(sampler: Halton2) -> (cell: RwLock<Halton2>) {
    RwLock::new(sampler)
}

/// `parking_lot::RwLock::read`: a copy of the sampler that the lock holds at
/// the time of the call. Nothing is claimed of it.
#[verifier::external_body]
fn load_jitter(cell: &RwLock<Halton2>) -> (sampler: Halton2) {
    *cell.read()
}

/// `parking_lot::RwLock::write`: puts the sampler into the lock.
#[verifier::external_body]
fn store_jitter(cell: &RwLock<Halton2>, sampler: Halton2) {
    *cell.write() = sampler;
}

/// A camera with a perspective projection.
///
/// `look_direction`, `right_direction` and `up_direction` are its three axes.
/// They are a frame at all times: every change of the look direction makes
/// the other two axes fit it.
pub struct Camera {
    position: Vec3,
    axes: Axes,
    vertical_fov: i64,
    half_fov_tangent: i64,
    width: u32,
    height: u32,
    look_clip: Range<i64>,
    jitter: RwLock<Halton2>,
}

/// The three axes of a camera.
#[derive(Clone, Copy)]
struct Axes {
    look: Vec3,
    right: Vec3,
    up: Vec3,
}

/// What a camera holds, but for the state of its jitter sampler.
pub struct CameraView {
    pub position: Vec3,
    pub look_direction: Vec3,
    pub right_direction: Vec3,
    pub up_direction: Vec3,
    /// The vertical field of view, in degrees.
    pub vertical_fov: i64,
    /// The tangent of half the vertical field of view.
    pub half_fov_tangent: i64,
    pub width: u32,
    pub height: u32,
    pub look_clip: Range<i64>,
}

impl View for Camera {
    type V = CameraView;

    closed spec fn view(&self) -> CameraView {
        CameraView {
            position: self.position,
            look_direction: self.axes.look,
            right_direction: self.axes.right,
            up_direction: self.axes.up,
            vertical_fov: self.vertical_fov,
            half_fov_tangent: self.half_fov_tangent,
            width: self.width,
            height: self.height,
            look_clip: self.look_clip,
        }
    }
}

impl CameraView {
    /// Whether pictures can be taken with the camera: it stands inside the
    /// world, its axes are directions, its picture has pixels and its other
    /// settings are in range.
    pub open spec fn wf(self) -> bool {
        &&& self.position.within(WORLD_MAX as int)
        &&& self.look_direction.within(ONE as int)
        &&& self.right_direction.within(ONE as int)
        &&& self.up_direction.within(ONE as int)
        &&& 0 < self.half_fov_tangent <= TANGENT_MAX
        &&& 0 < self.width <= DIMENSION_MAX
        &&& 0 < self.height <= DIMENSION_MAX
        &&& clip_wf(self.look_clip)
    }

    /// The camera after a turn by `yaw` about its up axis and then by `pitch`
    /// about the axis that was to its right. Where rounding has left the
    /// three turned axes a frame they are the new axes; else the right and
    /// up axes are made anew from the turned look direction.
    pub open spec fn turned(self, pitch: Rotation, yaw: Rotation) -> CameraView {
        let look = turned_spec(
            turned_spec(self.look_direction, self.up_direction, yaw),
            self.right_direction,
            pitch,
        );
        let right = turned_spec(
            turned_spec(self.right_direction, self.up_direction, yaw),
            self.right_direction,
            pitch,
        );
        let up = turned_spec(
            turned_spec(self.up_direction, self.up_direction, yaw),
            self.right_direction,
            pitch,
        );
        if is_frame(look, right, up) {
            CameraView { look_direction: look, right_direction: right, up_direction: up, ..self }
        } else {
            CameraView {
                look_direction: look,
                right_direction: frame_spec(look, up).0,
                up_direction: frame_spec(look, up).1,
                ..self
            }
        }
    }

    /// Whether the three axes are a frame.
    pub open spec fn oriented(self) -> bool {
        is_frame(self.look_direction, self.right_direction, self.up_direction)
    }

    /// The camera turned towards `look_direction`: its look direction is
    /// the direction of that vector, and its other two axes are made to fit.
    /// The zero vector, which has no direction, leaves the camera as it is.
    pub open spec fn looking_along(self, look_direction: Vec3) -> CameraView {
        match look_direction.try_normalize_spec() {
            None => self,
            Some(normalized) => CameraView {
                look_direction: normalized,
                right_direction: frame_spec(normalized, self.up_direction).0,
                up_direction: frame_spec(normalized, self.up_direction).1,
                ..self
            },
        }
    }

    /// The position after a move by `offset`, given in the camera's own axes,
    /// that lasts `ts` seconds.
    pub open spec fn moved(self, offset: Vec3, ts: i64) -> Vec3 {
        let rotated = self.right_direction.scaled_spec(offset.x).plus_spec(
            self.up_direction.scaled_spec(offset.y),
        ).plus_spec(self.look_direction.scaled_spec(offset.z));
        self.position.plus_spec(rotated.scaled_spec((MOVE_SPEED * ts) as i64))
    }
}

impl Default for Camera {
    /// A camera three units up the Z axis that looks at the origin, with a
    /// field of view of 25 degrees and a picture of 640 by 480 pixels.
    fn default() -> (r: Camera)
        ensures
            r@ == (CameraView {
                position: Vec3 { x: 0, y: 0, z: 196608 },
                look_direction: Vec3 { x: 0, y: 0, z: -65536i64 },
                right_direction: Vec3 { x: 65536, y: 0, z: 0 },
                up_direction: Vec3 { x: 0, y: 65536, z: 0 },
                vertical_fov: 1638400,
                half_fov_tangent: 14529,
                width: 640,
                height: 480,
                look_clip: 655..6553600,
            }),
            r@.wf(),
            r@.oriented(),
    {
        Self {
            position: Vec3::new(0, 0, 3 * ONE),
            axes: Axes {
                look: Vec3::new(0, 0, -ONE),
                right: Vec3::new(ONE, 0, 0),
                up: Vec3::new(0, ONE, 0),
            },
            vertical_fov: 25 * ONE,
            half_fov_tangent: 14529,
            width: 640,
            height: 480,
            look_clip: 655..6553600,
            jitter: jitter_cell(Halton::two_d((2, 3))),
        }
    }
}

impl Camera {
    #[verifier::type_invariant]
    spec fn well_oriented(self) -> bool {
        is_frame(self.axes.look, self.axes.right, self.axes.up)
    }

    /// Tells that the axes of the camera are a frame: they are at all times.
    pub fn is_oriented(&self) -> (r: bool)
        ensures
            r,
            self@.oriented(),
    {
        proof {
            use_type_invariant(self);
        }
        true
    }

    /// Tells whether pictures can be taken with the camera.
    pub fn is_valid(&self) -> (r: bool)
        ensures
            r == self@.wf(),
    {
        self.position.is_within(WORLD_MAX) && self.axes.look.is_within(ONE)
            && self.axes.right.is_within(ONE) && self.axes.up.is_within(ONE) && 0
            < self.half_fov_tangent && self.half_fov_tangent <= TANGENT_MAX && 0 < self.width
            && self.width <= DIMENSION_MAX && 0 < self.height && self.height <= DIMENSION_MAX
            && clip_is_valid(&self.look_clip)
    }

    pub fn position(&self) -> (r: Vec3)
        ensures
            r == self@.position,
    {
        self.position
    }

    pub fn set_position(&mut self, position: Vec3)
        ensures
            final(self)@ == (CameraView { position, ..old(self)@ }),
    {
        proof {
            use_type_invariant(&*self);
        }
        self.position = position;
    }

    /// Move the cameras origin. `offset` is mapped to the coordinate system of
    /// the view, with X being to the right, Y being up, and Z being forwards.
    pub fn relative_move(&mut self, offset: Vec3, ts: i64) -> (r: &Vec3)
        requires
            old(self)@.wf(),
            offset.within(MOVE_MAX as int),
            -MOVE_MAX <= ts <= MOVE_MAX,
        ensures
            final(self)@ == (CameraView { position: old(self)@.moved(offset, ts), ..old(self)@ }),
            *r == old(self)@.moved(offset, ts),
    {
        proof {
            use_type_invariant(&*self);
            let right = self.axes.right;
            let up = self.axes.up;
            let look = self.axes.look;
            lemma_mul_floor_within(right.x as int, offset.x as int, 0x1_0000, 0x10_0000_0000);
            lemma_mul_floor_within(right.y as int, offset.x as int, 0x1_0000, 0x10_0000_0000);
            lemma_mul_floor_within(right.z as int, offset.x as int, 0x1_0000, 0x10_0000_0000);
            lemma_mul_floor_within(up.x as int, offset.y as int, 0x1_0000, 0x10_0000_0000);
            lemma_mul_floor_within(up.y as int, offset.y as int, 0x1_0000, 0x10_0000_0000);
            lemma_mul_floor_within(up.z as int, offset.y as int, 0x1_0000, 0x10_0000_0000);
            lemma_mul_floor_within(look.x as int, offset.z as int, 0x1_0000, 0x10_0000_0000);
            lemma_mul_floor_within(look.y as int, offset.z as int, 0x1_0000, 0x10_0000_0000);
            lemma_mul_floor_within(look.z as int, offset.z as int, 0x1_0000, 0x10_0000_0000);
        }
        let rotated = self.axes.right.scaled(offset.x).plus(
            self.axes.up.scaled(offset.y),
        ).plus(self.axes.look.scaled(offset.z));
        proof {
            lemma_mul_floor_within(rotated.x as int, MOVE_SPEED * ts, 0x30_0000_0000, 0x20_0000_0000);
            lemma_mul_floor_within(rotated.y as int, MOVE_SPEED * ts, 0x30_0000_0000, 0x20_0000_0000);
            lemma_mul_floor_within(rotated.z as int, MOVE_SPEED * ts, 0x30_0000_0000, 0x20_0000_0000);
        }
        self.position = self.position.plus(rotated.scaled(MOVE_SPEED * ts));
        &self.position
    }

    /// The angles, in radians, of a turn by `turn` (pitch, then yaw) that
    /// lasts `ts` seconds: each is `turn * TURN_SPEED * ts`.
    pub fn turn_angles(turn: [i64; 2], ts: i64) -> (r: [i64; 2])
        requires
            -TURN_MAX <= turn[0] <= TURN_MAX,
            -TURN_MAX <= turn[1] <= TURN_MAX,
            -TURN_MAX <= ts <= TURN_MAX,
        ensures
            r[0] == mul_floor(turn[0] as int, mul_floor(TURN_SPEED as int, ts as int)),
            r[1] == mul_floor(turn[1] as int, mul_floor(TURN_SPEED as int, ts as int)),
    {
        proof {
            lemma_mul_floor_within(TURN_SPEED as int, ts as int, 0x1_0000, 0x1000_0000);
            let scale = mul_floor(TURN_SPEED as int, ts as int);
            lemma_mul_floor_within(turn[0] as int, scale, 0x1000_0000, 0x1000_0000);
            lemma_mul_floor_within(turn[1] as int, scale, 0x1000_0000, 0x1000_0000);
        }
        let scale: i64 = mul_fixed(TURN_SPEED, ts);
        [mul_fixed(turn[0], scale), mul_fixed(turn[1], scale)]
    }

    /// Turns the camera by `yaw` about its up axis and by `pitch` about the
    /// axis to its right. A turn by nothing leaves the camera as it is.
    pub fn relative_turn(&mut self, pitch: Rotation, yaw: Rotation) -> (r: &Vec3)
        requires
            pitch.wf(),
            yaw.wf(),
        ensures
            final(self)@ == old(self)@.turned(pitch, yaw),
            final(self)@.oriented(),
            pitch == no_turn() && yaw == no_turn() ==> final(self)@ == old(self)@,
            *r == final(self)@.look_direction,
    {
        proof {
            use_type_invariant(&*self);
            if pitch == no_turn() && yaw == no_turn() {
                lemma_no_turn(self@);
            }
        }
        let right_axis = self.axes.right;
        let up_axis = self.axes.up;
        let look = turned(turned(self.axes.look, up_axis, yaw), right_axis, pitch);
        let right = turned(turned(self.axes.right, up_axis, yaw), right_axis, pitch);
        let up = turned(turned(self.axes.up, up_axis, yaw), right_axis, pitch);
        if frame_holds(look, right, up) {
            self.axes = Axes { look, right, up };
        } else {
            let (right, up) = frame_axes(look, up);
            self.axes = Axes { look, right, up };
        }
        &self.axes.look
    }

    pub fn look_direction(&self) -> (r: Vec3)
        ensures
            r == self@.look_direction,
    {
        self.axes.look
    }

    /// The vertical field of view, in degrees.
    pub fn vertical_fov(&self) -> (r: i64)
        ensures
            r == self@.vertical_fov,
    {
        self.vertical_fov
    }

    /// The tangent of half the vertical field of view.
    pub fn half_fov_tangent(&self) -> (r: i64)
        ensures
            r == self@.half_fov_tangent,
    {
        self.half_fov_tangent
    }

    /// Sets the vertical field of view, in degrees, together with the
    /// tangent of half of it.
    pub fn set_vertical_fov(&mut self, vertical_fov: i64, half_fov_tangent: i64)
        ensures
            final(self)@ == (CameraView { vertical_fov, half_fov_tangent, ..old(self)@ }),
    {
        proof {
            use_type_invariant(&*self);
        }
        if self.vertical_fov != vertical_fov || self.half_fov_tangent != half_fov_tangent {
            self.vertical_fov = vertical_fov;
            self.half_fov_tangent = half_fov_tangent;
        }
    }

    /// The width and the height of the picture.
    pub fn size(&self) -> (r: [u32; 2])
        ensures
            r@ == seq![self@.width, self@.height],
    {
        let r = [self.width, self.height];
        assert(r@ =~= seq![self@.width, self@.height]);
        r
    }

    pub fn set_size(&mut self, width: u32, height: u32)
        requires
            width > 0,
            height > 0,
        ensures
            final(self)@ == (CameraView { width, height, ..old(self)@ }),
    {
        proof {
            use_type_invariant(&*self);
        }
        if self.width != width || self.height != height {
            self.width = width;
            self.height = height;
        }
    }

    /// The range of parametric distances in which hits count.
    pub fn look_clip(&self) -> (r: &Range<i64>)
        ensures
            *r == self@.look_clip,
    {
        &self.look_clip
    }

    pub fn set_look_clip(&mut self, look_clip: Range<i64>)
        ensures
            final(self)@ == (CameraView { look_clip, ..old(self)@ }),
    {
        proof {
            use_type_invariant(&*self);
        }
        self.look_clip = look_clip;
    }

    /// The width of the picture over its height, as a scalar, rounded down.
    pub fn aspect_ratio(&self) -> (r: i64)
        requires
            self@.height > 0,
        ensures
            r == (self@.width * ONE) / (self@.height as int),
    {
        proof {
            lemma_div_bound(self.width * ONE, self.height as int, 0x1_0000_0000_0000);
            assert(0x1_0000_0000_0000 * (self.height as int) >= 0x1_0000_0000_0000)
                by (nonlinear_arith)
                requires
                    self.height >= 1,
            ;
        }
        ((self.width as i64 * ONE) / (self.height as i64)) as i64
    }
}

/// The turn by nothing: its sine is zero and its cosine one.
pub open spec fn no_turn() -> Rotation {
    Rotation { sine: 0, cosine: 65536 }
}

/// A turn by nothing leaves every vector where it is.
pub proof fn lemma_no_turn_of_vector(v: Vec3, axis: Vec3)
    ensures
        rotated_spec(v, axis, no_turn()) == v,
        turned_spec(v, axis, no_turn()) == v,
{
    let spin = axis.cross_spec(v);
    let along = axis.dot_spec(v) / (ONE as int);
    assert(mul_floor(along, 0) == 0) by (nonlinear_arith)
        requires
            ONE == 65536,
    ;
    assert(mul_floor(spin.x as int, 0) == 0 && mul_floor(spin.y as int, 0) == 0 && mul_floor(
        spin.z as int,
        0,
    ) == 0) by (nonlinear_arith)
        requires
            ONE == 65536,
    ;
    assert(mul_floor(axis.x as int, 0) == 0 && mul_floor(axis.y as int, 0) == 0 && mul_floor(
        axis.z as int,
        0,
    ) == 0) by (nonlinear_arith)
        requires
            ONE == 65536,
    ;
    assert(mul_floor(v.x as int, 65536) == v.x && mul_floor(v.y as int, 65536) == v.y
        && mul_floor(v.z as int, 65536) == v.z);
}

/// A turn by nothing leaves a camera as it is.
pub proof fn lemma_no_turn(view: CameraView)
    requires
        view.oriented(),
    ensures
        view.turned(no_turn(), no_turn()) == view,
{
    lemma_no_turn_of_vector(view.look_direction, view.up_direction);
    lemma_no_turn_of_vector(view.look_direction, view.right_direction);
    lemma_no_turn_of_vector(view.right_direction, view.up_direction);
    lemma_no_turn_of_vector(view.right_direction, view.right_direction);
    lemma_no_turn_of_vector(view.up_direction, view.up_direction);
    lemma_no_turn_of_vector(view.up_direction, view.right_direction);
}

/// The axis along X.
pub open spec fn axis_x() -> Vec3 {
    Vec3 { x: 65536, y: 0, z: 0 }
}

/// A vector at right angles to `look` that is not the zero vector where
/// `look` is not: the exact cross product of `look` with `up_hint`, or with
/// the X axis where that vanishes, or with the Y axis where that vanishes
/// too.
pub open spec fn across_spec(look: Vec3, up_hint: Vec3) -> Vec3 {
    if !look.cross_exact_spec(up_hint).is_zero() {
        look.cross_exact_spec(up_hint)
    } else if !look.cross_exact_spec(axis_x()).is_zero() {
        look.cross_exact_spec(axis_x())
    } else {
        look.cross_exact_spec(world_up())
    }
}

/// The two axes that complete the look direction `look` to a frame: to the
/// right the direction of `across_spec(look, up_hint)`, upwards the
/// direction of `right x look`.
pub open spec fn frame_spec(look: Vec3, up_hint: Vec3) -> (Vec3, Vec3) {
    let right = match across_spec(look, up_hint).try_normalize_spec() {
        Some(right) => right,
        None => axis_x(),
    };
    let up = match right.cross_exact_spec(look).try_normalize_spec() {
        Some(up) => up,
        None => up_hint,
    };
    (right, up)
}

/// Every normalized look direction is completed to a frame, whatever the
/// hint.
pub proof fn lemma_frame(look: Vec3, up_hint: Vec3)
    requires
        look.within(ONE as int),
        look.is_normalized_spec(),
        up_hint.within(ONE as int),
    ensures
        is_frame(look, frame_spec(look, up_hint).0, frame_spec(look, up_hint).1),
{
    let across = across_spec(look, up_hint);
    lemma_cross_exact_perpendicular(look, up_hint);
    lemma_cross_exact_perpendicular(look, axis_x());
    lemma_cross_exact_perpendicular(look, world_up());
    assert(!look.is_zero()) by {
        if look.is_zero() {
            assert(look.x * look.x + look.y * look.y + look.z * look.z == 0) by (nonlinear_arith)
                requires
                    look.x == 0 && look.y == 0 && look.z == 0,
            ;
        }
    }
    assert(!across.is_zero()) by {
        let second = look.cross_exact_spec(axis_x());
        let third = look.cross_exact_spec(world_up());
        assert(second.y == look.z * 65536 && second.z == -look.y * 65536);
        assert(third.z == look.x * 65536);
    }
    assert(across.dot_spec(look) == 0);
    lemma_direction_perpendicular(across, look);
    lemma_try_normalize(across);
    let right = across.try_normalize_spec()->0;
    assert(right == frame_spec(look, up_hint).0);
    // the right axis and the look direction span an area that is not zero
    let area = right.cross_exact_spec(look);
    lemma_cross_exact_perpendicular(right, look);
    lemma_cross_exact_length(right, look);
    let (rr, ll, rl) = (right.length_squared_spec(), look.length_squared_spec(), right.dot_spec(
        look,
    ));
    assert(rr * ll >= 0xfff0_0000 * 0xfff0_0000) by (nonlinear_arith)
        requires
            rr >= 0xfff0_0000,
            ll >= 0xfff0_0000,
    ;
    assert(rl * rl <= 0x3_0000 * 0x3_0000) by (nonlinear_arith)
        requires
            -0x3_0000 <= rl <= 0x3_0000,
    ;
    assert(area.length_squared_spec() > 0);
    assert(!area.is_zero()) by {
        if area.is_zero() {
            assert(area.x * area.x + area.y * area.y + area.z * area.z == 0) by (nonlinear_arith)
                requires
                    area.x == 0 && area.y == 0 && area.z == 0,
            ;
        }
    }
    lemma_try_normalize(area);
    lemma_direction_perpendicular(area, look);
    lemma_direction_perpendicular(area, right);
    lemma_direction_along(area);
    let up = area.try_normalize_spec()->0;
    assert(up == frame_spec(look, up_hint).1);
    lemma_dot_commutes(look, right);
    lemma_dot_commutes(look, up);
    lemma_dot_commutes(right, up);
}

/// The product of two vectors does not depend on their order.
pub proof fn lemma_dot_commutes(a: Vec3, b: Vec3)
    ensures
        a.dot_spec(b) == b.dot_spec(a),
{
    assert(a.x * b.x == b.x * a.x && a.y * b.y == b.y * a.y && a.z * b.z == b.z * a.z)
        by (nonlinear_arith);
}

/// Completes the look direction `look` to a frame.
fn frame_axes(look: Vec3, up_hint: Vec3) -> (r: (Vec3, Vec3))
    requires
        look.within(ONE as int),
        look.is_normalized_spec(),
        up_hint.within(ONE as int),
    ensures
        r == frame_spec(look, up_hint),
        is_frame(look, r.0, r.1),
{
    proof {
        lemma_frame(look, up_hint);
    }
    let first = look.cross_exact(up_hint);
    let across = if !(first.x == 0 && first.y == 0 && first.z == 0) {
        first
    } else {
        let second = look.cross_exact(Vec3 { x: ONE, y: 0, z: 0 });
        if !(second.x == 0 && second.y == 0 && second.z == 0) {
            second
        } else {
            look.cross_exact(Vec3 { x: 0, y: ONE, z: 0 })
        }
    };
    let right = match across.try_normalize() {
        Some(right) => right,
        None => Vec3 { x: ONE, y: 0, z: 0 },
    };
    let up = match right.cross_exact(look).try_normalize() {
        Some(up) => up,
        None => up_hint,
    };
    (right, up)
}

/// The cross product of two directions has no component beyond two.
pub proof fn lemma_cross_within(a: Vec3, b: Vec3)
    requires
        a.within(ONE as int),
        b.within(ONE as int),
    ensures
        a.cross_spec(b).within(2 * ONE),
{
    lemma_cross_term_within(a.y as int, b.z as int, a.z as int, b.y as int);
    lemma_cross_term_within(a.z as int, b.x as int, a.x as int, b.z as int);
    lemma_cross_term_within(a.x as int, b.y as int, a.y as int, b.x as int);
}

/// One term of the cross product of two directions is at most two in
/// magnitude.
proof fn lemma_cross_term_within(a: int, b: int, c: int, d: int)
    requires
        -ONE <= a <= ONE,
        -ONE <= b <= ONE,
        -ONE <= c <= ONE,
        -ONE <= d <= ONE,
    ensures
        -2 * ONE <= crate::vec3::cross_term_spec(a, b, c, d) <= 2 * ONE,
{
    lemma_product_within(a, b, 0x1_0000, 0x1_0000);
    lemma_product_within(c, d, 0x1_0000, 0x1_0000);
    lemma_div_bound(a * b - c * d, 0x1_0000, 0x2_0000);
}

/// The direction that points up in the world.
pub open spec fn world_up() -> Vec3 {
    Vec3 { x: 0, y: 65536, z: 0 }
}

/// A fraction of the unit interval as a scalar, rounded down.
pub open spec fn scalar_of(fraction: Fraction) -> int {
    (fraction.numerator * ONE) / (fraction.denominator as int)
}

/// The place of a pixel's sample on one axis of the picture, from -1 at the
/// first pixel's edge to 1 at the last pixel's: `2 * (pixel + jitter - 1/2) /
/// count - 1`.
pub open spec fn sample_coordinate(pixel: int, jitter: int, count: int) -> int {
    (2 * (pixel * ONE + jitter - ONE / 2)) / count - ONE
}

impl CameraView {
    /// The axes to the right and upwards of the view, with no roll against
    /// the world.
    pub open spec fn view_frame(self) -> (Vec3, Vec3) {
        frame_spec(self.look_direction, world_up())
    }

    /// How far to the right of the look direction the sample of column `x`
    /// lies, at distance one.
    pub open spec fn across(self, x: int, jitter: int) -> int {
        (sample_coordinate(x, jitter, self.width as int) * self.half_fov_tangent * self.width) / (
        self.height * ONE)
    }

    /// How far above the look direction the sample of row `y` lies, at
    /// distance one.
    pub open spec fn above(self, y: int, jitter: int) -> int {
        mul_floor(sample_coordinate(y, jitter, self.height as int), self.half_fov_tangent as int)
    }

    /// The direction of the ray through the sample of the pixel in column `x`
    /// of row `y`.
    pub open spec fn ray_direction(self, x: int, y: int, jitter: (i64, i64)) -> Vec3 {
        let (side, up) = self.view_frame();
        let target = side.scaled_spec(self.across(x, jitter.0 as int) as i64).plus_spec(
            up.scaled_spec(self.above(y, jitter.1 as int) as i64),
        ).plus_spec(self.look_direction);
        match target.try_normalize_spec() {
            Some(direction) => direction,
            None => self.look_direction,
        }
    }

    /// The directions of the rays of all pixels, row after row from the
    /// bottom, each row from the left.
    pub open spec fn ray_directions(self, jitter: (i64, i64)) -> Seq<Vec3> {
        Seq::new(
            (self.width * self.height) as nat,
            |i: int| self.ray_direction(i % (self.width as int), i / (self.width as int), jitter),
        )
    }
}

/// The jitter sample that a sampler gives next: its next point, each
/// coordinate as a scalar; no jitter from a sampler at its end.
pub open spec fn jitter_of(sampler: Halton2) -> (i64, i64) {
    if sampler.first().counter() < u32::MAX && sampler.second().counter() < u32::MAX {
        (
            scalar_of(
                radical_inverse(sampler.first().counter(), sampler.first().base()),
            ) as i64,
            scalar_of(
                radical_inverse(sampler.second().counter(), sampler.second().base()),
            ) as i64,
        )
    } else {
        (0, 0)
    }
}

/// Whether both coordinates of a jitter sample lie in the unit interval.
pub open spec fn is_jitter(jitter: (i64, i64)) -> bool {
    0 <= jitter.0 < ONE && 0 <= jitter.1 < ONE
}

/// A fraction as a scalar.
fn fraction_scalar(fraction: Fraction) -> (r: i64)
    requires
        fraction.numerator < fraction.denominator,
    ensures
        r == scalar_of(fraction),
        0 <= r < ONE,
{
    proof {
        let n = fraction.numerator * ONE;
        let d = fraction.denominator as int;
        vstd::arithmetic::div_mod::lemma_fundamental_div_mod(n, d);
        assert(0 <= n / d < ONE) by (nonlinear_arith)
            requires
                n == d * (n / d) + n % d,
                0 <= n % d < d,
                0 <= n < d * ONE,
                d > 0,
        ;
    }
    (((fraction.numerator as u128) * (ONE as u128)) / (fraction.denominator as u128)) as i64
}

fn sample_place(pixel: u32, jitter: i64, count: u32) -> (r: i64)
    requires
        pixel < count <= DIMENSION_MAX,
        0 <= jitter < ONE,
    ensures
        r == sample_coordinate(pixel as int, jitter as int, count as int),
        -2 * ONE <= r <= ONE,
{
    let numerator: i64 = 2 * ((pixel as i64) * ONE + jitter - ONE / 2);
    proof {
        assert((-ONE) * count <= numerator <= (2 * ONE) * count) by (nonlinear_arith)
            requires
                numerator == 2 * (pixel * ONE + jitter - ONE / 2),
                0 <= pixel < count,
                0 <= jitter < ONE,
                ONE == 65536,
        ;
        lemma_div_range(numerator as int, count as int, -ONE, 2 * ONE);
    }
    floor_div(numerator as i128, count as i128) as i64 - ONE
}

impl Camera {
    /// Turns the camera towards `look_direction`, and its other two axes
    /// with it. Only the zero vector, which has no direction, leaves the
    /// camera as it is.
    pub fn set_look_direction(&mut self, look_direction: Vec3)
        requires
            look_direction.within(crate::vec3::NORMALIZE_MAX as int),
        ensures
            final(self)@ == old(self)@.looking_along(look_direction),
            final(self)@.oriented(),
            look_direction.is_zero() ==> final(self)@ == old(self)@,
            !look_direction.is_zero() ==> look_direction.try_normalize_spec() == Some(
                final(self)@.look_direction,
            ),
    {
        proof {
            use_type_invariant(&*self);
        }
        if let Some(normalized) = look_direction.try_normalize() {
            let (right, up) = frame_axes(normalized, self.axes.up);
            self.axes = Axes { look: normalized, right, up };
        }
    }

    /// The ray directions of all pixels for the jitter sample `jitter`.
    pub fn ray_directions(&self, jitter: (i64, i64)) -> (r: Vec<Vec3>)
        requires
            self@.wf(),
            is_jitter(jitter),
        ensures
            r@ == self@.ray_directions(jitter),
            forall|i: int|
                0 <= i < r@.len() ==> (#[trigger] r@[i]).within(ONE as int)
                    && r@[i].is_normalized_spec(),
    {
        proof {
            use_type_invariant(self);
        }
        let (side, up) = frame_axes(self.axes.look, Vec3 { x: 0, y: ONE, z: 0 });
        let mut ray_directions: Vec<Vec3> = Vec::new();
        let ghost view = self@;
        let width = self.width;
        let height = self.height;
        let tangent = self.half_fov_tangent;
        let mut y: u32 = 0;
        while y < height
            invariant
                view == self@,
                view.wf(),
                is_jitter(jitter),
                width == view.width,
                height == view.height,
                tangent == view.half_fov_tangent,
                (side, up) == view.view_frame(),
                side.within(ONE as int),
                up.within(ONE as int),
                view.look_direction.is_normalized_spec(),
                y <= height,
                ray_directions@.len() == y * width,
                forall|i: int|
                    0 <= i < ray_directions@.len() ==> #[trigger] ray_directions@[i]
                        == view.ray_direction(i % (width as int), i / (width as int), jitter),
                forall|i: int|
                    0 <= i < ray_directions@.len() ==> (#[trigger] ray_directions@[i]).within(
                        ONE as int,
                    ) && ray_directions@[i].is_normalized_spec(),
            decreases height - y,
        {
            let row: i64 = sample_place(y, jitter.1, height);
            proof {
                lemma_mul_floor_within(row as int, tangent as int, 0x2_0000, 0x10_0000);
            }
            let above: i64 = mul_fixed(row, tangent);
            let mut x: u32 = 0;
            while x < width
                invariant
                    view == self@,
                    view.wf(),
                    is_jitter(jitter),
                    width == view.width,
                    height == view.height,
                    tangent == view.half_fov_tangent,
                    (side, up) == view.view_frame(),
                    side.within(ONE as int),
                    up.within(ONE as int),
                    view.look_direction.is_normalized_spec(),
                    y < height,
                    x <= width,
                    above == view.above(y as int, jitter.1 as int),
                    -0x20_0000 <= above <= 0x20_0000,
                    ray_directions@.len() == y * width + x,
                    forall|i: int|
                        0 <= i < ray_directions@.len() ==> #[trigger] ray_directions@[i]
                            == view.ray_direction(i % (width as int), i / (width as int), jitter),
                    forall|i: int|
                        0 <= i < ray_directions@.len() ==> (#[trigger] ray_directions@[i]).within(
                            ONE as int,
                        ) && ray_directions@[i].is_normalized_spec(),
                decreases width - x,
            {
                let column: i64 = sample_place(x, jitter.0, width);
                proof {
                    lemma_product_within(column as int, tangent as int, 0x2_0000, 0x10_0000);
                    lemma_product_within(
                        column * tangent,
                        width as int,
                        0x20_0000_0000,
                        0x1_0000,
                    );
                    let n = column * tangent * width;
                    let d = height * ONE;
                    assert(-0x20_0000_0000_0000 <= n <= 0x20_0000_0000_0000);
                    assert(0x20_0000_0000 * d >= 0x20_0000_0000_0000 && -0x20_0000_0000 * d
                        <= -0x20_0000_0000_0000) by (nonlinear_arith)
                        requires
                            d == height * ONE,
                            height >= 1,
                            ONE == 65536,
                    ;
                    lemma_div_bound(n, d, 0x20_0000_0000);
                }
                let across: i64 = floor_div(
                    (column as i128) * (tangent as i128) * (width as i128),
                    (height as i128) * (ONE as i128),
                ) as i64;
                proof {
                    lemma_mul_floor_within(side.x as int, across as int, 0x1_0000, 0x20_0000_0000);
                    lemma_mul_floor_within(side.y as int, across as int, 0x1_0000, 0x20_0000_0000);
                    lemma_mul_floor_within(side.z as int, across as int, 0x1_0000, 0x20_0000_0000);
                    lemma_mul_floor_within(up.x as int, above as int, 0x1_0000, 0x20_0000);
                    lemma_mul_floor_within(up.y as int, above as int, 0x1_0000, 0x20_0000);
                    lemma_mul_floor_within(up.z as int, above as int, 0x1_0000, 0x20_0000);
                }
                let target = side.scaled(across).plus(up.scaled(above)).plus(self.axes.look);
                let direction = match target.try_normalize() {
                    Some(direction) => direction,
                    None => self.axes.look,
                };
                proof {
                    let i = y * width + x;
                    vstd::arithmetic::div_mod::lemma_fundamental_div_mod_converse(
                        i,
                        width as int,
                        y as int,
                        x as int,
                    );
                    assert(direction == view.ray_direction(x as int, y as int, jitter));
                }
                ray_directions.push(direction);
                x += 1;
            }
            proof {
                assert(y * width + width == (y + 1) * width) by (nonlinear_arith);
            }
            y += 1;
        }
        proof {
            assert(height * width == width * height) by (nonlinear_arith);
            assert(ray_directions@ =~= view.ray_directions(jitter));
        }
        ray_directions
    }

    /// The ray directions of all pixels, for the next sample of the camera's
    /// jitter sampler: one sample for the whole picture. A sampler at its end
    /// gives the sample without jitter.
    pub fn get_ray_directions(&self) -> (r: Vec<Vec3>)
        requires
            self@.wf(),
        ensures
            exists|sampler: Halton2|
                is_jitter(jitter_of(sampler)) && r@ == #[trigger] self@.ray_directions(
                    jitter_of(sampler),
                ),
            r@.len() == self@.width * self@.height,
            forall|i: int|
                0 <= i < r@.len() ==> (#[trigger] r@[i]).within(ONE as int)
                    && r@[i].is_normalized_spec(),
    {
        let mut sampler = load_jitter(&self.jitter);
        let ghost loaded = sampler;
        let directions = self.ray_directions_drawing(&mut sampler);
        store_jitter(&self.jitter, sampler);
        assert(is_jitter(jitter_of(loaded)));
        directions
    }

    /// The ray directions of all pixels, for the next sample of `sampler`,
    /// which moves on by that sample. A sampler at its end gives the sample
    /// without jitter.
    pub fn ray_directions_drawing(&self, sampler: &mut Halton2) -> (r: Vec<Vec3>)
        requires
            self@.wf(),
        ensures
            is_jitter(jitter_of(*old(sampler))),
            r@ == self@.ray_directions(jitter_of(*old(sampler))),
            final(sampler).first().base() == old(sampler).first().base(),
            final(sampler).second().base() == old(sampler).second().base(),
            final(sampler).first().counter() == if old(sampler).first().counter() < u32::MAX {
                old(sampler).first().counter() + 1
            } else {
                old(sampler).first().counter()
            },
            final(sampler).second().counter() == if old(sampler).second().counter() < u32::MAX {
                old(sampler).second().counter() + 1
            } else {
                old(sampler).second().counter()
            },
            forall|i: int|
                0 <= i < r@.len() ==> (#[trigger] r@[i]).within(ONE as int)
                    && r@[i].is_normalized_spec(),
    {
        let point = sampler.next();
        let jitter: (i64, i64) = match point {
            Some((jx, jy)) => (fraction_scalar(jx), fraction_scalar(jy)),
            None => (0, 0),
        };
        self.ray_directions(jitter)
    }
}

} // verus!
