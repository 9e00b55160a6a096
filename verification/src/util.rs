//! Colour packing, and the vector operations of shading.

use crate::fixed::{
    floor_div, lemma_div_bound, lemma_mul_floor_within, lemma_product_within, ONE,
};
use crate::vec3::Vec3;
use rand::Rng;
use vstd::prelude::*;

verus! {

/// The largest magnitude of a component of a vector that `reflect` accepts.
pub const REFLECT_MAX: i64 = 0x100_0000_0000;

/// How many candidates are drawn at most for a point of the unit ball, one
/// after the other, before the zero vector is returned in its place.
pub const DRAW_ATTEMPTS: u32 = 64;

/// How many points of the unit ball are drawn at most for a direction, one
/// after the other, before the Z axis is returned in its place.
pub const DIRECTION_ATTEMPTS: u32 = 4;

/// A colour channel, cut to `0 ..= ONE`, as a byte: `255 * channel`, rounded
/// down.
pub open spec fn channel_byte(channel: int) -> int {
    if channel <= 0 {
        0
    } else if channel >= ONE {
        255
    } else {
        (channel * 255) / (ONE as int)
    }
}

/// Four bytes as one word, the first in the low byte.
pub open spec fn pack_bytes(r: int, g: int, b: int, a: int) -> int {
    r + 0x100 * g + 0x1_0000 * b + 0x100_0000 * a
}

fn color_channel(channel: i64) -> (byte: u32)
    ensures
        byte == channel_byte(channel as int),
        byte <= 255,
{
    if channel <= 0 {
        0
    } else if channel >= ONE {
        255
    } else {
        proof {
            lemma_div_bound(channel * 255, ONE as int, 255);
        }
        ((channel * 255) / ONE) as u32
    }
}

/// Packs a colour with opacity into one word: red in the low byte, then
/// green, blue and opacity. Each channel is cut to `0 ..= ONE` first.
pub fn color_rgba(r: i64, g: i64, b: i64, a: i64) -> (word: u32)
    ensures
        word == pack_bytes(channel_byte(r as int), channel_byte(g as int), channel_byte(b as int),
            channel_byte(a as int)),
{
    let r: u32 = color_channel(r);
    let g: u32 = color_channel(g);
    let b: u32 = color_channel(b);
    let a: u32 = color_channel(a);
    assert(a << 24 | b << 16 | g << 8 | r == r + 0x100 * g + 0x1_0000 * b + 0x100_0000 * a)
        by (bit_vector)
        requires
            r <= 255,
            g <= 255,
            b <= 255,
            a <= 255,
    ;
    a << 24 | b << 16 | g << 8 | r
}

/// The word of an opaque colour.
pub open spec fn color_rgb_spec(c: Vec3) -> int {
    pack_bytes(channel_byte(c.x as int), channel_byte(c.y as int), channel_byte(c.z as int), 255)
}

/// Packs an opaque colour into one word.
pub fn color_rgb(c: Vec3) -> (word: u32)
    ensures
        word == color_rgb_spec(c),
        word >= 0xff00_0000,
{
    color_rgba(c.x, c.y, c.z, ONE)
}

/// The byte `k` of a word, counted from the low end.
pub open spec fn byte_of(word: u32, k: int) -> u8 {
    if k == 0 {
        (word & 0xff) as u8
    } else if k == 1 {
        ((word >> 8) & 0xff) as u8
    } else if k == 2 {
        ((word >> 16) & 0xff) as u8
    } else {
        ((word >> 24) & 0xff) as u8
    }
}

/// The place, in a picture whose rows run from the bottom, of the pixel that
/// has the place `i` in the same picture with rows from the top.
pub open spec fn flipped(i: int, width: int, height: int) -> int {
    i % width + (height - 1 - i / width) * width
}

/// The bytes of a picture with its rows from the top: of each pixel red,
/// green, blue and opacity.
pub open spec fn top_down_bytes_spec(image: Seq<u32>, width: int, height: int) -> Seq<u8> {
    Seq::new(
        (4 * width * height) as nat,
        |j: int| byte_of(image[flipped(j / 4, width, height)], j % 4),
    )
}

/// Turns a picture of words, rows from the bottom, into its bytes, rows from
/// the top: four bytes per pixel, red first.
pub fn top_down_bytes(image: &[u32], width: u32, height: u32) -> (bytes: Vec<u8>)
    requires
        image@.len() == width * height,
        4 * width * height <= usize::MAX,
    ensures
        bytes@ == top_down_bytes_spec(image@, width as int, height as int),
{
    let ghost w = width as int;
    let ghost h = height as int;
    let mut bytes: Vec<u8> = Vec::new();
    let mut row: u32 = 0;
    while row < height
        invariant
            w == width,
            h == height,
            image@.len() == w * h,
            4 * w * h <= usize::MAX,
            row <= height,
            bytes@.len() == 4 * (row * w),
            forall|j: int|
                0 <= j < bytes@.len() ==> #[trigger] bytes@[j] == byte_of(
                    image@[flipped(j / 4, w, h)],
                    j % 4,
                ),
        decreases height - row,
    {
        let source_row: u32 = height - 1 - row;
        let mut x: u32 = 0;
        while x < width
            invariant
                w == width,
                h == height,
                image@.len() == w * h,
                4 * w * h <= usize::MAX,
                row < height,
                source_row == h - 1 - row,
                x <= width,
                bytes@.len() == 4 * (row * w + x),
                forall|j: int|
                    0 <= j < bytes@.len() ==> #[trigger] bytes@[j] == byte_of(
                        image@[flipped(j / 4, w, h)],
                        j % 4,
                    ),
            decreases width - x,
        {
            proof {
                assert(0 <= source_row * w && source_row * w + x < w * h) by (nonlinear_arith)
                    requires
                        0 <= source_row < h,
                        0 <= x < w,
                ;
                assert(w * h <= 4 * w * h) by (nonlinear_arith)
                    requires
                        0 <= w,
                        0 <= h,
                ;
                assert(0 <= row * w + x < w * h) by (nonlinear_arith)
                    requires
                        0 <= row < h,
                        0 <= x < w,
                ;
                vstd::arithmetic::div_mod::lemma_fundamental_div_mod_converse(
                    row * w + x,
                    w,
                    row as int,
                    x as int,
                );
                assert(flipped(row * w + x, w, h) == source_row * w + x);
            }
            let index: usize = source_row as usize * width as usize + x as usize;
            let word: u32 = image[index];
            let ghost before = bytes@;
            assert(word & 0xff < 0x100 && (word >> 8) & 0xff < 0x100 && (word >> 16) & 0xff
                < 0x100 && (word >> 24) & 0xff < 0x100) by (bit_vector);
            bytes.push((word & 0xff) as u8);
            bytes.push(((word >> 8) & 0xff) as u8);
            bytes.push(((word >> 16) & 0xff) as u8);
            bytes.push(((word >> 24) & 0xff) as u8);
            proof {
                let i = row * w + x;
                assert(bytes@.len() == 4 * i + 4);
                assert forall|j: int| 0 <= j < bytes@.len() implies #[trigger] bytes@[j]
                    == byte_of(image@[flipped(j / 4, w, h)], j % 4) by {
                    if j < 4 * i {
                        assert(bytes@[j] == before[j]);
                    } else {
                        assert(j / 4 == i && j % 4 == j - 4 * i);
                    }
                }
            }
            x += 1;
        }
        proof {
            assert(row * w + w == (row + 1) * w) by (nonlinear_arith);
        }
        row += 1;
    }
    proof {
        assert(4 * (h * w) == 4 * w * h) by (nonlinear_arith);
        assert(bytes@ =~= top_down_bytes_spec(image@, w, h));
    }
    bytes
}

/// `rand::Rng::gen` on the generator of the thread, `rand::thread_rng`: one
/// random word. Nothing is claimed of the word.
#[verifier::external_body]
fn random_word() -> (word: u32) {
    rand::thread_rng().gen::<u32>()
}

/// The scalar that a random word stands for: its 17 high bits, as a number
/// from 0 up to two, less one.
pub open spec fn coordinate_spec(word: u32) -> int {
    (word >> 15) - ONE
}

/// Turns a random word into a scalar in `-ONE .. ONE`.
pub fn coordinate_of(word: u32) -> (r: i64)
    ensures
        r == coordinate_spec(word),
        -ONE <= r < ONE,
{
    let high: u32 = word >> 15;
    assert(word >> 15 < 0x2_0000) by (bit_vector);
    high as i64 - ONE
}

/// A scalar in `-ONE .. ONE`, from the high bits of one random word.
fn random_coordinate() -> (r: i64)
    ensures
        -ONE <= r < ONE,
{
    coordinate_of(random_word())
}

/// The operations of shading on vectors.
pub trait Vec3Ext: Sized {
    /// Whether `reflect` accepts the vector with this normal.
    spec fn reflects(self, normal: Self) -> bool;

    /// The vector mirrored at the line along `normal`.
    spec fn reflect_spec(self, normal: Self) -> Self;

    /// Whether the vector lies strictly inside the unit ball.
    spec fn in_unit_ball(self) -> bool;

    /// Whether the vector is a direction: normalized, with no component
    /// beyond one.
    spec fn is_direction(self) -> bool;

    /// Returns the vector reflected across the given normal.
    fn reflect(self, normal: Self) -> (r: Self)
        requires
            self.reflects(normal),
        ensures
            r == self.reflect_spec(normal),
    ;

    /// Draws a point strictly inside the unit ball.
    fn random_in_unit_sphere() -> (r: Self)
        ensures
            r.in_unit_ball(),
    ;

    /// Draws a direction.
    fn random_unit() -> (r: Self)
        ensures
            r.is_direction(),
    ;
}

/// A bounded vector can be reflected at a normalized normal.
pub open spec fn vec3_reflects(v: Vec3, normal: Vec3) -> bool {
    v.within(REFLECT_MAX as int) && normal.is_normalized_spec()
}

/// The part of `v` along the normalized `normal`, as a scalar, rounded down.
pub open spec fn along(v: Vec3, normal: Vec3) -> int {
    v.dot_spec(normal) / (ONE as int)
}

/// `v` less twice the part of it that is at right angles to `normal`.
pub open spec fn vec3_reflect_spec(v: Vec3, normal: Vec3) -> Vec3 {
    let rejection = v.minus_spec(normal.scaled_spec(along(v, normal) as i64));
    v.minus_spec(rejection.plus_spec(rejection))
}

/// No component of a normalized vector exceeds one by more than a few units.
pub proof fn lemma_normalized_within(normal: Vec3)
    requires
        normal.is_normalized_spec(),
    ensures
        normal.within(ONE + 8),
{
    assert(ONE * ONE == 0x1_0000_0000);
    assert(0 <= normal.x * normal.x && 0 <= normal.y * normal.y && 0 <= normal.z * normal.z)
        by (nonlinear_arith);
    assert(-(ONE + 8) <= normal.x <= ONE + 8) by (nonlinear_arith)
        requires
            normal.x * normal.x <= 0x1_0000_0000 + 858993,
            ONE == 65536,
    ;
    assert(-(ONE + 8) <= normal.y <= ONE + 8) by (nonlinear_arith)
        requires
            normal.y * normal.y <= 0x1_0000_0000 + 858993,
            ONE == 65536,
    ;
    assert(-(ONE + 8) <= normal.z <= ONE + 8) by (nonlinear_arith)
        requires
            normal.z * normal.z <= 0x1_0000_0000 + 858993,
            ONE == 65536,
    ;
}

impl Vec3Ext for Vec3 {
    open spec fn reflects(self, normal: Vec3) -> bool {
        vec3_reflects(self, normal)
    }

    open spec fn reflect_spec(self, normal: Vec3) -> Vec3 {
        vec3_reflect_spec(self, normal)
    }

    open spec fn in_unit_ball(self) -> bool {
        self.length_squared_spec() < ONE * ONE
    }

    open spec fn is_direction(self) -> bool {
        self.within(ONE as int) && self.is_normalized_spec()
    }

    fn reflect(self, normal: Vec3) -> (r: Vec3) {
        proof {
            lemma_normalized_within(normal);
            lemma_product_within(self.x as int, normal.x as int, 0x100_0000_0000, 0x1_0008);
            lemma_product_within(self.y as int, normal.y as int, 0x100_0000_0000, 0x1_0008);
            lemma_product_within(self.z as int, normal.z as int, 0x100_0000_0000, 0x1_0008);
            lemma_div_bound(self.dot_spec(normal), 0x1_0000, 0x300_1800_0000);
        }
        let along: i64 = floor_div(self.dot(normal), ONE as i128) as i64;
        proof {
            lemma_mul_floor_within(normal.x as int, along as int, 0x2_0000, 0x300_1800_0000);
            lemma_mul_floor_within(normal.y as int, along as int, 0x2_0000, 0x300_1800_0000);
            lemma_mul_floor_within(normal.z as int, along as int, 0x2_0000, 0x300_1800_0000);
        }
        let rejection = self.minus(normal.scaled(along));
        self.minus(rejection.plus(rejection))
    }

    fn random_in_unit_sphere() -> (r: Vec3) {
        let mut drawn: u32 = 0;
        while drawn < DRAW_ATTEMPTS
            invariant
                drawn <= DRAW_ATTEMPTS,
            decreases DRAW_ATTEMPTS - drawn,
        {
            let mut candidates: Vec<Vec3> = Vec::new();
            candidates.push(
                Vec3 { x: random_coordinate(), y: random_coordinate(), z: random_coordinate() },
            );
            if let Some(v) = first_in_ball(&candidates) {
                return v;
            }
            drawn += 1;
        }
        Vec3 { x: 0, y: 0, z: 0 }
    }

    fn random_unit() -> (r: Vec3) {
        let mut drawn: u32 = 0;
        while drawn < DIRECTION_ATTEMPTS
            invariant
                drawn <= DIRECTION_ATTEMPTS,
            decreases DIRECTION_ATTEMPTS - drawn,
        {
            let v = Self::random_in_unit_sphere();
            proof {
                lemma_ball_within(v);
            }
            let mut candidates: Vec<Vec3> = Vec::new();
            candidates.push(v);
            if let Some(n) = first_direction(&candidates) {
                return n;
            }
            drawn += 1;
        }
        Vec3 { x: 0, y: 0, z: ONE }
    }
}

/// Whether the candidate at the place `i` is the first one strictly inside
/// the unit ball.
pub open spec fn is_first_in_ball(candidates: Seq<Vec3>, i: int) -> bool {
    &&& 0 <= i < candidates.len()
    &&& candidates[i].in_unit_ball()
    &&& forall|j: int| 0 <= j < i ==> !(#[trigger] candidates[j]).in_unit_ball()
}

/// The first of the candidates that lies strictly inside the unit ball;
/// nothing where none does.
pub fn first_in_ball(candidates: &Vec<Vec3>) -> (r: Option<Vec3>)
    requires
        forall|i: int|
            0 <= i < candidates@.len() ==> (#[trigger] candidates@[i]).within(ONE as int),
    ensures
        r matches Some(v) ==> exists|i: int| #[trigger]
            is_first_in_ball(candidates@, i) && candidates@[i] == v,
        r is None <==> forall|i: int|
            0 <= i < candidates@.len() ==> !(#[trigger] candidates@[i]).in_unit_ball(),
{
    let mut i: usize = 0;
    while i < candidates.len()
        invariant
            i <= candidates@.len(),
            forall|k: int|
                0 <= k < candidates@.len() ==> (#[trigger] candidates@[k]).within(ONE as int),
            forall|j: int| 0 <= j < i ==> !(#[trigger] candidates@[j]).in_unit_ball(),
        decreases candidates.len() - i,
    {
        let v = candidates[i];
        if v.length_squared() < 0x1_0000_0000 {
            assert(is_first_in_ball(candidates@, i as int));
            return Some(v);
        }
        i += 1;
    }
    None
}

/// Whether the candidate at the place `i` is the first one that has a
/// direction.
pub open spec fn is_first_direction(candidates: Seq<Vec3>, i: int) -> bool {
    &&& 0 <= i < candidates.len()
    &&& !candidates[i].is_zero()
    &&& forall|j: int| 0 <= j < i ==> (#[trigger] candidates[j]).is_zero()
}

/// The direction of the first of the candidates that has one; nothing where
/// all are the zero vector.
pub fn first_direction(candidates: &Vec<Vec3>) -> (r: Option<Vec3>)
    requires
        forall|i: int|
            0 <= i < candidates@.len() ==> (#[trigger] candidates@[i]).within(ONE as int),
    ensures
        r matches Some(n) ==> n.is_direction() && exists|i: int| #[trigger]
            is_first_direction(candidates@, i) && candidates@[i].try_normalize_spec() == Some(n),
        r is None <==> forall|i: int|
            0 <= i < candidates@.len() ==> (#[trigger] candidates@[i]).is_zero(),
{
    let mut i: usize = 0;
    while i < candidates.len()
        invariant
            i <= candidates@.len(),
            forall|k: int|
                0 <= k < candidates@.len() ==> (#[trigger] candidates@[k]).within(ONE as int),
            forall|j: int| 0 <= j < i ==> (#[trigger] candidates@[j]).is_zero(),
        decreases candidates.len() - i,
    {
        if let Some(n) = candidates[i].try_normalize() {
            assert(is_first_direction(candidates@, i as int));
            return Some(n);
        }
        i += 1;
    }
    None
}

/// No component of a point inside the unit ball reaches one.
pub proof fn lemma_ball_within(v: Vec3)
    requires
        v.length_squared_spec() < ONE * ONE,
    ensures
        v.within(ONE as int),
{
    assert(ONE * ONE == 0x1_0000_0000);
    assert(0 <= v.x * v.x && 0 <= v.y * v.y && 0 <= v.z * v.z) by (nonlinear_arith);
    assert(-ONE <= v.x <= ONE) by (nonlinear_arith)
        requires
            v.x * v.x < 0x1_0000_0000,
            ONE == 65536,
    ;
    assert(-ONE <= v.y <= ONE) by (nonlinear_arith)
        requires
            v.y * v.y < 0x1_0000_0000,
            ONE == 65536,
    ;
    assert(-ONE <= v.z <= ONE) by (nonlinear_arith)
        requires
            v.z * v.z < 0x1_0000_0000,
            ONE == 65536,
    ;
}

} // verus!
