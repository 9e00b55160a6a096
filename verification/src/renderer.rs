//! The renderer: traces the rays of a camera through a scene, frame after
//! frame, and averages the frames into a picture.

use crate::camera::{is_jitter, jitter_of, Camera};
use crate::fixed::{lemma_div_range, mul_floor, ONE, WORLD_MAX};
use crate::geom::{lemma_reach, Ray};
use crate::halton::Halton2;
use crate::hittable::{clip_wf, nearest_hit, HitPayload};
use crate::material::{is_color, scattered_toward, Material, SCATTER_OFFSET};
use crate::scene::Scene;
use crate::util::{color_rgb, color_rgb_spec, Vec3Ext};
use crate::vec3::Vec3;
use rayon::iter::{IntoParallelIterator, ParallelIterator};
use rayon::ThreadPool;
use rayon::ThreadPoolBuildError;
use vstd::prelude::*;

verus! {

/// How many surfaces a ray is followed over before it counts as absorbed.
pub const BOUNCE_BUDGET: u32 = 16;

/// The colour of the sky: what a ray gathers that leaves the scene.
pub open spec fn sky_color_spec() -> Vec3 {
    Vec3 { x: 39322, y: 45875, z: 58982 }
}

/// The colour of the sky.
pub fn sky_color() -> (r: Vec3)
    ensures
        r == sky_color_spec(),
{
    Vec3 { x: 39322, y: 45875, z: 58982 }
}

/// Black: what an absorbed ray gathers.
pub open spec fn black() -> Vec3 {
    Vec3 { x: 0, y: 0, z: 0 }
}

/// Whether no channel of `a` exceeds that channel of `b`.
pub open spec fn channels_le(a: Vec3, b: Vec3) -> bool {
    a.x <= b.x && a.y <= b.y && a.z <= b.z
}

/// A colour tinted with another is a colour, and no brighter than either.
pub proof fn lemma_tint(a: Vec3, b: Vec3)
    requires
        is_color(a),
        is_color(b),
    ensures
        is_color(a.times_spec(b)),
        channels_le(a.times_spec(b), a),
        channels_le(a.times_spec(b), b),
        0 <= mul_floor(a.x as int, b.x as int) <= ONE,
        0 <= mul_floor(a.y as int, b.y as int) <= ONE,
        0 <= mul_floor(a.z as int, b.z as int) <= ONE,
{
    lemma_tint_channel(a.x as int, b.x as int);
    lemma_tint_channel(a.y as int, b.y as int);
    lemma_tint_channel(a.z as int, b.z as int);
}

/// The product of two channels is a channel, and no larger than either.
pub proof fn lemma_tint_channel(a: int, b: int)
    requires
        0 <= a <= ONE,
        0 <= b <= ONE,
    ensures
        0 <= mul_floor(a, b) <= a,
        mul_floor(a, b) <= b,
{
    assert(0 <= a * b <= a * ONE && a * b <= b * ONE) by (nonlinear_arith)
        requires
            0 <= a <= ONE,
            0 <= b <= ONE,
    ;
    assert(0 * ONE == 0);
    lemma_div_range(a * b, ONE as int, 0, a);
    lemma_div_range(a * b, ONE as int, 0, b);
}

/// `rayon::ThreadPool`: a pool of worker threads.
#[verifier::external_type_specification]
#[verifier::external_body]
pub struct ExThreadPool(rayon::ThreadPool);

/// `rayon::ThreadPoolBuildError`: why a pool could not be built.
#[verifier::external_type_specification]
#[verifier::external_body]
pub struct ExThreadPoolBuildError(rayon::ThreadPoolBuildError);

/// The worker threads that a pool holds, by their indices in the pool.
pub uninterp spec fn pool_workers(pool: ThreadPool) -> Set<nat>;

/// `rayon::ThreadPoolBuilder::build`, on the default builder with
/// `num_threads` set: a pool of workers or the reason why there is none. With
/// 0 threads rayon picks the number itself. Whether a pool is built is not
/// claimed. Of a pool that is built it is claimed that it holds finitely
/// many workers and, where a number of threads other than 0 was asked for,
/// at most that number: rayon makes the smaller of that number and its own
/// maximum, which is 255 or more, so up to 255 it is that number.
#[verifier::external_body]
fn build_pool(num_threads: usize) -> (r: Result<ThreadPool, ThreadPoolBuildError>)
    ensures
        r matches Ok(pool) ==> pool_workers(pool).finite() && (num_threads > 0
            ==> pool_workers(pool).len() <= num_threads) && (0 < num_threads <= 255
            ==> pool_workers(pool).len() == num_threads),
{
    rayon::ThreadPoolBuilder::default().num_threads(num_threads).build()
}

/// `rayon::ThreadPool::current_num_threads`: the number of workers that the
/// pool holds.
#[verifier::external_body]
fn pool_threads(pool: &ThreadPool) -> (r: usize)
    ensures
        r == pool_workers(*pool).len(),
{
    pool.current_num_threads()
}

/// `rayon::ThreadPool::install` around `for_each` on the zip of the sums and
/// the rays: on the pool's workers, `accumulate_pixel` runs once on each pair
/// of a sum and the ray at the same place. The zip is as long as the shorter
/// of the two, so sums beyond the last ray stay as they are.
#[verifier::external_body]
fn trace_all(
    pool: &ThreadPool,
    frame: &RenderFrame,
    accumulation: &mut Vec<Vec3>,
    rays: Vec<Ray>,
)
    requires
        frame.wf(),
        forall|i: int| 0 <= i < rays@.len() ==> RenderFrame::traceable(#[trigger] rays@[i]),
        forall|i: int|
            0 <= i < old(accumulation)@.len() ==> (#[trigger] old(accumulation)@[i]).within(
                0x4000_0000_0000_0000 - ONE,
            ),
    ensures
        final(accumulation)@.len() == old(accumulation)@.len(),
        forall|i: int|
            0 <= i < old(accumulation)@.len() && i < rays@.len() ==> frame.pixel_step(
                rays@[i],
                old(accumulation)@[i],
                #[trigger] final(accumulation)@[i],
            ),
        forall|i: int|
            rays@.len() <= i < old(accumulation)@.len() ==> #[trigger] final(accumulation)@[i]
                == old(accumulation)@[i],
{
    pool.install(
        || {
            (accumulation, rays).into_par_iter().for_each(
                |(accumulated, ray)| frame.accumulate_pixel(accumulated, ray),
            );
        },
    );
}

/// `rayon::ThreadPool::install` around `for_each` on the zip of the sums and
/// the picture: on the pool's workers, `resolve_pixel` runs once on each pair
/// of a sum and the pixel at the same place. The zip is as long as the
/// shorter of the two, so pixels beyond the last sum stay as they are.
#[verifier::external_body]
fn resolve_all(
    pool: &ThreadPool,
    accumulation: &Vec<Vec3>,
    frame_count: u64,
    image_data: &mut Vec<u32>,
)
    requires
        frame_count > 0,
    ensures
        final(image_data)@.len() == old(image_data)@.len(),
        forall|i: int|
            0 <= i < old(image_data)@.len() && i < accumulation@.len() ==> resolved(
                accumulation@[i],
                frame_count,
            ) == #[trigger] final(image_data)@[i],
        forall|i: int|
            accumulation@.len() <= i < old(image_data)@.len() ==> #[trigger] final(image_data)@[i]
                == old(image_data)@[i],
{
    pool.install(
        || {
            (accumulation, image_data).into_par_iter().for_each(
                |(accumulated, output)| resolve_pixel(accumulated, frame_count, output),
            );
        },
    );
}

/// The pixel of a sum of `frame_count` frames: the word of their average.
pub open spec fn resolved(accumulated: Vec3, frame_count: u64) -> u32 {
    color_rgb_spec(accumulated.divided_spec(frame_count as int)) as u32
}

/// Turns the sum of `frame_count` frames into a pixel.
pub fn resolve_pixel(accumulated: &Vec3, frame_count: u64, output: &mut u32)
    requires
        frame_count > 0,
    ensures
        *final(output) == resolved(*accumulated, frame_count),
{
    *output = color_rgb(accumulated.divided(frame_count));
}

/// The most frames that a renderer adds up.
pub const FRAMES_MAX: u64 = 0x100_0000_0000;

/// Why a renderer could not be given its workers.
#[derive(Clone, Copy, Debug, PartialEq, Eq, Structural)]
pub enum RendererError {
    /// No pool of `num_threads` workers could be built.
    ThreadPool { num_threads: usize },
}

/// A progressive renderer: it keeps, for each pixel, the sum of the radiance
/// of all frames since the last reset, and the picture made from the sums.
pub struct Renderer {
    image_data: Vec<u32>,
    accumulation: Vec<Vec3>,
    frame_count: u64,
    width: u32,
    height: u32,
    pub use_accumulation: bool,
    pool: ThreadPool,
}

/// What a renderer holds.
pub struct RendererView {
    /// The picture: one word per pixel, row after row from the bottom.
    pub image: Seq<u32>,
    /// The sum of the radiance of all frames, per pixel.
    pub accumulation: Seq<Vec3>,
    /// The number of frames in the sums.
    pub frame_count: u64,
    pub width: u32,
    pub height: u32,
    pub use_accumulation: bool,
    /// The number of workers in the renderer's pool.
    pub workers: nat,
}

impl View for Renderer {
    type V = RendererView;

    closed spec fn view(&self) -> RendererView {
        RendererView {
            image: self.image_data@,
            accumulation: self.accumulation@,
            frame_count: self.frame_count,
            width: self.width,
            height: self.height,
            use_accumulation: self.use_accumulation,
            workers: pool_workers(self.pool).len(),
        }
    }
}

/// The sums of a picture of `length` pixels without a frame.
pub open spec fn no_radiance(length: int) -> Seq<Vec3> {
    Seq::new(length as nat, |i: int| black())
}

/// Whether `after` is `before` and `frames` colours more.
pub open spec fn gained(before: Vec3, after: Vec3, frames: int) -> bool {
    &&& before.x <= after.x <= before.x + frames * ONE
    &&& before.y <= after.y <= before.y + frames * ONE
    &&& before.z <= after.z <= before.z + frames * ONE
}

/// Whether `after` is `before` and `frames` times `color` more.
pub open spec fn gained_exactly(before: Vec3, after: Vec3, color: Vec3, frames: int) -> bool {
    &&& after.x == before.x + frames * color.x
    &&& after.y == before.y + frames * color.y
    &&& after.z == before.z + frames * color.z
}

impl RendererView {
    /// The number of pixels.
    pub open spec fn pixels(self) -> int {
        self.width * self.height
    }

    /// Whether there is one sum and one word of the picture per pixel, and
    /// each sum is one of `frame_count` colours, with room for more frames.
    pub open spec fn wf(self) -> bool {
        &&& self.accumulation.len() == self.pixels()
        &&& self.image.len() == self.pixels()
        &&& self.frame_count <= FRAMES_MAX
        &&& forall|i: int|
            0 <= i < self.accumulation.len() ==> gained(
                black(),
                #[trigger] self.accumulation[i],
                self.frame_count as int,
            )
    }

    /// The renderer without its frames: every sum is black and no frame is
    /// counted. The picture stays.
    pub open spec fn cleared(self) -> RendererView {
        RendererView { accumulation: no_radiance(self.pixels()), frame_count: 0, ..self }
    }

    /// The state that a render call adds its frames to: the renderer as it
    /// is where it accumulates, else without its frames.
    pub open spec fn base(self) -> RendererView {
        if self.use_accumulation {
            self
        } else {
            self.cleared()
        }
    }

    /// Whether the renderer is what a render call of `frames` frames makes of
    /// the renderer `before`, for the scene and the camera of `frame`. The
    /// frames are added to `before.base()`. Each frame adds a colour to the
    /// sum of every pixel that the camera has a ray for: the colour that the
    /// pixel is certain to gather, where there is one, else what the jitter
    /// and chance made of the scene. The picture is made from the sums.
    pub open spec fn follows_render(
        self,
        before: RendererView,
        frame: RenderFrame,
        frames: int,
    ) -> bool {
        let base = before.base();
        let camera_pixels = frame.camera@.width * frame.camera@.height;
        &&& self.width == before.width
        &&& self.height == before.height
        &&& self.use_accumulation == before.use_accumulation
        &&& self.workers == before.workers
        &&& self.frame_count == base.frame_count + frames
        &&& self.accumulation.len() == base.accumulation.len()
        &&& forall|i: int|
            0 <= i < self.accumulation.len() && i < camera_pixels ==> gained(
                base.accumulation[i],
                #[trigger] self.accumulation[i],
                frames,
            )
        &&& forall|i: int|
            camera_pixels <= i < self.accumulation.len() ==> #[trigger] self.accumulation[i]
                == base.accumulation[i]
        &&& forall|i: int, color: Vec3|
            0 <= i < self.accumulation.len() && i < camera_pixels && #[trigger] frame.certain(
                i,
                color,
            ) ==> gained_exactly(base.accumulation[i], self.accumulation[i], color, frames)
        &&& exists|jitters: Seq<(i64, i64)>| #[trigger] self.gathered_with(base, frame, jitters)
        &&& self.resolved()
        &&& self.wf()
    }

    /// Whether the sums are those of `base` and, for every pixel that the
    /// camera has a ray for, what the pixel's rays gathered in one frame for
    /// each of the jitter samples `jitters`: every frame has one sample for
    /// all its pixels.
    pub open spec fn gathered_with(
        self,
        base: RendererView,
        frame: RenderFrame,
        jitters: Seq<(i64, i64)>,
    ) -> bool {
        &&& jitters.len() == self.frame_count - base.frame_count
        &&& forall|k: int| 0 <= k < jitters.len() ==> is_jitter(#[trigger] jitters[k])
        &&& forall|i: int|
            0 <= i < self.accumulation.len() && i < frame.camera@.width * frame.camera@.height
                ==> frame.gathered_over(
                i,
                jitters,
                jitters.len(),
                (#[trigger] self.accumulation[i]).minus_spec(base.accumulation[i]),
            )
    }

    /// Whether every pixel is the word of the average of its sum.
    pub open spec fn resolved(self) -> bool {
        &&& self.image.len() == self.pixels()
        &&& forall|i: int|
            0 <= i < self.image.len() && i < self.accumulation.len() ==> #[trigger] self.image[i]
                == resolved(self.accumulation[i], self.frame_count)
    }
}

/// The average of frames that all gave one colour is that colour: a sum of
/// `frames` times `color` becomes the pixel of `color`, however many the
/// frames.
pub proof fn lemma_average_of_equal_frames(sum: Vec3, color: Vec3, frames: u64)
    requires
        frames >= 1,
        gained_exactly(black(), sum, color, frames as int),
    ensures
        sum.divided_spec(frames as int) == color,
        resolved(sum, frames) == resolved(color, 1),
{
    assert(frames * color.x == color.x * frames && frames * color.y == color.y * frames && frames
        * color.z == color.z * frames) by (nonlinear_arith);
    vstd::arithmetic::div_mod::lemma_fundamental_div_mod_converse(
        sum.x as int,
        frames as int,
        color.x as int,
        0,
    );
    vstd::arithmetic::div_mod::lemma_fundamental_div_mod_converse(
        sum.y as int,
        frames as int,
        color.y as int,
        0,
    );
    vstd::arithmetic::div_mod::lemma_fundamental_div_mod_converse(
        sum.z as int,
        frames as int,
        color.z as int,
        0,
    );
    assert(color.divided_spec(1) == color);
}

/// A pixel that is certain to gather one colour shows that colour after a
/// render call on a renderer without frames, whether the call renders one
/// frame or many.
pub proof fn lemma_certain_pixel_shows_its_color(
    after: RendererView,
    before: RendererView,
    frame: RenderFrame,
    frames: int,
    i: int,
    color: Vec3,
)
    requires
        before.base().frame_count == 0,
        before.base().wf(),
        frames >= 1,
        after.follows_render(before, frame, frames),
        0 <= i < after.pixels(),
        i < frame.camera@.width * frame.camera@.height,
        frame.certain(i, color),
    ensures
        after.image[i] == resolved(color, 1),
{
    let base = before.base();
    assert(gained(black(), base.accumulation[i], 0));
    assert(gained_exactly(base.accumulation[i], after.accumulation[i], color, frames));
    lemma_average_of_equal_frames(after.accumulation[i], color, after.frame_count);
}

/// A renderer that starts without frames and renders a scene without shapes
/// shows the sky in every pixel that the camera has a ray for, whether it
/// renders one frame or many.
pub proof fn lemma_empty_scene_shows_sky(
    after: RendererView,
    before: RendererView,
    frame: RenderFrame,
    frames: int,
    i: int,
)
    requires
        before.base().frame_count == 0,
        before.base().wf(),
        frames >= 1,
        after.follows_render(before, frame, frames),
        0 <= i < after.pixels(),
        i < frame.camera@.width * frame.camera@.height,
        frame.scene.hittables_view().len() == 0,
    ensures
        after.image[i] == resolved(sky_color_spec(), 1),
{
    assert forall|jitter: (i64, i64)| is_jitter(jitter) implies #[trigger] frame.trace_spec(
        frame.pixel_ray(i, jitter),
    ) is Miss by {}
    frame.lemma_missed_pixel_is_certain(i);
    lemma_certain_pixel_shows_its_color(after, before, frame, frames, i, sky_color_spec());
}

/// A list of `length` black sums.
fn black_sums(length: usize) -> (r: Vec<Vec3>)
    ensures
        r@ == no_radiance(length as int),
{
    let mut sums: Vec<Vec3> = Vec::with_capacity(length);
    let mut i: usize = 0;
    while i < length
        invariant
            i <= length,
            sums@ == no_radiance(i as int),
        decreases length - i,
    {
        sums.push(Vec3 { x: 0, y: 0, z: 0 });
        assert(sums@ =~= no_radiance(i + 1));
        i += 1;
    }
    sums
}

/// A picture of `length` pixels, each the word 0.
fn blank_image(length: usize) -> (r: Vec<u32>)
    ensures
        r@ == Seq::new(length as nat, |i: int| 0u32),
{
    let mut image: Vec<u32> = Vec::with_capacity(length);
    let mut i: usize = 0;
    while i < length
        invariant
            i <= length,
            image@ == Seq::new(i as nat, |i: int| 0u32),
        decreases length - i,
    {
        image.push(0);
        assert(image@ =~= Seq::new((i + 1) as nat, |i: int| 0u32));
        i += 1;
    }
    image
}

impl Renderer {
    /// A renderer for pictures of `width` by `height` pixels, with as many
    /// workers as rayon picks. It accumulates, has no frame yet, and its
    /// picture is blank.
    pub fn new(width: u32, height: u32) -> (r: Result<Self, RendererError>)
        requires
            width * height <= usize::MAX,
        ensures
            r matches Ok(renderer) ==> renderer@ == (RendererView {
                image: Seq::new((width * height) as nat, |i: int| 0u32),
                accumulation: no_radiance(width * height),
                frame_count: 0,
                width,
                height,
                use_accumulation: true,
                workers: renderer@.workers,
            }) && renderer@.wf(),
            r matches Err(error) ==> error == (RendererError::ThreadPool { num_threads: 0 }),
    {
        Self::with_pool(width, height, build_pool(0))
    }

    /// A renderer for pictures of `width` by `height` pixels around the pool
    /// that was built for it; where none was built there is no renderer. The
    /// renderer accumulates, has no frame yet, and its picture is blank.
    pub fn with_pool(
        width: u32,
        height: u32,
        built: Result<ThreadPool, ThreadPoolBuildError>,
    ) -> (r: Result<Self, RendererError>)
        requires
            width * height <= usize::MAX,
        ensures
            built matches Ok(pool) ==> (r matches Ok(renderer) && renderer@ == (RendererView {
                image: Seq::new((width * height) as nat, |i: int| 0u32),
                accumulation: no_radiance(width * height),
                frame_count: 0,
                width,
                height,
                use_accumulation: true,
                workers: pool_workers(pool).len(),
            }) && renderer@.wf()),
            built is Err ==> (r matches Err(error) && error == (RendererError::ThreadPool {
                num_threads: 0,
            })),
    {
        proof {
            assert(0 <= width * height) by (nonlinear_arith)
                requires
                    0 <= width,
                    0 <= height,
            ;
        }
        let length = width as usize * height as usize;
        match built {
            Ok(pool) => Ok(
                Self {
                    image_data: blank_image(length),
                    accumulation: black_sums(length),
                    frame_count: 0,
                    width,
                    height,
                    use_accumulation: true,
                    pool,
                },
            ),
            Err(_) => Err(RendererError::ThreadPool { num_threads: 0 }),
        }
    }

    #[inline(always)]
    fn image_len(&self) -> (r: usize)
        requires
            self@.pixels() <= usize::MAX,
        ensures
            r == self@.pixels(),
    {
        proof {
            assert(0 <= self.width * self.height) by (nonlinear_arith)
                requires
                    0 <= self.width,
                    0 <= self.height,
            ;
        }
        self.width as usize * self.height as usize
    }

    /// Tells whether the renderer is well-formed. Every renderer that this
    /// library hands out is, and stays so.
    pub fn is_valid(&self) -> (r: bool)
        ensures
            r == self@.wf(),
    {
        assert(self.width * self.height <= 0xffff_ffff * 0xffff_ffff) by (nonlinear_arith)
            requires
                self.width <= 0xffff_ffff,
                self.height <= 0xffff_ffff,
        ;
        let pixels: u64 = self.width as u64 * self.height as u64;
        if self.frame_count > FRAMES_MAX || self.accumulation.len() as u64 != pixels
            || self.image_data.len() as u64 != pixels {
            return false;
        }
        let most: i64 = (self.frame_count * 65536) as i64;
        let mut i: usize = 0;
        while i < self.accumulation.len()
            invariant
                i <= self.accumulation@.len(),
                self.frame_count <= FRAMES_MAX,
                most == self.frame_count * ONE,
                self@.accumulation == self.accumulation@,
                self@.frame_count == self.frame_count,
                forall|k: int|
                    0 <= k < i ==> gained(
                        black(),
                        #[trigger] self@.accumulation[k],
                        self.frame_count as int,
                    ),
            decreases self.accumulation.len() - i,
        {
            let sum = self.accumulation[i];
            if !(0 <= sum.x && sum.x <= most && 0 <= sum.y && sum.y <= most && 0 <= sum.z && sum.z
                <= most) {
                assert(!gained(black(), self@.accumulation[i as int], self.frame_count as int));
                return false;
            }
            i += 1;
        }
        true
    }

    /// The picture of the last render call.
    pub fn image_data(&self) -> (r: &[u32])
        ensures
            r@ == self@.image,
    {
        self.image_data.as_slice()
    }

    /// The number of frames in the sums.
    pub fn frame_count(&self) -> (r: u64)
        ensures
            r == self@.frame_count,
    {
        self.frame_count
    }

    /// The width and the height of the picture.
    pub fn size(&self) -> (r: (u32, u32))
        ensures
            r == (self@.width, self@.height),
    {
        (self.width, self.height)
    }

    /// Sets the size of the picture. A new size drops the frames and makes
    /// the picture blank; the same size changes nothing.
    pub fn resize(&mut self, width: u32, height: u32)
        requires
            width * height <= usize::MAX,
        ensures
            (width, height) == (old(self)@.width, old(self)@.height) ==> final(self)@ == old(self)@,
            (width, height) != (old(self)@.width, old(self)@.height) ==> final(self)@ == (
            RendererView {
                image: Seq::new((width * height) as nat, |i: int| 0u32),
                accumulation: no_radiance(width * height),
                frame_count: 0,
                width,
                height,
                use_accumulation: old(self)@.use_accumulation,
                workers: old(self)@.workers,
            }) && final(self)@.wf(),
    {
        if self.width != width || self.height != height {
            self.width = width;
            self.height = height;
            self.reset_accumulation();
            self.image_data = blank_image(self.image_len());
        }
    }

    /// Drops the frames: every sum becomes black and no frame is counted. The
    /// picture stays.
    pub fn reset_accumulation(&mut self)
        requires
            old(self)@.pixels() <= usize::MAX,
        ensures
            final(self)@ == old(self)@.cleared(),
            old(self)@.image.len() == old(self)@.pixels() ==> final(self)@.wf(),
    {
        self.accumulation = black_sums(self.image_len());
        self.frame_count = 0;
    }

    /// Renders one frame more and returns the picture.
    pub fn render<'a>(&mut self, scene: &'a Scene, camera: &'a Camera) -> (r: &[u32])
        requires
            old(self)@.wf(),
            scene.wf(),
            camera@.wf(),
            old(self)@.base().frame_count + 1 <= FRAMES_MAX,
        ensures
            final(self)@.follows_render(old(self)@, (RenderFrame { scene, camera }), 1),
            r@ == final(self)@.image,
    {
        self.render_accumulate(scene, camera, 1)
    }

    /// Renders `frames` frames more and returns the picture: one word per
    /// pixel, the average of the pixel's frames. A renderer that does not
    /// accumulate drops its frames first.
    pub fn render_accumulate<'a>(
        &mut self,
        scene: &'a Scene,
        camera: &'a Camera,
        frames: usize,
    ) -> (r: &[u32])
        requires
            old(self)@.wf(),
            scene.wf(),
            camera@.wf(),
            frames >= 1,
            old(self)@.base().frame_count + frames <= FRAMES_MAX,
        ensures
            final(self)@.follows_render(
                old(self)@,
                (RenderFrame { scene, camera }),
                frames as int,
            ),
            r@ == final(self)@.image,
    {
        let ctx = RenderFrame { scene, camera };
        let ghost before = self@;
        let ghost base = before.base();
        let ghost camera_pixels: int = camera@.width * camera@.height;

        let length: usize = self.accumulation.len();
        assert(self@.pixels() == length);
        if !self.use_accumulation {
            self.reset_accumulation();
        }
        self.image_data.resize(length, 0);
        assert(self@.accumulation == base.accumulation);

        let ghost mut jitters: Seq<(i64, i64)> = Seq::empty();
        let mut frame: usize = 0;
        while frame < frames
            invariant
                jitters.len() == frame,
                forall|k: int| 0 <= k < jitters.len() ==> is_jitter(#[trigger] jitters[k]),
                forall|i: int|
                    0 <= i < self@.accumulation.len() && i < camera_pixels ==> ctx.gathered_over(
                        i,
                        jitters,
                        jitters.len(),
                        (#[trigger] self@.accumulation[i]).minus_spec(base.accumulation[i]),
                    ),
                ctx.wf(),
                ctx.scene == scene,
                ctx.camera == camera,
                camera@.wf(),
                camera_pixels == camera@.width * camera@.height,
                base == before.base(),
                base.wf(),
                frame <= frames,
                base.frame_count + frames <= FRAMES_MAX,
                self@.width == before.width,
                self@.height == before.height,
                self@.use_accumulation == before.use_accumulation,
                self@.workers == before.workers,
                self@.frame_count == base.frame_count + frame,
                self@.accumulation.len() == base.accumulation.len(),
                self@.image.len() == length == self@.pixels(),
                self@.wf(),
                forall|i: int|
                    0 <= i < self@.accumulation.len() && i < camera_pixels ==> gained(
                        base.accumulation[i],
                        #[trigger] self@.accumulation[i],
                        frame as int,
                    ),
                forall|i: int|
                    camera_pixels <= i < self@.accumulation.len() ==> #[trigger] self@.accumulation[i]
                        == base.accumulation[i],
                forall|i: int, color: Vec3|
                    0 <= i < self@.accumulation.len() && i < camera_pixels && #[trigger] ctx.certain(
                        i,
                        color,
                    ) ==> gained_exactly(
                        base.accumulation[i],
                        self@.accumulation[i],
                        color,
                        frame as int,
                    ),
            decreases frames - frame,
        {
            self.frame_count += 1;

            let dirs = camera.get_ray_directions();
            let ghost sampler = choose|sampler: Halton2|
                is_jitter(jitter_of(sampler)) && dirs@ == #[trigger] camera@.ray_directions(
                    jitter_of(sampler),
                );
            let ghost jitter = jitter_of(sampler);
            let origin = camera.position();
            let mut rays: Vec<Ray> = Vec::with_capacity(dirs.len());
            let mut k: usize = 0;
            while k < dirs.len()
                invariant
                    k <= dirs@.len(),
                    rays@.len() == k,
                    origin.within(WORLD_MAX as int),
                    forall|i: int| 0 <= i < dirs@.len() ==> (#[trigger] dirs@[i]).within(ONE as int),
                    forall|i: int|
                        0 <= i < rays@.len() ==> RenderFrame::traceable(#[trigger] rays@[i])
                            && rays@[i] == (Ray { origin, direction: dirs@[i] }),
                decreases dirs.len() - k,
            {
                rays.push(Ray { direction: dirs[k], origin });
                k += 1;
            }

            let ghost sums = self.accumulation@;
            trace_all(&self.pool, &ctx, &mut self.accumulation, rays);
            proof {
                assert forall|i: int|
                    0 <= i < self@.accumulation.len() && i < camera_pixels implies gained(
                    base.accumulation[i],
                    #[trigger] self@.accumulation[i],
                    frame + 1,
                ) by {
                    assert(ctx.pixel_step(rays@[i], sums[i], self@.accumulation[i]));
                    assert(gained(base.accumulation[i], sums[i], frame as int));
                }
                assert forall|i: int| 0 <= i < self@.accumulation.len() implies gained(
                    black(),
                    #[trigger] self@.accumulation[i],
                    self@.frame_count as int,
                ) by {
                    assert(gained(black(), sums[i], self@.frame_count - 1));
                    if i < camera_pixels {
                        assert(ctx.pixel_step(rays@[i], sums[i], self@.accumulation[i]));
                    }
                }
                let drawn = jitters.push(jitter);
                assert forall|i: int|
                    0 <= i < self@.accumulation.len() && i < camera_pixels implies ctx.gathered_over(
                    i,
                    drawn,
                    drawn.len(),
                    (#[trigger] self@.accumulation[i]).minus_spec(base.accumulation[i]),
                ) by {
                    let added = self@.accumulation[i].minus_spec(sums[i]);
                    let total = self@.accumulation[i].minus_spec(base.accumulation[i]);
                    assert(ctx.pixel_step(rays@[i], sums[i], self@.accumulation[i]));
                    assert(rays@[i] == ctx.pixel_ray(i, jitter));
                    assert(gained(base.accumulation[i], sums[i], frame as int));
                    assert(gained(black(), sums[i], self@.frame_count - 1));
                    assert(total.minus_spec(added) == sums[i].minus_spec(base.accumulation[i]));
                    ctx.lemma_gathered_over_more(
                        i,
                        jitters,
                        drawn,
                        jitters.len(),
                        total.minus_spec(added),
                    );
                    assert(drawn[drawn.len() - 1] == jitter);
                    assert(ctx.radiance(ctx.pixel_ray(i, drawn[drawn.len() - 1]), BOUNCE_BUDGET, added));
                }
                jitters = drawn;
                assert forall|i: int, color: Vec3|
                    0 <= i < self@.accumulation.len() && i < camera_pixels && #[trigger] ctx.certain(
                        i,
                        color,
                    ) implies gained_exactly(
                    base.accumulation[i],
                    self@.accumulation[i],
                    color,
                    frame + 1,
                ) by {
                    let added = self@.accumulation[i].minus_spec(sums[i]);
                    assert(ctx.pixel_step(rays@[i], sums[i], self@.accumulation[i]));
                    assert(rays@[i] == ctx.pixel_ray(i, jitter));
                    assert(ctx.radiance(ctx.pixel_ray(i, jitter), BOUNCE_BUDGET, added));
                    assert(added == color);
                    assert(gained_exactly(base.accumulation[i], sums[i], color, frame as int));
                    assert((frame + 1) * color.x == frame * color.x + color.x && (frame + 1)
                        * color.y == frame * color.y + color.y && (frame + 1) * color.z == frame
                        * color.z + color.z) by (nonlinear_arith);
                }
            }
            frame += 1;
        }

        resolve_all(&self.pool, &self.accumulation, self.frame_count, &mut self.image_data);
        assert(self@.gathered_with(base, ctx, jitters));
        self.image_data.as_slice()
    }

    /// The number of workers.
    pub fn num_threads(&self) -> (r: usize)
        ensures
            r == self@.workers,
    {
        pool_threads(&self.pool)
    }

    /// Gives the renderer a new pool of `num_threads` workers; with 0, as
    /// many as rayon picks. Where the pool cannot be built the renderer keeps
    /// its workers. Frames and picture stay either way.
    pub fn set_num_threads(&mut self, num_threads: usize) -> (r: Result<(), RendererError>)
        ensures
            final(self)@ == (RendererView { workers: final(self)@.workers, ..old(self)@ }),
            r is Ok && num_threads > 0 ==> final(self)@.workers <= num_threads,
            r is Ok && 0 < num_threads <= 255 ==> final(self)@.workers == num_threads,
            r matches Err(error) ==> error == (RendererError::ThreadPool { num_threads })
                && final(self)@ == old(self)@,
    {
        self.replace_pool(build_pool(num_threads), num_threads)
    }

    /// Takes the pool that was built for `num_threads` workers in place of
    /// the renderer's own; where none was built the renderer keeps its
    /// workers and says so. Frames and picture stay either way.
    pub fn replace_pool(
        &mut self,
        built: Result<ThreadPool, ThreadPoolBuildError>,
        num_threads: usize,
    ) -> (r: Result<(), RendererError>)
        ensures
            built matches Ok(pool) ==> r is Ok && final(self)@ == (RendererView {
                workers: pool_workers(pool).len(),
                ..old(self)@
            }),
            built is Err ==> (r matches Err(error) && error == (RendererError::ThreadPool {
                num_threads,
            })) && final(self)@ == old(self)@,
    {
        match built {
            Ok(pool) => {
                self.pool = pool;
                Ok(())
            },
            Err(_) => Err(RendererError::ThreadPool { num_threads }),
        }
    }
}

/// A scene and a camera, for one frame.
pub struct RenderFrame<'a> {
    pub scene: &'a Scene,
    pub camera: &'a Camera,
}

impl<'a> RenderFrame<'a> {
    /// Whether rays can be traced: the scene is well-formed and the camera's
    /// clip range is.
    pub open spec fn wf(&self) -> bool {
        self.scene.wf() && clip_wf(self.camera@.look_clip)
    }

    /// Whether `ray` can be traced: it starts inside the world and has a
    /// direction.
    pub open spec fn traceable(ray: Ray) -> bool {
        ray.origin.within(WORLD_MAX as int) && ray.direction.within(ONE as int)
    }

    /// The outcome for `ray` in the scene.
    pub open spec fn trace_spec(&self, ray: Ray) -> HitPayload {
        nearest_hit(self.scene.hittables_view(), ray, self.camera@.look_clip)
    }

    /// Whether `color` is what `ray` can gather with a budget of
    /// `bounce_budget` surfaces, when what it gathers is tinted with
    /// `attenuation`: black without a budget; in the open the sky's colour,
    /// tinted; black from inside a shape and on an absorbing surface; and on
    /// a diffuse surface what the scattered ray gathers with one surface
    /// less, tinted with the surface's colour too. The scattered ray is the
    /// one towards some direction: chance picks it.
    pub open spec fn gathers(
        &self,
        ray: Ray,
        attenuation: Vec3,
        bounce_budget: nat,
        color: Vec3,
    ) -> bool
        decreases bounce_budget,
    {
        if bounce_budget == 0 {
            color == black()
        } else {
            match self.trace_spec(ray) {
                HitPayload::Miss => color == attenuation.times_spec(sky_color_spec()),
                HitPayload::Inside => color == black(),
                HitPayload::Hit { material_index, .. } => {
                    match self.scene.materials_view()[material_index as int] {
                        Material::Null => color == black(),
                        Material::Lambertian { albedo } => exists|unit: Vec3|
                            #[trigger] unit.is_direction() && (scattered_toward(
                                self.trace_spec(ray),
                                albedo,
                                unit,
                            ) matches Some(scatter) && self.gathers(
                                scatter.ray,
                                attenuation.times_spec(albedo),
                                (bounce_budget - 1) as nat,
                                color,
                            )),
                    }
                },
            }
        }
    }

    /// Whether `color` is a radiance that `ray` can gather with a budget of
    /// `bounce_budget` surfaces.
    pub open spec fn radiance(&self, ray: Ray, bounce_budget: u32, color: Vec3) -> bool {
        self.gathers(ray, Vec3 { x: ONE, y: ONE, z: ONE }, bounce_budget as nat, color)
    }

    /// The ray through the sample of the pixel at the place `i`.
    pub open spec fn pixel_ray(&self, i: int, jitter: (i64, i64)) -> Ray {
        Ray { origin: self.camera@.position, direction: self.camera@.ray_directions(jitter)[i] }
    }

    /// Whether the pixel at the place `i` is certain to gather `color`:
    /// whatever the jitter of a frame and whatever chance picks, the pixel's
    /// ray gathers that colour.
    pub open spec fn certain(&self, i: int, color: Vec3) -> bool {
        forall|jitter: (i64, i64), gathered: Vec3|
            is_jitter(jitter) && #[trigger] self.radiance(
                self.pixel_ray(i, jitter),
                BOUNCE_BUDGET,
                gathered,
            ) ==> gathered == color
    }

    /// Whether `total` is what the pixel at the place `i` can gather in `n`
    /// frames, one for each of the first `n` jitter samples of `jitters`: the
    /// sum of one radiance of the pixel's ray per frame.
    pub open spec fn gathered_over(
        &self,
        i: int,
        jitters: Seq<(i64, i64)>,
        n: nat,
        total: Vec3,
    ) -> bool
        decreases n,
    {
        if n == 0 {
            total == black()
        } else {
            exists|color: Vec3|
                #[trigger] self.radiance(
                    self.pixel_ray(i, jitters[n - 1]),
                    BOUNCE_BUDGET,
                    color,
                ) && is_color(color) && self.gathered_over(
                    i,
                    jitters,
                    (n - 1) as nat,
                    total.minus_spec(color),
                )
        }
    }

    /// What a pixel gathers in its first `n` frames does not depend on the
    /// jitter samples of later frames.
    pub proof fn lemma_gathered_over_more(
        &self,
        i: int,
        jitters: Seq<(i64, i64)>,
        more: Seq<(i64, i64)>,
        n: nat,
        total: Vec3,
    )
        requires
            n <= jitters.len() <= more.len(),
            forall|k: int| 0 <= k < n ==> jitters[k] == more[k],
            self.gathered_over(i, jitters, n, total),
        ensures
            self.gathered_over(i, more, n, total),
        decreases n,
    {
        if n > 0 {
            let color = choose|color: Vec3|
                #[trigger] self.radiance(
                    self.pixel_ray(i, jitters[n - 1]),
                    BOUNCE_BUDGET,
                    color,
                ) && is_color(color) && self.gathered_over(
                    i,
                    jitters,
                    (n - 1) as nat,
                    total.minus_spec(color),
                );
            self.lemma_gathered_over_more(
                i,
                jitters,
                more,
                (n - 1) as nat,
                total.minus_spec(color),
            );
            assert(self.radiance(self.pixel_ray(i, more[n - 1]), BOUNCE_BUDGET, color));
        }
    }

    /// A pixel whose ray leaves the scene untouched, whatever the jitter, is
    /// certain to gather the sky's colour.
    pub proof fn lemma_missed_pixel_is_certain(&self, i: int)
        requires
            forall|jitter: (i64, i64)|
                is_jitter(jitter) ==> #[trigger] self.trace_spec(self.pixel_ray(i, jitter))
                    is Miss,
        ensures
            self.certain(i, sky_color_spec()),
    {
        assert forall|jitter: (i64, i64), gathered: Vec3|
            is_jitter(jitter) && #[trigger] self.radiance(
                self.pixel_ray(i, jitter),
                BOUNCE_BUDGET,
                gathered,
            ) implies gathered == sky_color_spec() by {
            assert(self.trace_spec(self.pixel_ray(i, jitter)) is Miss);
        }
    }

    /// A pixel whose ray starts inside a shape or ends on an absorbing
    /// surface, whatever the jitter, is certain to gather black.
    pub proof fn lemma_absorbed_pixel_is_certain(&self, i: int)
        requires
            forall|jitter: (i64, i64)|
                is_jitter(jitter) ==> {
                    let hit = #[trigger] self.trace_spec(self.pixel_ray(i, jitter));
                    hit is Inside || (hit matches HitPayload::Hit { material_index, .. }
                        && self.scene.materials_view()[material_index as int] is Null)
                },
        ensures
            self.certain(i, black()),
    {
        assert forall|jitter: (i64, i64), gathered: Vec3|
            is_jitter(jitter) && #[trigger] self.radiance(
                self.pixel_ray(i, jitter),
                BOUNCE_BUDGET,
                gathered,
            ) implies gathered == black() by {
            let hit = self.trace_spec(self.pixel_ray(i, jitter));
            assert(hit is Inside || (hit matches HitPayload::Hit { material_index, .. }
                && self.scene.materials_view()[material_index as int] is Null));
        }
    }

    /// Whether adding the radiance of `ray` to `before` can give `after`.
    pub open spec fn pixel_step(&self, ray: Ray, before: Vec3, after: Vec3) -> bool {
        let color = after.minus_spec(before);
        &&& self.radiance(ray, BOUNCE_BUDGET, color)
        &&& is_color(color)
        &&& after.x == before.x + color.x
        &&& after.y == before.y + color.y
        &&& after.z == before.z + color.z
    }

    /// Called once per pixel to figure out its color.
    pub fn per_pixel(&self, ray: Ray) -> (color: Vec3)
        requires
            self.wf(),
            Self::traceable(ray),
        ensures
            self.radiance(ray, BOUNCE_BUDGET, color),
            is_color(color),
    {
        self.ray_color(ray, BOUNCE_BUDGET)
    }

    /// Adds the radiance of `ray` to the sum `accumulated`.
    pub fn accumulate_pixel(&self, accumulated: &mut Vec3, ray: Ray)
        requires
            self.wf(),
            Self::traceable(ray),
            old(accumulated).within(0x4000_0000_0000_0000 - ONE),
        ensures
            self.pixel_step(ray, *old(accumulated), *final(accumulated)),
    {
        let color = self.per_pixel(ray);
        *accumulated = accumulated.plus(color);
    }

    /// The radiance that `ray` gathers over at most `bounce_budget` surfaces.
    pub fn ray_color(&self, ray: Ray, bounce_budget: u32) -> (color: Vec3)
        requires
            self.wf(),
            Self::traceable(ray),
            bounce_budget <= BOUNCE_BUDGET,
        ensures
            self.radiance(ray, bounce_budget, color),
            is_color(color),
    {
        let mut attenuation = Vec3::splat(ONE);
        let mut current = ray;
        let mut remaining: u32 = bounce_budget;
        while remaining > 0
            invariant
                self.wf(),
                remaining <= bounce_budget <= BOUNCE_BUDGET,
                current.direction.within(ONE as int),
                current.origin.within(WORLD_MAX + (bounce_budget - remaining) * 0x1_0000_0000),
                is_color(attenuation),
                remaining == bounce_budget ==> current == ray && attenuation == (Vec3 {
                    x: ONE,
                    y: ONE,
                    z: ONE,
                }),
                forall|c: Vec3| #[trigger]
                    self.gathers(current, attenuation, remaining as nat, c) ==> self.radiance(
                        ray,
                        bounce_budget,
                        c,
                    ),
            decreases remaining,
        {
            let hit = self.trace_ray(&current);
            match hit {
                HitPayload::Hit { material_index, world_position, hit_distance, .. } => {
                    let material = self.scene.material(material_index);
                    match material.scatter(&hit, &current) {
                        Some(scatter) => {
                            let ghost before = current;
                            let ghost tint = attenuation;
                            let ghost left = remaining as nat;
                            proof {
                                lemma_tint(attenuation, scatter.attenuation);
                                lemma_reach(current.direction, hit_distance, ONE as int);
                                lemma_reach(scatter.ray.direction, SCATTER_OFFSET, ONE as int);
                            }
                            attenuation = attenuation.times(scatter.attenuation);
                            current = scatter.ray;
                            remaining -= 1;
                            proof {
                                let albedo = scatter.attenuation;
                                let unit = choose|unit: Vec3| #[trigger]
                                    unit.is_direction() && Some(scatter) == scattered_toward(
                                        hit,
                                        albedo,
                                        unit,
                                    );
                                assert forall|c: Vec3| #[trigger]
                                    self.gathers(
                                        current,
                                        attenuation,
                                        remaining as nat,
                                        c,
                                    ) implies self.radiance(ray, bounce_budget, c) by {
                                    self.lemma_gathers_scattered(before, tint, left, albedo, unit, c);
                                    assert(self.gathers(before, tint, left, c));
                                }
                            }
                        },
                        None => {
                            proof {
                                self.lemma_gathers_absorbed(current, attenuation, remaining as nat);
                            }
                            return Vec3 { x: 0, y: 0, z: 0 };
                        },
                    }
                },
                HitPayload::Miss => {
                    proof {
                        lemma_tint(attenuation, sky_color_spec());
                        self.lemma_gathers_sky(current, attenuation, remaining as nat);
                    }
                    return attenuation.times(sky_color());
                },
                HitPayload::Inside => {
                    proof {
                        self.lemma_gathers_absorbed(current, attenuation, remaining as nat);
                    }
                    return Vec3 { x: 0, y: 0, z: 0 };
                },
            }
        }
        proof {
            self.lemma_gathers_absorbed(current, attenuation, 0);
        }
        Vec3 { x: 0, y: 0, z: 0 }
    }

    /// Whatever chance picks, what a ray gathers is a colour, and no brighter
    /// than the tint that it is gathered with.
    pub proof fn lemma_gathers_no_brighter(
        &self,
        ray: Ray,
        attenuation: Vec3,
        bounce_budget: nat,
        color: Vec3,
    )
        requires
            self.scene.wf(),
            is_color(attenuation),
            self.gathers(ray, attenuation, bounce_budget, color),
        ensures
            is_color(color),
            channels_le(color, attenuation),
        decreases bounce_budget,
    {
        if bounce_budget > 0 {
            let hit = self.trace_spec(ray);
            match hit {
                HitPayload::Miss => {
                    lemma_tint(attenuation, sky_color_spec());
                },
                HitPayload::Inside => {},
                HitPayload::Hit { material_index, .. } => {
                    let shapes = self.scene.hittables_view();
                    crate::hittable::lemma_nearest_hit_is_nearest(
                        shapes,
                        ray,
                        self.camera@.look_clip,
                    );
                    let i = choose|i: int|
                        0 <= i < shapes.len() && (#[trigger] shapes[i]).check_hit_spec(
                            ray,
                            self.camera@.look_clip,
                        ) == hit;
                    assert(shapes[i].wf());
                    assert(material_index == shapes[i].material_index_spec());
                    match self.scene.materials_view()[material_index as int] {
                        Material::Null => {},
                        Material::Lambertian { albedo } => {
                            let unit = choose|unit: Vec3| #[trigger]
                                unit.is_direction() && (scattered_toward(
                                    hit,
                                    albedo,
                                    unit,
                                ) matches Some(scatter) && self.gathers(
                                    scatter.ray,
                                    attenuation.times_spec(albedo),
                                    (bounce_budget - 1) as nat,
                                    color,
                                ));
                            let scatter = scattered_toward(hit, albedo, unit)->0;
                            assert(self.scene.materials_view()[material_index as int].wf());
                            lemma_tint(attenuation, albedo);
                            self.lemma_gathers_no_brighter(
                                scatter.ray,
                                attenuation.times_spec(albedo),
                                (bounce_budget - 1) as nat,
                                color,
                            );
                        },
                    }
                },
            }
        }
    }

    /// In the open a ray gathers the sky's colour, tinted.
    pub proof fn lemma_gathers_sky(&self, ray: Ray, attenuation: Vec3, bounce_budget: nat)
        requires
            bounce_budget > 0,
            self.trace_spec(ray) is Miss,
        ensures
            self.gathers(ray, attenuation, bounce_budget, attenuation.times_spec(sky_color_spec())),
    {
    }

    /// A ray gathers black without a budget, from inside a shape, and on an
    /// absorbing surface.
    pub proof fn lemma_gathers_absorbed(&self, ray: Ray, attenuation: Vec3, bounce_budget: nat)
        requires
            bounce_budget == 0 || self.trace_spec(ray) is Inside || (self.trace_spec(
                ray,
            ) matches HitPayload::Hit { material_index, .. }
                && self.scene.materials_view()[material_index as int] is Null),
        ensures
            self.gathers(ray, attenuation, bounce_budget, black()),
    {
    }

    /// On a diffuse surface a ray gathers what the ray scattered towards
    /// `unit` gathers with one surface less, tinted with the surface's
    /// colour.
    pub proof fn lemma_gathers_scattered(
        &self,
        ray: Ray,
        attenuation: Vec3,
        bounce_budget: nat,
        albedo: Vec3,
        unit: Vec3,
        color: Vec3,
    )
        requires
            bounce_budget > 0,
            self.trace_spec(ray) matches HitPayload::Hit { material_index, .. }
                && self.scene.materials_view()[material_index as int] == (Material::Lambertian {
                albedo,
            }),
            unit.is_direction(),
            scattered_toward(self.trace_spec(ray), albedo, unit) matches Some(scatter)
                && self.gathers(
                scatter.ray,
                attenuation.times_spec(albedo),
                (bounce_budget - 1) as nat,
                color,
            ),
        ensures
            self.gathers(ray, attenuation, bounce_budget, color),
    {
    }

    /// Shoot a ray from a given location and return information the closest hit, if any.
    pub fn trace_ray(&self, ray: &Ray) -> (r: HitPayload)
        requires
            self.wf(),
            ray.wf(),
        ensures
            r == self.trace_spec(*ray),
            r.wf(),
            r.on_ray(*ray, self.camera@.look_clip),
            r matches HitPayload::Hit { material_index, .. } ==> material_index
                < self.scene.materials_view().len(),
    {
        let look_clip = self.camera.look_clip();
        let hittables = self.scene.hittables();
        let mut nearest = HitPayload::Miss;
        let mut i: usize = 0;
        while i < hittables.len()
            invariant
                self.wf(),
                ray.wf(),
                *look_clip == self.camera@.look_clip,
                hittables@ == self.scene.hittables_view(),
                i <= hittables@.len(),
                nearest == nearest_hit(hittables@.take(i as int), *ray, *look_clip),
                nearest.wf(),
                nearest.on_ray(*ray, *look_clip),
                nearest matches HitPayload::Hit { material_index, .. } ==> material_index
                    < self.scene.materials_view().len(),
            decreases hittables.len() - i,
        {
            let next = hittables[i].check_hit(ray, look_clip);
            proof {
                assert(hittables@.take(i + 1).drop_last() =~= hittables@.take(i as int));
                assert(hittables@.take(i + 1).last() == hittables@[i as int]);
            }
            nearest = nearest.closer(next);
            i += 1;
        }
        proof {
            assert(hittables@.take(i as int) =~= hittables@);
        }
        nearest
    }
}

} // verus!
