use vstd::prelude::*;

use crate::depth::{depth_less, float_lt};
use crate::image::{lemma_pixel_index_in_grid, lemma_pixel_index_injective, pixel_index, rgba_word, Image};

verus! {

/// Which triangles are discarded before scan conversion.
#[derive(Debug, PartialEq, Eq, Clone, Copy, Structural)]
pub enum CullFace {
    Disabled,
    Front,
    Back,
    FrontAndBack,
}

impl Default for CullFace {
    fn default() -> (r: CullFace)
        ensures
            r == CullFace::Disabled,
    {
        CullFace::Disabled
    }
}

/// Configuration carried by a [`Pipeline`].
#[derive(Debug, PartialEq, Eq, Clone, Copy, Structural)]
pub struct PipelineOptions {
    pub cull_face: CullFace,
}

impl Default for PipelineOptions {
    fn default() -> (r: PipelineOptions)
        ensures
            r.cull_face == CullFace::Disabled,
    {
        PipelineOptions { cull_face: CullFace::Disabled }
    }
}

/// Which way a triangle faces on screen: the sign of the z component of its
/// face normal `(b - a) x (c - a)`. `EdgeOn` covers zero and NaN.
#[derive(Debug, PartialEq, Eq, Clone, Copy, Structural)]
pub enum Facing {
    Front,
    Back,
    EdgeOn,
}

/// The facing of the same triangle with its winding reversed, whose face
/// normal is the negated one.
pub open spec fn reversed(f: Facing) -> Facing {
    match f {
        Facing::Front => Facing::Back,
        Facing::Back => Facing::Front,
        Facing::EdgeOn => Facing::EdgeOn,
    }
}

/// Whether `mode` discards a triangle facing `facing`.
pub open spec fn culled(mode: CullFace, facing: Facing) -> bool {
    match mode {
        CullFace::Disabled => false,
        CullFace::Front => facing == Facing::Front,
        CullFace::Back => facing == Facing::Back,
        CullFace::FrontAndBack => true,
    }
}

/// An inclusive rectangle of pixel coordinates.
#[derive(Debug, PartialEq, Eq, Clone, Copy, Structural)]
pub struct PixelRect {
    pub x_min: u32,
    pub y_min: u32,
    pub x_max: u32,
    pub y_max: u32,
}

pub open spec fn rect_contains(r: PixelRect, x: int, y: int) -> bool {
    r.x_min <= x <= r.x_max && r.y_min <= y <= r.y_max
}

/// A triangle after the vertex stage, as scan conversion sees it: which way
/// it faces, and the least and greatest x and y of its screen-space corners,
/// each truncated toward zero.
#[derive(Debug, PartialEq, Eq, Clone, Copy, Structural)]
pub struct Primitive {
    pub facing: Facing,
    pub min_x: i64,
    pub min_y: i64,
    pub max_x: i64,
    pub max_y: i64,
}

/// A coordinate held to the range of `u32`.
pub open spec fn to_pixel(v: int) -> int {
    if v < 0 {
        0
    } else if v > u32::MAX {
        u32::MAX as int
    } else {
        v
    }
}

/// The pixels scanned for `p` in a `width` by `height` image: its extent
/// clamped to the image, or `None` where nothing of it is left.
pub open spec fn spec_bounding_box(p: Primitive, width: nat, height: nat) -> Option<PixelRect> {
    let x_min = to_pixel(p.min_x as int);
    let y_min = to_pixel(p.min_y as int);
    let x_max = vstd::math::min(to_pixel(p.max_x as int), width - 1);
    let y_max = vstd::math::min(to_pixel(p.max_y as int), height - 1);
    if width == 0 || height == 0 || x_min > x_max || y_min > y_max {
        None
    } else {
        Some(PixelRect { x_min: x_min as u32, y_min: y_min as u32, x_max: x_max as u32, y_max: y_max as u32 })
    }
}

fn clamp_to_pixel(v: i64) -> (r: u32)
    ensures
        r == to_pixel(v as int),
{
    if v < 0 {
        0
    } else if v > u32::MAX as i64 {
        u32::MAX
    } else {
        v as u32
    }
}

/// The bounding box of `p` clamped to a `width` by `height` image.
pub fn bounding_box(p: Primitive, width: u32, height: u32) -> (r: Option<PixelRect>)
    ensures
        r == spec_bounding_box(p, width as nat, height as nat),
{
    if width == 0 || height == 0 {
        return None;
    }
    let x_min = clamp_to_pixel(p.min_x);
    let y_min = clamp_to_pixel(p.min_y);
    let hi_x = clamp_to_pixel(p.max_x);
    let hi_y = clamp_to_pixel(p.max_y);
    let x_max = if hi_x < width - 1 { hi_x } else { width - 1 };
    let y_max = if hi_y < height - 1 { hi_y } else { height - 1 };
    if x_min > x_max || y_min > y_max {
        None
    } else {
        Some(PixelRect { x_min, y_min, x_max, y_max })
    }
}

/// Where the scan of screen pixel `(x, y)` writes: screen rows count upward
/// from the bottom, image rows downward from the top.
pub open spec fn target_index(width: nat, height: nat, x: int, y: int) -> int {
    pixel_index(width, x as nat, (height - 1 - y) as nat)
}

/// The stored depth and colour after a fragment of depth `d` and colour word
/// `c` meets stored depth `d0` and colour `c0`: it replaces them when it is
/// strictly nearer.
pub open spec fn depth_write(d0: u32, c0: u32, d: u32, c: u32) -> (u32, u32) {
    if float_lt(d, d0) {
        (d, c)
    } else {
        (d0, c0)
    }
}

/// One pixel's scan took stored depth and colour `(d0, c0)` to `(d1, c1)`,
/// where coverage gave `r`: nothing, or a fragment depth and what shading
/// needs. A colour is shaded only for a fragment that passes the depth test.
pub open spec fn fragment_effect<T>(
    shade_ok: spec_fn(T, [u8; 4]) -> bool,
    r: Option<(u32, T)>,
    d0: u32,
    c0: u32,
    d1: u32,
    c1: u32,
) -> bool {
    match r {
        Option::None => d1 == d0 && c1 == c0,
        Option::Some((d, t)) => exists|c: [u8; 4]|
            (float_lt(d, d0) ==> shade_ok(t, c)) && (d1, c1) == depth_write(d0, c0, d, rgba_word(c@)),
    }
}

/// Some screen pixel of `region` writes to index `i`.
pub open spec fn region_targets(region: spec_fn(int, int) -> bool, width: nat, height: nat, i: int) -> bool {
    exists|x: int, y: int| #[trigger] region(x, y) && target_index(width, height, x, y) == i
}

/// Colour and depth words `(c1, d1)` are what scanning the screen pixels of
/// `region` can leave from `(c0, d0)`: every pixel of the region had its own
/// coverage outcome and fragment, and no other word changed.
pub open spec fn scanned<T>(
    cover_ok: spec_fn(u32, u32, Option<(u32, T)>) -> bool,
    shade_ok: spec_fn(T, [u8; 4]) -> bool,
    region: spec_fn(int, int) -> bool,
    width: nat,
    height: nat,
    c0: Seq<u32>,
    d0: Seq<u32>,
    c1: Seq<u32>,
    d1: Seq<u32>,
) -> bool {
    &&& c1.len() == c0.len()
    &&& d1.len() == d0.len()
    &&& forall|i: int|
        0 <= i < c0.len() && !region_targets(region, width, height, i) ==> c1[i] == c0[i]
    &&& forall|i: int|
        0 <= i < d0.len() && !region_targets(region, width, height, i) ==> d1[i] == d0[i]
    &&& forall|x: int, y: int|
        #[trigger] region(x, y) ==> exists|r: Option<(u32, T)>|
            #[trigger] cover_ok(x as u32, y as u32, r) && {
                let i = target_index(width, height, x, y);
                fragment_effect(shade_ok, r, d0[i], c0[i], d1[i], c1[i])
            }
}

/// Pixels of `rect` that a column-by-column scan has visited before
/// reaching `(x, y)`.
pub open spec fn visited_before(rect: PixelRect, x: int, y: int, px: int, py: int) -> bool {
    rect_contains(rect, px, py) && (px < x || (px == x && py < y))
}

proof fn lemma_target_in_grid(width: nat, height: nat, x: int, y: int)
    requires
        0 <= x < width,
        0 <= y < height,
    ensures
        0 <= target_index(width, height, x, y) < width * height,
{
    lemma_pixel_index_in_grid(width, height, x as nat, (height - 1 - y) as nat);
}

proof fn lemma_target_injective(width: nat, height: nat, x: int, y: int, x2: int, y2: int)
    requires
        0 <= x < width,
        0 <= y < height,
        0 <= x2 < width,
        0 <= y2 < height,
        target_index(width, height, x, y) == target_index(width, height, x2, y2),
    ensures
        x == x2,
        y == y2,
{
    lemma_pixel_index_injective(width, x as nat, (height - 1 - y) as nat, x2 as nat, (height - 1 - y2) as nat);
}

/// Depth monotonicity: when two fragments, each nearer than what is stored,
/// meet one pixel in turn, the pixel keeps the nearer one's depth and
/// colour, the first one's on a tie.
pub proof fn lemma_nearest_fragment_wins(d0: u32, c0: u32, d1: u32, c1: u32, d2: u32, c2: u32)
    requires
        float_lt(d1, d0),
        float_lt(d2, d0),
    ensures
        ({
            let (d, c) = depth_write(d0, c0, d1, c1);
            depth_write(d, c, d2, c2)
        }) == (if float_lt(d2, d1) {
            (d2, c2)
        } else {
            (d1, c1)
        }),
{
}

/// Reversing a triangle's winding swaps what back-face and front-face
/// culling do with it: the same pixels are scanned.
pub proof fn lemma_cull_winding_symmetry(back: Pipeline, front: Pipeline, p: Primitive, width: nat, height: nat)
    requires
        back@.cull_face == CullFace::Back,
        front@.cull_face == CullFace::Front,
    ensures
        back.scan_area(p, width, height) == front.scan_area(
            Primitive { facing: reversed(p.facing), ..p },
            width,
            height,
        ),
{
}

/// The triangle rasterizer: draws triangles into a colour image and a depth
/// image of the same size.
pub struct Pipeline {
    options: PipelineOptions,
}

impl View for Pipeline {
    type V = PipelineOptions;

    closed spec fn view(&self) -> PipelineOptions {
        self.options
    }
}

impl Pipeline {
    pub fn with_options(options: PipelineOptions) -> (r: Pipeline)
        ensures
            r@ == options,
    {
        Pipeline { options }
    }

    /// Whether this pipeline discards a triangle facing `facing`.
    pub fn culls(&self, facing: Facing) -> (r: bool)
        ensures
            r == culled(self@.cull_face, facing),
    {
        match self.options.cull_face {
            CullFace::Disabled => false,
            CullFace::Front => facing == Facing::Front,
            CullFace::Back => facing == Facing::Back,
            CullFace::FrontAndBack => true,
        }
    }

    /// In a draw, triangle `k` took the colour and depth words of frame `k`
    /// to those of frame `k + 1`: its assembly gave some primitive `p`; a
    /// culled or off-image `p` leaves them as they were, else its bounding box
    /// is scanned.
    pub open spec fn draw_step<T>(
        &self,
        setup_ok: spec_fn(int, Primitive) -> bool,
        cover_ok: spec_fn(int, u32, u32, Option<(u32, T)>) -> bool,
        shade_ok: spec_fn(T, [u8; 4]) -> bool,
        width: nat,
        height: nat,
        frames: Seq<(Seq<u32>, Seq<u32>)>,
        k: int,
    ) -> bool {
        let before = frames[k];
        let after = frames[k + 1];
        exists|p: Primitive|
            #[trigger] setup_ok(k, p) && match self.scan_area(p, width, height) {
                Option::None => after == before,
                Option::Some(rect) => scanned(
                    |x: u32, y: u32, r: Option<(u32, T)>| cover_ok(k, x, y, r),
                    shade_ok,
                    |x: int, y: int| rect_contains(rect, x, y),
                    width,
                    height,
                    before.0,
                    before.1,
                    after.0,
                    after.1,
                ),
            }
    }

    /// `frames` is a run of a draw of `count` triangles: frame `k` holds the
    /// colour and depth words before triangle `k`, the last one those after
    /// the draw, and each triangle took its frame to the next.
    pub open spec fn drew<T>(
        &self,
        count: nat,
        setup_ok: spec_fn(int, Primitive) -> bool,
        cover_ok: spec_fn(int, u32, u32, Option<(u32, T)>) -> bool,
        shade_ok: spec_fn(T, [u8; 4]) -> bool,
        width: nat,
        height: nat,
        frames: Seq<(Seq<u32>, Seq<u32>)>,
    ) -> bool {
        &&& frames.len() == count + 1
        &&& forall|k: int|
            0 <= k < count ==> #[trigger] self.draw_step(setup_ok, cover_ok, shade_ok, width, height, frames, k)
    }

    /// Culling completeness: a pipeline that culls both faces leaves the
    /// colour and depth words of every draw as they were.
    pub proof fn lemma_cull_all_draws_nothing<T>(
        &self,
        count: nat,
        setup_ok: spec_fn(int, Primitive) -> bool,
        cover_ok: spec_fn(int, u32, u32, Option<(u32, T)>) -> bool,
        shade_ok: spec_fn(T, [u8; 4]) -> bool,
        width: nat,
        height: nat,
        frames: Seq<(Seq<u32>, Seq<u32>)>,
    )
        requires
            self@.cull_face == CullFace::FrontAndBack,
            self.drew(count, setup_ok, cover_ok, shade_ok, width, height, frames),
        ensures
            frames.last() == frames[0],
    {
        self.lemma_culled_frames_equal(count, setup_ok, cover_ok, shade_ok, width, height, frames, count);
    }

    proof fn lemma_culled_frames_equal<T>(
        &self,
        count: nat,
        setup_ok: spec_fn(int, Primitive) -> bool,
        cover_ok: spec_fn(int, u32, u32, Option<(u32, T)>) -> bool,
        shade_ok: spec_fn(T, [u8; 4]) -> bool,
        width: nat,
        height: nat,
        frames: Seq<(Seq<u32>, Seq<u32>)>,
        j: nat,
    )
        requires
            self@.cull_face == CullFace::FrontAndBack,
            self.drew(count, setup_ok, cover_ok, shade_ok, width, height, frames),
            j <= count,
        ensures
            frames[j as int] == frames[0],
        decreases j,
    {
        if j > 0 {
            let k = j - 1;
            assert(self.draw_step(setup_ok, cover_ok, shade_ok, width, height, frames, k));
            self.lemma_culled_frames_equal(count, setup_ok, cover_ok, shade_ok, width, height, frames, k as nat);
        }
    }

    /// Culling symmetry for whole draws: a back-culling draw and a
    /// front-culling draw whose triangles have their windings reversed,
    /// covering and shading the same pixels, can leave the same frames.
    pub proof fn lemma_reversed_draws_agree<T>(
        &self,
        front: Pipeline,
        count: nat,
        setup_ok: spec_fn(int, Primitive) -> bool,
        cover_ok: spec_fn(int, u32, u32, Option<(u32, T)>) -> bool,
        shade_ok: spec_fn(T, [u8; 4]) -> bool,
        width: nat,
        height: nat,
        frames: Seq<(Seq<u32>, Seq<u32>)>,
    )
        requires
            self@.cull_face == CullFace::Back,
            front@.cull_face == CullFace::Front,
        ensures
            self.drew(count, setup_ok, cover_ok, shade_ok, width, height, frames) <==> front.drew(
                count,
                |k: int, p: Primitive| setup_ok(k, Primitive { facing: reversed(p.facing), ..p }),
                cover_ok,
                shade_ok,
                width,
                height,
                frames,
            ),
    {
        let flipped = |k: int, p: Primitive| setup_ok(k, Primitive { facing: reversed(p.facing), ..p });
        assert forall|k: int| 0 <= k < count implies #[trigger] self.draw_step(
            setup_ok,
            cover_ok,
            shade_ok,
            width,
            height,
            frames,
            k,
        ) == front.draw_step(flipped, cover_ok, shade_ok, width, height, frames, k) by {
            if self.draw_step(setup_ok, cover_ok, shade_ok, width, height, frames, k) {
                let p = choose|p: Primitive|
                    #[trigger] setup_ok(k, p) && match self.scan_area(p, width, height) {
                        Option::None => frames[k + 1] == frames[k],
                        Option::Some(rect) => scanned(
                            |x: u32, y: u32, r: Option<(u32, T)>| cover_ok(k, x, y, r),
                            shade_ok,
                            |x: int, y: int| rect_contains(rect, x, y),
                            width,
                            height,
                            frames[k].0,
                            frames[k].1,
                            frames[k + 1].0,
                            frames[k + 1].1,
                        ),
                    };
                let q = Primitive { facing: reversed(p.facing), ..p };
                assert(Primitive { facing: reversed(q.facing), ..q } == p);
                assert(flipped(k, q));
                lemma_cull_winding_symmetry(*self, front, p, width, height);
            }
            if front.draw_step(flipped, cover_ok, shade_ok, width, height, frames, k) {
                let q = choose|q: Primitive|
                    #[trigger] flipped(k, q) && match front.scan_area(q, width, height) {
                        Option::None => frames[k + 1] == frames[k],
                        Option::Some(rect) => scanned(
                            |x: u32, y: u32, r: Option<(u32, T)>| cover_ok(k, x, y, r),
                            shade_ok,
                            |x: int, y: int| rect_contains(rect, x, y),
                            width,
                            height,
                            frames[k].0,
                            frames[k].1,
                            frames[k + 1].0,
                            frames[k + 1].1,
                        ),
                    };
                let p = Primitive { facing: reversed(q.facing), ..q };
                assert(setup_ok(k, p));
                lemma_cull_winding_symmetry(*self, front, p, width, height);
                assert(Primitive { facing: reversed(p.facing), ..p } == q);
            }
        }
        if self.drew(count, setup_ok, cover_ok, shade_ok, width, height, frames) {
            assert forall|k: int| 0 <= k < count implies #[trigger] front.draw_step(
                flipped,
                cover_ok,
                shade_ok,
                width,
                height,
                frames,
                k,
            ) by {
                assert(self.draw_step(setup_ok, cover_ok, shade_ok, width, height, frames, k));
            }
        }
        if front.drew(count, flipped, cover_ok, shade_ok, width, height, frames) {
            assert forall|k: int| 0 <= k < count implies #[trigger] self.draw_step(
                setup_ok,
                cover_ok,
                shade_ok,
                width,
                height,
                frames,
                k,
            ) by {
                assert(front.draw_step(flipped, cover_ok, shade_ok, width, height, frames, k));
            }
        }
    }

    /// Draws the `vertex_count / 3` triangles of an attribute buffer, in
    /// order, into `color` and `depth`. Triangle `i` is its vertices
    /// `3i .. 3i + 2`; `setup(i)` reports how it faces and its screen extent,
    /// `cover(i, x, y)` whether it covers screen pixel `(x, y)` and at what
    /// depth, and `shade` the colour of a fragment that passed the depth test.
    /// Culled triangles and those off the image draw nothing.
    pub fn triangles<T, F, C, S>(
        &self,
        vertex_count: usize,
        color: &mut Image,
        depth: &mut Image,
        setup: F,
        cover: C,
        shade: S,
    ) where F: Fn(usize) -> Primitive, C: Fn(usize, u32, u32) -> Option<(u32, T)>, S: Fn(T) -> [u8; 4]
        requires
            old(color).wf(),
            old(depth).wf(),
            old(depth).spec_width() == old(color).spec_width(),
            old(depth).spec_height() == old(color).spec_height(),
            forall|i: usize| i < vertex_count / 3 ==> setup.requires((i,)),
            forall|i: usize, x: u32, y: u32| i < vertex_count / 3 ==> cover.requires((i, x, y)),
            forall|t: T| shade.requires((t,)),
        ensures
            final(color).wf(),
            final(depth).wf(),
            final(color).spec_width() == old(color).spec_width(),
            final(color).spec_height() == old(color).spec_height(),
            final(depth).spec_width() == old(depth).spec_width(),
            final(depth).spec_height() == old(depth).spec_height(),
            exists|frames: Seq<(Seq<u32>, Seq<u32>)>|
                self.drew(
                    (vertex_count / 3) as nat,
                    |k: int, p: Primitive| setup.ensures((k as usize,), p),
                    |k: int, x: u32, y: u32, r: Option<(u32, T)>| cover.ensures((k as usize, x, y), r),
                    |t: T, c: [u8; 4]| shade.ensures((t,), c),
                    old(color).spec_width(),
                    old(color).spec_height(),
                    frames,
                ) && frames[0] == (old(color)@, old(depth)@) && frames.last() == (
                    final(color)@,
                    final(depth)@,
                ),
            self@.cull_face == CullFace::FrontAndBack ==> final(color)@ == old(color)@ && final(depth)@
                == old(depth)@,
    {
        let ghost setup_ok = |k: int, p: Primitive| setup.ensures((k as usize,), p);
        let ghost cover_ok = |k: int, x: u32, y: u32, r: Option<(u32, T)>| cover.ensures((k as usize, x, y), r);
        let ghost shade_ok = |t: T, c: [u8; 4]| shade.ensures((t,), c);
        let ghost w = color.spec_width();
        let ghost h = color.spec_height();
        let ghost c0 = color@;
        let ghost d0 = depth@;
        let width = color.width();
        let height = color.height();
        let count = vertex_count / 3;
        let ghost mut frames: Seq<(Seq<u32>, Seq<u32>)> = seq![(c0, d0)];
        let mut i: usize = 0;
        while i < count
            invariant
                color.wf(),
                depth.wf(),
                color.spec_width() == w,
                color.spec_height() == h,
                depth.spec_width() == w,
                depth.spec_height() == h,
                width == w,
                height == h,
                w == old(color).spec_width(),
                h == old(color).spec_height(),
                c0 == old(color)@,
                d0 == old(depth)@,
                count == vertex_count / 3,
                setup_ok == (|k: int, p: Primitive| setup.ensures((k as usize,), p)),
                cover_ok == (|k: int, x: u32, y: u32, r: Option<(u32, T)>| cover.ensures((k as usize, x, y), r)),
                shade_ok == (|t: T, c: [u8; 4]| shade.ensures((t,), c)),
                forall|i: usize| i < vertex_count / 3 ==> setup.requires((i,)),
                forall|i: usize, x: u32, y: u32| i < vertex_count / 3 ==> cover.requires((i, x, y)),
                forall|t: T| shade.requires((t,)),
                i <= count,
                self.drew(i as nat, setup_ok, cover_ok, shade_ok, w, h, frames),
                frames[0] == (c0, d0),
                frames.last() == (color@, depth@),
                self@.cull_face == CullFace::FrontAndBack ==> color@ == c0 && depth@ == d0,
            decreases count - i,
        {
            let ghost before = (color@, depth@);
            let p = setup(i);
            if !self.culls(p.facing) {
                match bounding_box(p, width, height) {
                    Some(rect) => {
                        self.triangle(i, color, depth, rect, &cover, &shade);
                        proof {
                            let by_call = |x: u32, y: u32, r: Option<(u32, T)>| cover.ensures((i, x, y), r);
                            let by_index = |x: u32, y: u32, r: Option<(u32, T)>| cover_ok(i as int, x, y, r);
                            assert(by_call =~= by_index);
                        }
                    },
                    None => {},
                }
            }
            proof {
                let prev = frames;
                frames = frames.push((color@, depth@));
                assert(frames[i as int] == before);
                assert(frames[i + 1] == (color@, depth@));
                assert(setup_ok(i as int, p));
                assert(self.draw_step(setup_ok, cover_ok, shade_ok, w, h, frames, i as int));
                assert forall|k: int| 0 <= k < i + 1 implies #[trigger] self.draw_step(
                    setup_ok,
                    cover_ok,
                    shade_ok,
                    w,
                    h,
                    frames,
                    k,
                ) by {
                    if k < i {
                        assert(self.draw_step(setup_ok, cover_ok, shade_ok, w, h, prev, k));
                        assert(frames[k] == prev[k]);
                        assert(frames[k + 1] == prev[k + 1]);
                    }
                }
            }
            i += 1;
        }
    }

    /// Scans the pixels of `rect` for triangle `index`, column by column.
    /// `cover` gives, for a screen pixel, nothing when the triangle misses it,
    /// else the fragment's depth bits and what `shade` turns into its colour;
    /// a fragment nearer than the stored depth is shaded and written, on the
    /// image row counted from the bottom.
    fn triangle<T, C, S>(
        &self,
        index: usize,
        color: &mut Image,
        depth: &mut Image,
        rect: PixelRect,
        cover: &C,
        shade: &S,
    ) where C: Fn(usize, u32, u32) -> Option<(u32, T)>, S: Fn(T) -> [u8; 4]
        requires
            old(color).wf(),
            old(depth).wf(),
            old(depth).spec_width() == old(color).spec_width(),
            old(depth).spec_height() == old(color).spec_height(),
            rect.x_min <= rect.x_max < old(color).spec_width(),
            rect.y_min <= rect.y_max < old(color).spec_height(),
            forall|x: u32, y: u32| cover.requires((index, x, y)),
            forall|t: T| shade.requires((t,)),
        ensures
            final(color).wf(),
            final(depth).wf(),
            final(color).spec_width() == old(color).spec_width(),
            final(color).spec_height() == old(color).spec_height(),
            final(depth).spec_width() == old(depth).spec_width(),
            final(depth).spec_height() == old(depth).spec_height(),
            scanned(
                |x: u32, y: u32, r: Option<(u32, T)>| cover.ensures((index, x, y), r),
                |t: T, c: [u8; 4]| shade.ensures((t,), c),
                |x: int, y: int| rect_contains(rect, x, y),
                old(color).spec_width(),
                old(color).spec_height(),
                old(color)@,
                old(depth)@,
                final(color)@,
                final(depth)@,
            ),
    {
        let ghost cover_ok = |x: u32, y: u32, r: Option<(u32, T)>| cover.ensures((index, x, y), r);
        let ghost shade_ok = |t: T, c: [u8; 4]| shade.ensures((t,), c);
        let ghost w = color.spec_width();
        let ghost h = color.spec_height();
        let ghost c0 = color@;
        let ghost d0 = depth@;
        proof {
            color.lemma_covers_grid();
            depth.lemma_covers_grid();
        }
        let height = color.height();
        let mut x = rect.x_min;
        while x <= rect.x_max
            invariant
                color.wf(),
                depth.wf(),
                color.spec_width() == w,
                color.spec_height() == h,
                depth.spec_width() == w,
                depth.spec_height() == h,
                w * h <= c0.len(),
                w * h <= d0.len(),
                w <= u32::MAX,
                height == h,
                cover_ok == (|x: u32, y: u32, r: Option<(u32, T)>| cover.ensures((index, x, y), r)),
                shade_ok == (|t: T, c: [u8; 4]| shade.ensures((t,), c)),
                c0 == old(color)@,
                d0 == old(depth)@,
                w == old(color).spec_width(),
                h == old(color).spec_height(),
                rect.x_min <= x <= rect.x_max + 1,
                rect.x_max < w,
                rect.y_min <= rect.y_max < h,
                forall|x: u32, y: u32| cover.requires((index, x, y)),
                forall|t: T| shade.requires((t,)),
                scanned(
                    cover_ok,
                    shade_ok,
                    |px: int, py: int| visited_before(rect, x as int, rect.y_min as int, px, py),
                    w,
                    h,
                    c0,
                    d0,
                    color@,
                    depth@,
                ),
            decreases rect.x_max + 1 - x,
        {
            let mut y = rect.y_min;
            while y <= rect.y_max
                invariant
                    color.wf(),
                    depth.wf(),
                    color.spec_width() == w,
                    color.spec_height() == h,
                    depth.spec_width() == w,
                    depth.spec_height() == h,
                    w * h <= c0.len(),
                    w * h <= d0.len(),
                    w <= u32::MAX,
                    height == h,
                    cover_ok == (|x: u32, y: u32, r: Option<(u32, T)>| cover.ensures((index, x, y), r)),
                    shade_ok == (|t: T, c: [u8; 4]| shade.ensures((t,), c)),
                    c0 == old(color)@,
                    d0 == old(depth)@,
                    w == old(color).spec_width(),
                    h == old(color).spec_height(),
                    rect.x_min <= x <= rect.x_max,
                    rect.x_max < w,
                    rect.y_min <= y <= rect.y_max + 1,
                    rect.y_max < h,
                    forall|x: u32, y: u32| cover.requires((index, x, y)),
                    forall|t: T| shade.requires((t,)),
                    scanned(
                        cover_ok,
                        shade_ok,
                        |px: int, py: int| visited_before(rect, x as int, y as int, px, py),
                        w,
                        h,
                        c0,
                        d0,
                        color@,
                        depth@,
                    ),
                decreases rect.y_max + 1 - y,
            {
                let ghost c_prev = color@;
                let ghost d_prev = depth@;
                let ghost ti = target_index(w, h, x as int, y as int);
                let ghost before = |px: int, py: int| visited_before(rect, x as int, y as int, px, py);
                let ghost after = |px: int, py: int| visited_before(rect, x as int, y + 1, px, py);
                proof {
                    lemma_target_in_grid(w, h, x as int, y as int);
                    assert(!region_targets(before, w, h, ti)) by {
                        if region_targets(before, w, h, ti) {
                            let (px, py) = choose|px: int, py: int|
                                #[trigger] before(px, py) && target_index(w, h, px, py) == ti;
                            lemma_target_injective(w, h, px, py, x as int, y as int);
                        }
                    }
                }
                let row = height - 1 - y;
                let r = cover(index, x, y);
                let ghost r_seen = r;
                match r {
                    Some((d, t)) => {
                        if depth_less(d, depth.pixel_bits(x, row)) {
                            let c = shade(t);
                            depth.set_pixel_bits(x, row, d);
                            color.set_pixel_rgba(x, row, c);
                            proof {
                                assert(fragment_effect(shade_ok, r_seen, d_prev[ti], c_prev[ti], depth@[ti], color@[ti]));
                            }
                        } else {
                            proof {
                                // a rejected fragment is never shaded: any colour witnesses it
                                let c = [0u8, 0u8, 0u8, 0u8];
                                assert(fragment_effect(shade_ok, r_seen, d_prev[ti], c_prev[ti], depth@[ti], color@[ti]));
                            }
                        }
                    },
                    None => {},
                }
                proof {
                    assert(cover_ok(x, y, r_seen));
                    assert forall|i: int|
                        0 <= i < c0.len() && !region_targets(after, w, h, i) implies color@[i] == c0[i] by {
                        assert(after(x as int, y as int));
                        if region_targets(before, w, h, i) {
                            let (px, py) = choose|px: int, py: int|
                                #[trigger] before(px, py) && target_index(w, h, px, py) == i;
                            assert(after(px, py));
                        }
                    }
                    assert forall|i: int|
                        0 <= i < d0.len() && !region_targets(after, w, h, i) implies depth@[i] == d0[i] by {
                        assert(after(x as int, y as int));
                        if region_targets(before, w, h, i) {
                            let (px, py) = choose|px: int, py: int|
                                #[trigger] before(px, py) && target_index(w, h, px, py) == i;
                            assert(after(px, py));
                        }
                    }
                    assert forall|px: int, py: int| #[trigger] after(px, py) implies exists|r: Option<(u32, T)>|
                        #[trigger] cover_ok(px as u32, py as u32, r) && {
                            let i = target_index(w, h, px, py);
                            fragment_effect(shade_ok, r, d0[i], c0[i], depth@[i], color@[i])
                        } by {
                        if px == x && py == y {
                            assert(c_prev[ti] == c0[ti]);
                            assert(d_prev[ti] == d0[ti]);
                            assert(fragment_effect(shade_ok, r_seen, d0[ti], c0[ti], depth@[ti], color@[ti]));
                            assert(cover_ok(px as u32, py as u32, r_seen));
                        } else {
                            assert(before(px, py));
                            let i = target_index(w, h, px, py);
                            lemma_target_in_grid(w, h, px, py);
                            if i == ti {
                                lemma_target_injective(w, h, px, py, x as int, y as int);
                            }
                            let r0 = choose|r: Option<(u32, T)>|
                                #[trigger] cover_ok(px as u32, py as u32, r)
                                    && fragment_effect(shade_ok, r, d0[i], c0[i], d_prev[i], c_prev[i]);
                            assert(color@[i] == c_prev[i]);
                            assert(depth@[i] == d_prev[i]);
                            assert(cover_ok(px as u32, py as u32, r0));
                        }
                    }
                }
                y += 1;
            }
            proof {
                let inner = |px: int, py: int| visited_before(rect, x as int, y as int, px, py);
                let next = |px: int, py: int| visited_before(rect, x + 1, rect.y_min as int, px, py);
                assert(inner =~= next);
            }
            x += 1;
        }
        proof {
            let fin = |px: int, py: int| visited_before(rect, x as int, rect.y_min as int, px, py);
            let whole = |px: int, py: int| rect_contains(rect, px, py);
            assert(fin =~= whole);
        }
    }

    /// The pixels scanned for `p`: none when it is culled, else its
    /// bounding box.
    pub open spec fn scan_area(&self, p: Primitive, width: nat, height: nat) -> Option<PixelRect> {
        if culled(self@.cull_face, p.facing) {
            None
        } else {
            spec_bounding_box(p, width, height)
        }
    }
}

} // verus!
