use vstd::prelude::*;

use crate::convert::cast_usize;

verus! {

/// The pixels `0 .. len` all holding `value`.
pub open spec fn filled(len: nat, value: u32) -> Seq<u32> {
    Seq::new(len, |i: int| value)
}

/// Row-major offset of pixel `(x, y)` in an image `width` pixels wide.
pub open spec fn pixel_index(width: nat, x: nat, y: nat) -> int {
    (y * width + x) as int
}

/// The pixel that nearest-neighbour sampling reads for the integer texel
/// coordinates `(x, y)`: each is held to the last column or row.
pub open spec fn texel_index(width: nat, height: nat, x: nat, y: nat) -> int {
    let cx = if x < width { x } else { (width - 1) as nat };
    let cy = if y < height { y } else { (height - 1) as nat };
    pixel_index(width, cx, cy)
}

/// Distinct pixels of a grid have distinct offsets.
pub proof fn lemma_pixel_index_injective(width: nat, x: nat, y: nat, x2: nat, y2: nat)
    requires
        x < width,
        x2 < width,
        pixel_index(width, x, y) == pixel_index(width, x2, y2),
    ensures
        x == x2,
        y == y2,
{
    if y < y2 {
        assert((y + 1) * width <= y2 * width) by (nonlinear_arith)
            requires
                y + 1 <= y2,
        ;
        assert((y + 1) * width == y * width + width) by (nonlinear_arith);
    } else if y2 < y {
        assert((y2 + 1) * width <= y * width) by (nonlinear_arith)
            requires
                y2 + 1 <= y,
        ;
        assert((y2 + 1) * width == y2 * width + width) by (nonlinear_arith);
    }
}

/// A pixel of a `width` by `height` grid has an offset below `width * height`.
pub proof fn lemma_pixel_index_in_grid(width: nat, height: nat, x: nat, y: nat)
    requires
        x < width,
        y < height,
    ensures
        0 <= pixel_index(width, x, y) < width * height,
{
    assert(y * width + x < width * height) by (nonlinear_arith)
        requires
            x < width,
            y < height,
    ;
}

/// A write to an image's words, as `set_pixel_bits` and `clear_bits` make
/// them.
pub enum PixelWrite {
    Put { x: u32, y: u32, value: u32 },
    Clear { value: u32 },
}

/// The words of an image `width` pixels wide after the write `w`.
pub open spec fn apply_write(pixels: Seq<u32>, width: nat, w: PixelWrite) -> Seq<u32> {
    match w {
        PixelWrite::Put { x, y, value } => pixels.update(pixel_index(width, x as nat, y as nat), value),
        PixelWrite::Clear { value } => filled(pixels.len(), value),
    }
}

/// The words after the writes `ws`, first to last.
pub open spec fn apply_writes(pixels: Seq<u32>, width: nat, ws: Seq<PixelWrite>) -> Seq<u32>
    decreases ws.len(),
{
    if ws.len() == 0 {
        pixels
    } else {
        apply_write(apply_writes(pixels, width, ws.drop_last()), width, ws.last())
    }
}

/// The value that the last of the writes `ws` touching `(x, y)` left there,
/// or `initial` when none did.
pub open spec fn last_written(ws: Seq<PixelWrite>, x: nat, y: nat, initial: u32) -> u32
    decreases ws.len(),
{
    if ws.len() == 0 {
        initial
    } else {
        match ws.last() {
            PixelWrite::Put { x: wx, y: wy, value } => if wx == x && wy == y {
                value
            } else {
                last_written(ws.drop_last(), x, y, initial)
            },
            PixelWrite::Clear { value } => value,
        }
    }
}

/// The write stays inside a `width` by `height` grid.
pub open spec fn write_in_grid(w: PixelWrite, width: nat, height: nat) -> bool {
    match w {
        PixelWrite::Put { x, y, value } => x < width && y < height,
        PixelWrite::Clear { value } => true,
    }
}

/// Buffer integrity: after any run of in-grid pixel writes and clears, each
/// pixel holds the last value written to it, or what it held before when
/// nothing was.
pub proof fn lemma_last_write_wins(
    pixels: Seq<u32>,
    width: nat,
    height: nat,
    ws: Seq<PixelWrite>,
    x: nat,
    y: nat,
)
    requires
        width * height <= pixels.len(),
        x < width,
        y < height,
        forall|k: int| 0 <= k < ws.len() ==> write_in_grid(#[trigger] ws[k], width, height),
    ensures
        apply_writes(pixels, width, ws).len() == pixels.len(),
        apply_writes(pixels, width, ws)[pixel_index(width, x, y)] == last_written(
            ws,
            x,
            y,
            pixels[pixel_index(width, x, y)],
        ),
    decreases ws.len(),
{
    lemma_pixel_index_in_grid(width, height, x, y);
    if ws.len() > 0 {
        let rest = ws.drop_last();
        assert forall|k: int| 0 <= k < rest.len() implies write_in_grid(#[trigger] rest[k], width, height) by {
            assert(rest[k] == ws[k]);
        }
        lemma_last_write_wins(pixels, width, height, rest, x, y);
        assert(write_in_grid(ws[ws.len() - 1], width, height));
        match ws.last() {
            PixelWrite::Put { x: wx, y: wy, value } => {
                lemma_pixel_index_in_grid(width, height, wx as nat, wy as nat);
                if pixel_index(width, wx as nat, wy as nat) == pixel_index(width, x, y) {
                    lemma_pixel_index_injective(width, wx as nat, wy as nat, x, y);
                }
            },
            PixelWrite::Clear { value } => {},
        }
    }
}

/// Clearing twice with one value leaves what clearing once does.
pub proof fn lemma_clear_idempotent(pixels: Seq<u32>, width: nat, value: u32)
    ensures
        apply_write(apply_write(pixels, width, PixelWrite::Clear { value }), width, PixelWrite::Clear { value })
            == apply_write(pixels, width, PixelWrite::Clear { value }),
{
}

/// Nearest-neighbour sampling never leaves a non-empty image, and reads
/// past the last column or row as at that column or row.
pub proof fn lemma_texel_clamped(width: nat, height: nat, x: nat, y: nat)
    requires
        width > 0,
        height > 0,
    ensures
        0 <= texel_index(width, height, x, y) < width * height,
        texel_index(width, height, x, y) == texel_index(
            width,
            height,
            vstd::math::min(x as int, width - 1) as nat,
            vstd::math::min(y as int, height - 1) as nat,
        ),
{
    let cx = if x < width { x } else { (width - 1) as nat };
    let cy = if y < height { y } else { (height - 1) as nat };
    lemma_pixel_index_in_grid(width, height, cx, cy);
}

/// The word that stores the colour `p` (red, green, blue, alpha), the first
/// channel in the lowest byte.
pub open spec fn rgba_word(p: Seq<u8>) -> u32 {
    (p[0] as u32) | ((p[1] as u32) << 8u32) | ((p[2] as u32) << 16u32) | ((p[3] as u32) << 24u32)
}

/// The four channels stored in the word `w`, lowest byte first.
pub open spec fn word_rgba(w: u32) -> Seq<u8> {
    seq![(w & 0xff) as u8, ((w >> 8u32) & 0xff) as u8, ((w >> 16u32) & 0xff) as u8, (w >> 24u32) as u8]
}

/// Packing four channels into a word and reading them back gives the same
/// channels.
pub proof fn lemma_rgba_round_trip(p: Seq<u8>)
    requires
        p.len() == 4,
    ensures
        word_rgba(rgba_word(p)) == p,
{
    let (a, b, c, d) = (p[0], p[1], p[2], p[3]);
    let w = rgba_word(p);
    assert((w & 0xff) as u8 == a && ((w >> 8u32) & 0xff) as u8 == b && ((w >> 16u32) & 0xff) as u8
        == c && (w >> 24u32) as u8 == d) by (bit_vector)
        requires
            w == (a as u32) | ((b as u32) << 8u32) | ((c as u32) << 16u32) | ((d as u32) << 24u32),
    ;
    assert(word_rgba(w) =~= p);
}

fn rgba_to_word(p: [u8; 4]) -> (r: u32)
    ensures
        r == rgba_word(p@),
{
    (p[0] as u32) | ((p[1] as u32) << 8u32) | ((p[2] as u32) << 16u32) | ((p[3] as u32) << 24u32)
}

fn word_to_rgba(w: u32) -> (r: [u8; 4])
    ensures
        r@ == word_rgba(w),
{
    let r = [(w & 0xff) as u8, ((w >> 8u32) & 0xff) as u8, ((w >> 16u32) & 0xff) as u8, (w >> 24u32) as u8];
    assert(r@ =~= word_rgba(w));
    r
}

/// The raw words of an image, row-major.
impl AsRef<[u32]> for Image {
    fn as_ref(&self) -> &[u32] {
        self.buffer.as_slice()
    }
}

/// A rectangular grid of 32-bit pixel words, stored row-major.
///
/// A word holds either a colour, four 8-bit channels in little-endian order,
/// or a depth sample, the bit pattern of a single-precision float.
pub struct Image {
    width: usize,
    height: usize,
    buffer: Vec<u32>,
}

impl View for Image {
    type V = Seq<u32>;

    closed spec fn view(&self) -> Seq<u32> {
        self.buffer@
    }
}

impl Image {
    /// The buffer holds the whole grid and both sides fit in `u32`.
    pub closed spec fn wf(&self) -> bool {
        &&& self.width <= u32::MAX
        &&& self.height <= u32::MAX
        &&& self.width * self.height <= self.buffer@.len()
        &&& self.width * self.height <= usize::MAX
    }

    pub closed spec fn spec_width(&self) -> nat {
        self.width as nat
    }

    pub closed spec fn spec_height(&self) -> nat {
        self.height as nat
    }

    /// The image covers its whole grid: `width * height` words at least.
    pub proof fn lemma_covers_grid(&self)
        requires
            self.wf(),
        ensures
            self.spec_width() <= u32::MAX,
            self.spec_height() <= u32::MAX,
            self.spec_width() * self.spec_height() <= self@.len(),
    {
    }

    /// An image of the given size with every word zero.
    pub fn new(width: u32, height: u32) -> (r: Image)
        requires
            width * height <= usize::MAX,
        ensures
            r.wf(),
            r.spec_width() == width,
            r.spec_height() == height,
            r@ == filled((width * height) as nat, 0),
    {
        Image::from_pixel_bits(width, height, 0)
    }

    /// An image of the given size with every word equal to `pixel`.
    pub fn from_pixel_bits(width: u32, height: u32, pixel: u32) -> (r: Image)
        requires
            width * height <= usize::MAX,
        ensures
            r.wf(),
            r.spec_width() == width,
            r.spec_height() == height,
            r@ == filled((width * height) as nat, pixel),
    {
        let w = cast_usize(width);
        let h = cast_usize(height);
        let n: usize = w * h;
        let mut buffer: Vec<u32> = Vec::with_capacity(n);
        while buffer.len() < n
            invariant
                buffer.len() <= n,
                forall|i: int| 0 <= i < buffer.len() ==> buffer@[i] == pixel,
            decreases n - buffer.len(),
        {
            buffer.push(pixel);
        }
        proof {
            assert(buffer@ =~= filled(n as nat, pixel));
        }
        Image { width: w, height: h, buffer }
    }
}

impl Image {
    /// An image of the given size with every pixel the colour `pixel`.
    pub fn from_pixel_rgba(width: u32, height: u32, pixel: [u8; 4]) -> (r: Image)
        requires
            width * height <= usize::MAX,
        ensures
            r.wf(),
            r.spec_width() == width,
            r.spec_height() == height,
            r@ == filled((width * height) as nat, rgba_word(pixel@)),
    {
        Image::from_pixel_bits(width, height, rgba_to_word(pixel))
    }

    /// Takes `buffer` as the pixels of a `width` by `height` image; `None`
    /// when it holds fewer than `width * height` words.
    pub fn from_raw(buffer: Vec<u32>, width: u32, height: u32) -> (r: Option<Image>)
        ensures
            r.is_some() <==> width * height <= buffer@.len(),
            r matches Some(img) ==> {
                &&& img.wf()
                &&& img.spec_width() == width
                &&& img.spec_height() == height
                &&& img@ == buffer@
            },
    {
        let w = cast_usize(width);
        let h = cast_usize(height);
        assert((w as u64) * (h as u64) <= u64::MAX) by (nonlinear_arith)
            requires
                w <= u32::MAX,
                h <= u32::MAX,
        ;
        if (w as u64) * (h as u64) <= buffer.len() as u64 {
            Some(Image { width: w, height: h, buffer })
        } else {
            None
        }
    }

    /// Gives up the image, returning its words.
    pub fn into_raw(self) -> (r: Vec<u32>)
        ensures
            r@ == self@,
    {
        self.buffer
    }

    /// The word stored at `(x, y)`.
    pub fn pixel_bits(&self, x: u32, y: u32) -> (r: u32)
        requires
            self.wf(),
            x < self.spec_width(),
            y < self.spec_height(),
        ensures
            r == self@[pixel_index(self.spec_width(), x as nat, y as nat)],
    {
        proof { self.lemma_index_in_grid(x as nat, y as nat); }
        self.buffer[y as usize * self.width + x as usize]
    }

    /// The colour stored at `(x, y)`.
    pub fn pixel_rgba(&self, x: u32, y: u32) -> (r: [u8; 4])
        requires
            self.wf(),
            x < self.spec_width(),
            y < self.spec_height(),
        ensures
            r@ == word_rgba(self@[pixel_index(self.spec_width(), x as nat, y as nat)]),
    {
        word_to_rgba(self.pixel_bits(x, y))
    }

    /// Stores the word `pixel` at `(x, y)`.
    pub fn set_pixel_bits(&mut self, x: u32, y: u32, pixel: u32)
        requires
            old(self).wf(),
            x < old(self).spec_width(),
            y < old(self).spec_height(),
        ensures
            final(self).wf(),
            final(self).spec_width() == old(self).spec_width(),
            final(self).spec_height() == old(self).spec_height(),
            final(self)@ == old(self)@.update(pixel_index(old(self).spec_width(), x as nat, y as nat), pixel),
    {
        proof { self.lemma_index_in_grid(x as nat, y as nat); }
        let i = y as usize * self.width + x as usize;
        self.buffer.set(i, pixel);
    }

    /// Stores the colour `pixel` at `(x, y)`.
    pub fn set_pixel_rgba(&mut self, x: u32, y: u32, pixel: [u8; 4])
        requires
            old(self).wf(),
            x < old(self).spec_width(),
            y < old(self).spec_height(),
        ensures
            final(self).wf(),
            final(self).spec_width() == old(self).spec_width(),
            final(self).spec_height() == old(self).spec_height(),
            final(self)@ == old(self)@.update(
                pixel_index(old(self).spec_width(), x as nat, y as nat),
                rgba_word(pixel@),
            ),
    {
        self.set_pixel_bits(x, y, rgba_to_word(pixel));
    }

    /// Overwrites every word with `pixel`.
    pub fn clear_bits(&mut self, pixel: u32)
        requires
            old(self).wf(),
        ensures
            final(self).wf(),
            final(self).spec_width() == old(self).spec_width(),
            final(self).spec_height() == old(self).spec_height(),
            final(self)@ == filled(old(self)@.len(), pixel),
    {
        let n = self.buffer.len();
        let mut i: usize = 0;
        while i < n
            invariant
                self.wf(),
                self.spec_width() == old(self).spec_width(),
                self.spec_height() == old(self).spec_height(),
                n == self@.len() == old(self)@.len(),
                i <= n,
                forall|j: int| 0 <= j < i ==> self@[j] == pixel,
            decreases n - i,
        {
            self.buffer.set(i, pixel);
            i += 1;
        }
        assert(self@ =~= filled(n as nat, pixel));
    }

    /// Overwrites every pixel with the colour `pixel`.
    pub fn clear_rgba(&mut self, pixel: [u8; 4])
        requires
            old(self).wf(),
        ensures
            final(self).wf(),
            final(self).spec_width() == old(self).spec_width(),
            final(self).spec_height() == old(self).spec_height(),
            final(self)@ == filled(old(self)@.len(), rgba_word(pixel@)),
    {
        self.clear_bits(rgba_to_word(pixel));
    }

    /// `(width, height)`.
    pub fn dimensions(&self) -> (r: (u32, u32))
        requires
            self.wf(),
        ensures
            r.0 == self.spec_width(),
            r.1 == self.spec_height(),
    {
        (self.width as u32, self.height as u32)
    }

    pub fn width(&self) -> (r: u32)
        requires
            self.wf(),
        ensures
            r == self.spec_width(),
    {
        self.width as u32
    }

    pub fn height(&self) -> (r: u32)
        requires
            self.wf(),
        ensures
            r == self.spec_height(),
    {
        self.height as u32
    }

    /// The colour nearest-neighbour sampling reads at texel `(x, y)`, each
    /// coordinate held to the image; all four channels zero for an empty image.
    pub fn nearest_texel(&self, x: u32, y: u32) -> (r: [u8; 4])
        requires
            self.wf(),
        ensures
            self.spec_width() == 0 || self.spec_height() == 0 ==> r@ == seq![0u8, 0u8, 0u8, 0u8],
            self.spec_width() > 0 && self.spec_height() > 0 ==> r@ == word_rgba(
                self@[texel_index(self.spec_width(), self.spec_height(), x as nat, y as nat)],
            ),
    {
        if self.width == 0 || self.height == 0 {
            let r = [0u8, 0u8, 0u8, 0u8];
            assert(r@ =~= seq![0u8, 0u8, 0u8, 0u8]);
            return r;
        }
        let last_x = (self.width - 1) as u32;
        let last_y = (self.height - 1) as u32;
        let cx = if x < last_x { x } else { last_x };
        let cy = if y < last_y { y } else { last_y };
        self.pixel_rgba(cx, cy)
    }

    proof fn lemma_index_in_grid(&self, x: nat, y: nat)
        requires
            self.wf(),
            x < self.spec_width(),
            y < self.spec_height(),
        ensures
            0 <= pixel_index(self.spec_width(), x, y) < self@.len(),
            y * self.spec_width() + x <= usize::MAX,
    {
        let w = self.spec_width();
        let h = self.spec_height();
        assert(y * w + x < h * w) by (nonlinear_arith)
            requires
                x < w,
                y < h,
        ;
        assert(h * w == w * h) by (nonlinear_arith);
    }
}

} // verus!
