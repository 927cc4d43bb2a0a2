//! Raster images and the integer core of seed-based contour tracing.
use std::collections::BTreeSet;
use vstd::prelude::*;

verus! {

/// An 8-bit RGBA colour.
#[derive(Debug, Clone, Copy, PartialEq, Eq, Structural)]
pub struct Rgba {
    pub r: u8,
    pub g: u8,
    pub b: u8,
    pub a: u8,
}

impl Rgba {
    /// Opaque white.
    pub fn white() -> (c: Rgba)
        ensures
            c == (Rgba { r: 255, g: 255, b: 255, a: 255 }),
    {
        Rgba { r: 255, g: 255, b: 255, a: 255 }
    }

    /// Opaque black.
    pub fn black() -> (c: Rgba)
        ensures
            c == (Rgba { r: 0, g: 0, b: 0, a: 255 }),
    {
        Rgba { r: 0, g: 0, b: 0, a: 255 }
    }
}

/// A pixel position inside a raster image.
#[derive(Debug, Clone, Copy, PartialEq, Eq, Structural)]
pub struct PixelCoord {
    pub x: u32,
    pub y: u32,
}

impl PixelCoord {
    pub fn new(x: u32, y: u32) -> (c: PixelCoord)
        ensures
            c.x == x,
            c.y == y,
    {
        PixelCoord { x, y }
    }

    /// The coordinate as the integer pair that visited sets are keyed by.
    pub open spec fn key(self) -> (u32, u32) {
        (self.x, self.y)
    }
}

/// Errors of image construction, pixel access and tracing.
#[derive(Debug, Clone, Copy, PartialEq, Eq, Structural)]
pub enum TraceError {
    ImageTooLarge,
    InvalidPixelCount { expected: usize, actual: usize },
    SeedOutOfBounds(PixelCoord),
    PixelOutOfBounds(PixelCoord),
}

/// A place where the trace had more than one plausible continuation.
#[derive(Debug, Clone, Copy, PartialEq, Eq, Structural)]
pub struct TraceAmbiguity {
    pub at: PixelCoord,
    pub candidate_count: usize,
}

/// Row-major RGBA raster; `pixels` holds `width * height` colours.
#[derive(Debug, Clone)]
pub struct RasterImage {
    pub width: u32,
    pub height: u32,
    pixels: Vec<Rgba>,
}

/// The pixel count of a `width` x `height` image, when it fits the 32-bit
/// index space that images use.
pub open spec fn pixel_count(width: u32, height: u32) -> Option<nat> {
    if width * height <= u32::MAX {
        Some((width * height) as nat)
    } else {
        None
    }
}

/// Row-major index of an in-bounds coordinate.
pub open spec fn row_major_index(width: u32, coord: PixelCoord) -> int {
    coord.y * width + coord.x
}

impl View for RasterImage {
    type V = Seq<Rgba>;

    closed spec fn view(&self) -> Seq<Rgba> {
        self.pixels@
    }
}

impl RasterImage {
    /// The public `width` field.
    pub closed spec fn spec_width(&self) -> u32 {
        self.width
    }

    /// The public `height` field.
    pub closed spec fn spec_height(&self) -> u32 {
        self.height
    }

    /// Well-formed: the pixel buffer holds exactly `width * height` colours,
    /// a count that fits in 32 bits.
    pub open spec fn wf(&self) -> bool {
        pixel_count(self.spec_width(), self.spec_height()) == Some(self@.len())
    }

    pub open spec fn in_bounds(&self, coord: PixelCoord) -> bool {
        coord.x < self.spec_width() && coord.y < self.spec_height()
    }

    /// `coord` is inside the image and its row-major index fits in 32 bits.
    pub open spec fn addressable(&self, coord: PixelCoord) -> bool {
        self.in_bounds(coord) && row_major_index(self.spec_width(), coord) <= u32::MAX
    }

    /// The colour at `coord`, or `None` outside the image.
    pub open spec fn pixel_spec(&self, coord: PixelCoord) -> Option<Rgba> {
        if self.addressable(coord) {
            Some(self@[row_major_index(self.spec_width(), coord)])
        } else {
            None
        }
    }

    /// The pixel buffer reaches the index of `coord` whenever that index is
    /// addressable (always so in a well-formed image).
    pub open spec fn readable(&self, coord: PixelCoord) -> bool {
        self.addressable(coord) ==> row_major_index(self.spec_width(), coord) < self@.len()
    }

    /// Builds an image from row-major pixels; fails when `width * height`
    /// overflows 32 bits or when the buffer has another length.
    pub fn new(width: u32, height: u32, pixels: Vec<Rgba>) -> (r: Result<RasterImage, TraceError>)
        ensures
            match r {
                Ok(image) => {
                    &&& pixel_count(width, height) == Some(pixels@.len())
                    &&& image.spec_width() == width
                    &&& image.spec_height() == height
                    &&& image@ == pixels@
                    &&& image.wf()
                },
                Err(TraceError::ImageTooLarge) => pixel_count(width, height) is None,
                Err(TraceError::InvalidPixelCount { expected, actual }) => {
                    &&& pixel_count(width, height) == Some(expected as nat)
                    &&& actual == pixels@.len()
                    &&& expected != actual
                },
                Err(_) => false,
            },
    {
        let expected: usize = match width.checked_mul(height) {
            Some(value) => value as usize,
            None => return Err(TraceError::ImageTooLarge),
        };
        if pixels.len() != expected {
            return Err(TraceError::InvalidPixelCount { expected, actual: pixels.len() });
        }
        Ok(RasterImage { width, height, pixels })
    }
}


impl RasterImage {
    /// An image of `width` x `height` pixels, all of colour `color`.
    pub fn filled(width: u32, height: u32, color: Rgba) -> (r: Result<RasterImage, TraceError>)
        ensures
            match r {
                Ok(image) => {
                    &&& pixel_count(width, height) is Some
                    &&& image.spec_width() == width
                    &&& image.spec_height() == height
                    &&& image@ == Seq::new(pixel_count(width, height)->0, |i: int| color)
                    &&& image.wf()
                },
                Err(TraceError::ImageTooLarge) => pixel_count(width, height) is None,
                Err(_) => false,
            },
    {
        let count: usize = match width.checked_mul(height) {
            Some(value) => value as usize,
            None => return Err(TraceError::ImageTooLarge),
        };
        let mut pixels: Vec<Rgba> = Vec::new();
        while pixels.len() < count
            invariant
                pixels.len() <= count,
                forall|i: int| 0 <= i < pixels@.len() ==> pixels@[i] == color,
            decreases count - pixels.len(),
        {
            pixels.push(color);
        }
        assert(pixels@ == Seq::new(count as nat, |i: int| color));
        RasterImage::new(width, height, pixels)
    }

    /// Row-major index of `coord`, or `None` when it lies outside the image
    /// or its index overflows 32 bits.
    fn index_of(&self, coord: PixelCoord) -> (r: Option<usize>)
        ensures
            r == (if self.in_bounds(coord) && row_major_index(self.spec_width(), coord) <= u32::MAX {
                Some(row_major_index(self.spec_width(), coord) as usize)
            } else {
                None::<usize>
            }),
    {
        if coord.x >= self.width || coord.y >= self.height {
            return None;
        }
        let row = match coord.y.checked_mul(self.width) {
            Some(value) => value,
            None => return None,
        };
        let index = match row.checked_add(coord.x) {
            Some(value) => value,
            None => return None,
        };
        Some(index as usize)
    }

    /// In a well-formed image every in-bounds coordinate has an index below
    /// the pixel count.
    pub proof fn lemma_in_bounds_index(&self, coord: PixelCoord)
        requires
            self.wf(),
            self.in_bounds(coord),
        ensures
            0 <= row_major_index(self.spec_width(), coord) < self@.len(),
            row_major_index(self.spec_width(), coord) <= u32::MAX,
    {
        let w = self.spec_width() as int;
        let h = self.spec_height() as int;
        let x = coord.x as int;
        let y = coord.y as int;
        assert(y * w + x < h * w) by (nonlinear_arith)
            requires
                0 <= x < w,
                0 <= y < h,
        ;
        assert(0 <= y * w) by (nonlinear_arith)
            requires
                0 <= y,
                0 <= w,
        ;
        assert(h * w == w * h) by (nonlinear_arith);
    }

    /// Every coordinate of a well-formed image is readable.
    pub proof fn lemma_wf_readable(&self, coord: PixelCoord)
        requires
            self.wf(),
        ensures
            self.readable(coord),
    {
        if self.in_bounds(coord) {
            self.lemma_in_bounds_index(coord);
        }
    }

    /// The colour at `coord`, or `None` outside the image.
    pub fn pixel(&self, coord: PixelCoord) -> (r: Option<Rgba>)
        requires
            self.readable(coord),
        ensures
            r == self.pixel_spec(coord),
    {
        match self.index_of(coord) {
            Some(index) => Some(self.pixels[index]),
            None => None,
        }
    }

    /// The image width in pixels.
    pub fn width(&self) -> (w: u32)
        ensures
            w == self.spec_width(),
    {
        self.width
    }

    /// The image height in pixels.
    pub fn height(&self) -> (h: u32)
        ensures
            h == self.spec_height(),
    {
        self.height
    }

    fn in_bounds_exec(&self, coord: PixelCoord) -> (b: bool)
        ensures
            b == self.in_bounds(coord),
    {
        coord.x < self.width && coord.y < self.height
    }

    /// Overwrites the colour at `coord`; fails, leaving the image unchanged,
    /// when `coord` is outside the image (or its index overflows 32 bits).
    pub fn set_pixel(&mut self, coord: PixelCoord, color: Rgba) -> (r: Result<(), TraceError>)
        requires
            old(self).readable(coord),
        ensures
            old(self).wf() ==> final(self).wf(),
            final(self).spec_width() == old(self).spec_width(),
            final(self).spec_height() == old(self).spec_height(),
            match r {
                Ok(()) => {
                    &&& old(self).addressable(coord)
                    &&& final(self)@ == old(self)@.update(
                        row_major_index(old(self).spec_width(), coord),
                        color,
                    )
                },
                Err(e) => {
                    &&& !old(self).addressable(coord)
                    &&& e == TraceError::PixelOutOfBounds(coord)
                    &&& final(self)@ == old(self)@
                },
            },
    {
        let index = match self.index_of(coord) {
            Some(index) => index,
            None => return Err(TraceError::PixelOutOfBounds(coord)),
        };
        self.pixels.set(index, color);
        Ok(())
    }
}

/// Rows of width `w` do not overlap: equal offsets within two rows mean the
/// same row and column.
proof fn lemma_rows_disjoint(w: int, ax: int, ay: int, bx: int, by: int)
    by (nonlinear_arith)
    requires
        ay * w + ax == by * w + bx,
        0 <= ax < w,
        0 <= bx < w,
        0 <= ay,
        0 <= by,
    ensures
        ay == by,
        ax == bx,
{
}

/// Distinct in-bounds coordinates of a row-major image have distinct indices.
proof fn lemma_row_major_injective(width: u32, a: PixelCoord, b: PixelCoord)
    requires
        a.x < width,
        b.x < width,
        row_major_index(width, a) == row_major_index(width, b),
    ensures
        a == b,
{
    lemma_rows_disjoint(width as int, a.x as int, a.y as int, b.x as int, b.y as int);
}

/// Reading a pixel after a successful `set_pixel` gives the colour written
/// there, and every other pixel keeps the colour it had.
pub proof fn lemma_pixel_after_set(
    before: RasterImage,
    after: RasterImage,
    coord: PixelCoord,
    color: Rgba,
    other: PixelCoord,
)
    requires
        before.wf(),
        before.in_bounds(coord),
        after.spec_width() == before.spec_width(),
        after.spec_height() == before.spec_height(),
        after@ == before@.update(row_major_index(before.spec_width(), coord), color),
    ensures
        after.pixel_spec(coord) == Some(color),
        other != coord ==> after.pixel_spec(other) == before.pixel_spec(other),
{
    before.lemma_in_bounds_index(coord);
    if other != coord && before.in_bounds(other) {
        before.lemma_in_bounds_index(other);
        if row_major_index(before.spec_width(), other) == row_major_index(before.spec_width(), coord) {
            lemma_row_major_injective(before.spec_width(), other, coord);
        }
    }
}

/// The pixels of a `width` x `height` image after the colour writes
/// `writes`, in order; a write outside the image (or whose index overflows
/// 32 bits) changes nothing, as `set_pixel` does.
pub open spec fn pixels_after_writes(
    pixels: Seq<Rgba>,
    width: u32,
    height: u32,
    writes: Seq<(PixelCoord, Rgba)>,
) -> Seq<Rgba>
    decreases writes.len(),
{
    if writes.len() == 0 {
        pixels
    } else {
        let before = pixels_after_writes(pixels, width, height, writes.drop_last());
        let (coord, color) = writes.last();
        if coord.x < width && coord.y < height && row_major_index(width, coord) <= u32::MAX {
            before.update(row_major_index(width, coord), color)
        } else {
            before
        }
    }
}

/// The colour of the latest write at `coord` in `writes`, if any.
pub open spec fn latest_write(coord: PixelCoord, writes: Seq<(PixelCoord, Rgba)>) -> Option<Rgba>
    decreases writes.len(),
{
    if writes.len() == 0 {
        None
    } else if writes.last().0 == coord {
        Some(writes.last().1)
    } else {
        latest_write(coord, writes.drop_last())
    }
}

/// After any sequence of `set_pixel` calls on a well-formed image, the
/// image keeps its size, and reading a pixel inside it gives the colour of
/// the latest write there, or the colour it had before the writes when
/// there was none.
pub proof fn lemma_pixels_after_writes(
    before: RasterImage,
    after: RasterImage,
    writes: Seq<(PixelCoord, Rgba)>,
    coord: PixelCoord,
)
    requires
        before.wf(),
        after.spec_width() == before.spec_width(),
        after.spec_height() == before.spec_height(),
        after@ == pixels_after_writes(before@, before.spec_width(), before.spec_height(), writes),
    ensures
        after.wf(),
        before.in_bounds(coord) ==> after.pixel_spec(coord) == Some(
            match latest_write(coord, writes) {
                Some(color) => color,
                None => before@[row_major_index(before.spec_width(), coord)],
            },
        ),
        !before.in_bounds(coord) ==> after.pixel_spec(coord) is None,
    decreases writes.len(),
{
    lemma_writes_keep_length(before, writes);
    if before.in_bounds(coord) {
        before.lemma_in_bounds_index(coord);
        lemma_write_at(before, writes, coord);
    }
}

proof fn lemma_writes_keep_length(before: RasterImage, writes: Seq<(PixelCoord, Rgba)>)
    requires
        before.wf(),
    ensures
        pixels_after_writes(before@, before.spec_width(), before.spec_height(), writes).len() == before@.len(),
    decreases writes.len(),
{
    if writes.len() > 0 {
        lemma_writes_keep_length(before, writes.drop_last());
        let c = writes.last().0;
        if before.in_bounds(c) {
            before.lemma_in_bounds_index(c);
        }
    }
}

proof fn lemma_write_at(before: RasterImage, writes: Seq<(PixelCoord, Rgba)>, coord: PixelCoord)
    requires
        before.wf(),
        before.in_bounds(coord),
    ensures
        pixels_after_writes(before@, before.spec_width(), before.spec_height(), writes)[row_major_index(
            before.spec_width(),
            coord,
        )] == match latest_write(coord, writes) {
            Some(color) => color,
            None => before@[row_major_index(before.spec_width(), coord)],
        },
    decreases writes.len(),
{
    let w = before.spec_width();
    let h = before.spec_height();
    before.lemma_in_bounds_index(coord);
    if writes.len() > 0 {
        let init = writes.drop_last();
        lemma_write_at(before, init, coord);
        lemma_writes_keep_length(before, init);
        let (c, color) = writes.last();
        if c.x < w && c.y < h && row_major_index(w, c) <= u32::MAX {
            before.lemma_in_bounds_index(c);
            if c != coord && row_major_index(w, c) == row_major_index(w, coord) {
                lemma_row_major_injective(w, c, coord);
            }
        }
    }
}

/// Distance between two channel values.
pub open spec fn channel_diff(left: u8, right: u8) -> int {
    if left >= right {
        left - right
    } else {
        right - left
    }
}

/// Every channel of `left` lies within `tolerance` of the same channel of `right`.
pub open spec fn similar(left: Rgba, right: Rgba, tolerance: u8) -> bool {
    &&& channel_diff(left.r, right.r) <= tolerance
    &&& channel_diff(left.g, right.g) <= tolerance
    &&& channel_diff(left.b, right.b) <= tolerance
    &&& channel_diff(left.a, right.a) <= tolerance
}

fn abs_channel_diff(left: u8, right: u8) -> (d: u8)
    ensures
        d == channel_diff(left, right),
{
    if left >= right {
        left - right
    } else {
        right - left
    }
}

/// Whether every channel of the two colours differs by at most `tolerance`.
pub fn similar_color(left: Rgba, right: Rgba, tolerance: u8) -> (b: bool)
    ensures
        b == similar(left, right, tolerance),
{
    abs_channel_diff(left.r, right.r) <= tolerance && abs_channel_diff(left.g, right.g)
        <= tolerance && abs_channel_diff(left.b, right.b) <= tolerance && abs_channel_diff(
        left.a,
        right.a,
    ) <= tolerance
}

/// Sum of the absolute channel differences of two colours (0 to 1020); the
/// trace ranks colours by this sum scaled to the unit interval.
pub open spec fn color_distance_spec(left: Rgba, right: Rgba) -> int {
    channel_diff(left.r, right.r) + channel_diff(left.g, right.g) + channel_diff(left.b, right.b)
        + channel_diff(left.a, right.a)
}

/// Sum of the absolute channel differences of two colours.
pub fn color_distance(left: Rgba, right: Rgba) -> (d: u32)
    ensures
        d == color_distance_spec(left, right),
        d <= 1020,
{
    abs_channel_diff(left.r, right.r) as u32 + abs_channel_diff(left.g, right.g) as u32
        + abs_channel_diff(left.b, right.b) as u32 + abs_channel_diff(left.a, right.a) as u32
}

/// The neighbour of `center` at slot `k` of the 3x3 block scanned row by row
/// (`k = 3 * (dy + 1) + (dx + 1)`), when it is a distinct coordinate that
/// fits in 32 bits.
pub open spec fn neighbor(center: PixelCoord, k: int) -> Option<PixelCoord> {
    let dx = k % 3 - 1;
    let dy = k / 3 - 1;
    let x = center.x + dx;
    let y = center.y + dy;
    if k == 4 || x < 0 || y < 0 || x > u32::MAX || y > u32::MAX {
        None
    } else {
        Some(PixelCoord { x: x as u32, y: y as u32 })
    }
}

/// The neighbour at slot `k`, kept when it is unvisited, inside the image
/// and similar to the seed colour.
pub open spec fn accepted_neighbor(
    image: RasterImage,
    center: PixelCoord,
    seed_color: Rgba,
    visited: Set<(u32, u32)>,
    tolerance: u8,
    k: int,
) -> Option<PixelCoord> {
    match neighbor(center, k) {
        Some(c) => if !visited.contains(c.key()) && (match image.pixel_spec(c) {
            Some(color) => similar(color, seed_color, tolerance),
            None => false,
        }) {
            Some(c)
        } else {
            None
        },
        None => None,
    }
}

/// The accepted neighbours among the first `k` slots, in scan order.
pub open spec fn accepted_neighbors(
    image: RasterImage,
    center: PixelCoord,
    seed_color: Rgba,
    visited: Set<(u32, u32)>,
    tolerance: u8,
    k: nat,
) -> Seq<PixelCoord>
    decreases k,
{
    if k == 0 {
        Seq::empty()
    } else {
        let before = accepted_neighbors(image, center, seed_color, visited, tolerance, (k - 1) as nat);
        match accepted_neighbor(image, center, seed_color, visited, tolerance, k - 1) {
            Some(c) => before.push(c),
            None => before,
        }
    }
}

/// `c` is one of the eight pixels around `center`.
pub open spec fn adjacent(center: PixelCoord, c: PixelCoord) -> bool {
    &&& c != center
    &&& center.x - 1 <= c.x <= center.x + 1
    &&& center.y - 1 <= c.y <= center.y + 1
}

/// `c` is a pixel worth following from a seed of colour `seed_color`: not
/// yet visited (by its `(x, y)` entry), inside the image, and within
/// `tolerance` of the seed colour on every channel.
pub open spec fn followable(
    image: RasterImage,
    c: PixelCoord,
    seed_color: Rgba,
    visited: Set<(u32, u32)>,
    tolerance: u8,
) -> bool {
    &&& !visited.contains((c.x, c.y))
    &&& image.pixel_spec(c) matches Some(color)
    &&& similar(color, seed_color, tolerance)
}

proof fn lemma_accepted_slot(
    image: RasterImage,
    center: PixelCoord,
    seed_color: Rgba,
    visited: Set<(u32, u32)>,
    tolerance: u8,
    k: int,
)
    requires
        0 <= k < 9,
    ensures
        accepted_neighbor(image, center, seed_color, visited, tolerance, k) matches Some(c) ==> adjacent(center, c)
            && followable(image, c, seed_color, visited, tolerance),
{
}

proof fn lemma_accepted_neighbors_members(
    image: RasterImage,
    center: PixelCoord,
    seed_color: Rgba,
    visited: Set<(u32, u32)>,
    tolerance: u8,
    k: nat,
)
    requires
        k <= 9,
    ensures
        ({
            let s = accepted_neighbors(image, center, seed_color, visited, tolerance, k);
            &&& forall|j: int| #![trigger s[j]] 0 <= j < s.len() ==> exists|slot: int|
                0 <= slot < k && #[trigger] accepted_neighbor(image, center, seed_color, visited, tolerance, slot)
                    == Some(s[j])
            &&& forall|slot: int|
                0 <= slot < k ==> (#[trigger] accepted_neighbor(image, center, seed_color, visited, tolerance, slot)
                    matches Some(c) ==> s.contains(c))
        }),
    decreases k,
{
    if k > 0 {
        lemma_accepted_neighbors_members(image, center, seed_color, visited, tolerance, (k - 1) as nat);
        let before = accepted_neighbors(image, center, seed_color, visited, tolerance, (k - 1) as nat);
        let s = accepted_neighbors(image, center, seed_color, visited, tolerance, k);
        let last = accepted_neighbor(image, center, seed_color, visited, tolerance, k - 1);
        assert forall|j: int| #![trigger s[j]] 0 <= j < s.len() implies exists|slot: int|
            0 <= slot < k && #[trigger] accepted_neighbor(image, center, seed_color, visited, tolerance, slot)
                == Some(s[j]) by {
            if j < before.len() {
                assert(s[j] == before[j]);
            } else {
                assert(accepted_neighbor(image, center, seed_color, visited, tolerance, k - 1) == Some(s[j]));
            }
        }
        assert forall|slot: int|
            0 <= slot < k implies (#[trigger] accepted_neighbor(image, center, seed_color, visited, tolerance, slot)
                matches Some(c) ==> s.contains(c)) by {
            if let Some(c) = accepted_neighbor(image, center, seed_color, visited, tolerance, slot) {
                if slot < k - 1 {
                    let i = choose|i: int| 0 <= i < before.len() && before[i] == c;
                    assert(s[i] == c);
                } else {
                    assert(s[s.len() - 1] == c);
                }
            }
        }
    }
}

/// The neighbours `candidates` returns are exactly the adjacent followable
/// pixels.
pub proof fn lemma_candidates_exact(
    image: RasterImage,
    center: PixelCoord,
    seed_color: Rgba,
    visited: Set<(u32, u32)>,
    tolerance: u8,
)
    ensures
        ({
            let s = accepted_neighbors(image, center, seed_color, visited, tolerance, 9);
            &&& forall|j: int| 0 <= j < s.len() ==> adjacent(center, #[trigger] s[j])
                && followable(image, s[j], seed_color, visited, tolerance)
            &&& forall|c: PixelCoord|
                adjacent(center, c) && #[trigger] followable(image, c, seed_color, visited, tolerance)
                    ==> s.contains(c)
        }),
{
    lemma_accepted_neighbors_members(image, center, seed_color, visited, tolerance, 9);
    let s = accepted_neighbors(image, center, seed_color, visited, tolerance, 9);
    assert forall|j: int| 0 <= j < s.len() implies adjacent(center, #[trigger] s[j])
        && followable(image, s[j], seed_color, visited, tolerance) by {
        let slot = choose|slot: int|
            0 <= slot < 9 && #[trigger] accepted_neighbor(image, center, seed_color, visited, tolerance, slot)
                == Some(s[j]);
        lemma_accepted_slot(image, center, seed_color, visited, tolerance, slot);
    }
    assert forall|c: PixelCoord|
        adjacent(center, c) && #[trigger] followable(image, c, seed_color, visited, tolerance) implies s.contains(c) by {
        let dx: int = c.x - center.x;
        let dy: int = c.y - center.y;
        let slot: int = 3 * (dy + 1) + (dx + 1);
        assert(slot % 3 == dx + 1 && slot / 3 == dy + 1);
        assert(neighbor(center, slot) == Some(c));
        assert(accepted_neighbor(image, center, seed_color, visited, tolerance, slot) == Some(c));
    }
}

/// The 8-connected neighbours of `center` that are unvisited, inside the
/// image and within `tolerance` of the seed colour, scanned row by row.
pub fn candidates(
    image: &RasterImage,
    center: PixelCoord,
    seed_color: Rgba,
    visited: &BTreeSet<(u32, u32)>,
    tolerance: u8,
) -> (output: Vec<PixelCoord>)
    requires
        forall|k: int| 0 <= k < 9 ==> (#[trigger] neighbor(center, k) matches Some(c) ==> image.readable(c)),
    ensures
        output@ == accepted_neighbors(*image, center, seed_color, visited@, tolerance, 9),
        output@.len() <= 8,
        forall|j: int| 0 <= j < output@.len() ==> !visited@.contains(((#[trigger] output@[j]).x, output@[j].y)),
        forall|j: int| 0 <= j < output@.len() ==> adjacent(center, #[trigger] output@[j]) && followable(
            *image,
            output@[j],
            seed_color,
            visited@,
            tolerance,
        ),
        forall|c: PixelCoord|
            adjacent(center, c) && #[trigger] followable(*image, c, seed_color, visited@, tolerance)
                ==> output@.contains(c),
{
    proof {
        lemma_candidates_exact(*image, center, seed_color, visited@, tolerance);
    }
    broadcast use vstd::std_specs::btree::group_btree_axioms;
    let mut output: Vec<PixelCoord> = Vec::new();
    let mut dy: i64 = -1;
    while dy <= 1
        invariant
            -1 <= dy <= 2,
            forall|k: int| 0 <= k < 9 ==> (#[trigger] neighbor(center, k) matches Some(c) ==> image.readable(c)),
            output@ == accepted_neighbors(*image, center, seed_color, visited@, tolerance, (3 * (dy + 1)) as nat),
            output@.len() <= 3 * (dy + 1) - (if dy >= 1 { 1int } else { 0int }),
        decreases 2 - dy,
    {
        let mut dx: i64 = -1;
        while dx <= 1
            invariant
                -1 <= dy <= 1,
                -1 <= dx <= 2,
                forall|k: int| 0 <= k < 9 ==> (#[trigger] neighbor(center, k) matches Some(c) ==> image.readable(c)),
                output@ == accepted_neighbors(*image, center, seed_color, visited@, tolerance, (3 * (dy + 1) + dx + 1) as nat),
                output@.len() <= 3 * (dy + 1) + dx + 1 - (if 3 * (dy + 1) + dx + 1 > 4 { 1int } else { 0int }),
            decreases 2 - dx,
        {
            let ghost k: int = 3 * (dy + 1) + dx + 1;
            assert(k % 3 == dx + 1 && k / 3 == dy + 1);
            if !(dx == 0 && dy == 0) {
                let x: i64 = center.x as i64 + dx;
                let y: i64 = center.y as i64 + dy;
                if x >= 0 && y >= 0 && x <= u32::MAX as i64 && y <= u32::MAX as i64 {
                    let coord = PixelCoord::new(x as u32, y as u32);
                    assert(neighbor(center, k) == Some(coord));
                    if !visited.contains(&(coord.x, coord.y)) {
                        match image.pixel(coord) {
                            Some(color) => {
                                if similar_color(color, seed_color, tolerance) {
                                    output.push(coord);
                                }
                            },
                            None => {},
                        }
                    }
                }
            }
            dx = dx + 1;
        }
        dy = dy + 1;
    }
    output
}

/// Orders the pixels of a two-branch trace: without a second branch the
/// seed comes first; otherwise the first branch is reversed in front of the
/// seed. Also returns the seed's position in the result.
pub fn assemble_trace(seed: PixelCoord, branch_a: Vec<PixelCoord>, branch_b: Vec<PixelCoord>) -> (r: (
    Vec<PixelCoord>,
    usize,
))
    requires
        branch_a@.len() + branch_b@.len() + 1 <= usize::MAX,
    ensures
        branch_b@.len() == 0 ==> r.0@ == seq![seed] + branch_a@ && r.1 == 0,
        branch_b@.len() > 0 ==> r.0@ == branch_a@.reverse() + seq![seed] + branch_b@ && r.1
            == branch_a@.len(),
        r.0@[r.1 as int] == seed,
{
    if branch_b.len() == 0 {
        let mut coords: Vec<PixelCoord> = Vec::new();
        coords.push(seed);
        let mut i: usize = 0;
        while i < branch_a.len()
            invariant
                i <= branch_a@.len(),
                coords@ == seq![seed] + branch_a@.subrange(0, i as int),
            decreases branch_a@.len() - i,
        {
            coords.push(branch_a[i]);
            i = i + 1;
            assert(coords@ == seq![seed] + branch_a@.subrange(0, i as int));
        }
        assert(branch_a@.subrange(0, branch_a@.len() as int) == branch_a@);
        (coords, 0)
    } else {
        let mut coords: Vec<PixelCoord> = Vec::new();
        let mut i: usize = branch_a.len();
        while i > 0
            invariant
                i <= branch_a@.len(),
                coords@ == branch_a@.subrange(i as int, branch_a@.len() as int).reverse(),
            decreases i,
        {
            i = i - 1;
            coords.push(branch_a[i]);
            assert(coords@ =~= branch_a@.subrange(i as int, branch_a@.len() as int).reverse());
        }
        assert(branch_a@.subrange(0, branch_a@.len() as int) == branch_a@);
        let seed_node_index = coords.len();
        coords.push(seed);
        let mut j: usize = 0;
        while j < branch_b.len()
            invariant
                j <= branch_b@.len(),
                seed_node_index == branch_a@.len(),
                coords@ == branch_a@.reverse() + seq![seed] + branch_b@.subrange(0, j as int),
            decreases branch_b@.len() - j,
        {
            coords.push(branch_b[j]);
            j = j + 1;
            assert(coords@ =~= branch_a@.reverse() + seq![seed] + branch_b@.subrange(0, j as int));
        }
        assert(branch_b@.subrange(0, branch_b@.len() as int) == branch_b@);
        (coords, seed_node_index)
    }
}

} // verus!
