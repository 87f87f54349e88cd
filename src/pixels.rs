//! RGBA pixel buffers, held in the `image` crate's `RgbaImage`.
use vstd::prelude::*;

verus! {

/// An RGBA pixel value, one byte per channel.
pub type Rgba8 = (u8, u8, u8, u8);

/// A width by height grid of RGBA pixels.
#[verifier::external_body]
pub struct PixelBuffer {
    img: image::RgbaImage,
}

/// What a buffer holds: the pixel at each `(x, y)` of its grid.
pub uninterp spec fn buffer_pixels(b: PixelBuffer) -> Map<(int, int), (u8, u8, u8, u8)>;

/// The width and height a buffer was made with.
pub uninterp spec fn buffer_size(b: PixelBuffer) -> (nat, nat);

/// The positions of a `width` by `height` grid.
pub open spec fn grid(width: int, height: int) -> Set<(int, int)> {
    Set::new(|k: (int, int)| 0 <= k.0 < width && 0 <= k.1 < height)
}

/// A grid whose bytes, four per pixel, can be counted in a `usize`.
pub open spec fn fits_in_memory(width: int, height: int) -> bool {
    4 * width * height <= usize::MAX
}

impl PixelBuffer {
    pub open spec fn width(&self) -> nat {
        buffer_size(*self).0
    }

    pub open spec fn height(&self) -> nat {
        buffer_size(*self).1
    }

    pub open spec fn pixels(&self) -> Map<(int, int), Rgba8> {
        buffer_pixels(*self)
    }

    /// Every position of the grid, and nothing else, holds a pixel.
    pub open spec fn wf(&self) -> bool {
        self.pixels().dom() == grid(self.width() as int, self.height() as int)
    }

    /// Relies on `ImageBuffer::from_pixel`: a `width` by `height` image with
    /// every pixel set to `pixel`; it panics only where the byte count
    /// overflows `usize`.
    #[verifier::external_body]
    pub(crate) fn from_pixel(width: u32, height: u32, pixel: Rgba8) -> (r: PixelBuffer)
        requires
            fits_in_memory(width as int, height as int),
        ensures
            buffer_size(r) == (width as nat, height as nat),
            buffer_pixels(r).dom() == grid(width as int, height as int),
            forall|k: (int, int)|
                #![trigger buffer_pixels(r)[k]]
                grid(width as int, height as int).contains(k) ==> buffer_pixels(r)[k] == pixel,
    {
        let p = image::Rgba([pixel.0, pixel.1, pixel.2, pixel.3]);
        PixelBuffer { img: image::ImageBuffer::from_pixel(width, height, p) }
    }

    /// Relies on `ImageBuffer::dimensions`: the width and height.
    #[verifier::external_body]
    pub(crate) fn image_dimensions(&self) -> (r: (u32, u32))
        ensures
            (r.0 as nat, r.1 as nat) == buffer_size(*self),
    {
        self.img.dimensions()
    }

    /// Relies on `ImageBuffer::get_pixel`: the pixel at `(x, y)`, which must
    /// lie inside the buffer.
    #[verifier::external_body]
    pub(crate) fn get_pixel(&self, x: u32, y: u32) -> (r: Rgba8)
        requires
            (x as int) < buffer_size(*self).0,
            (y as int) < buffer_size(*self).1,
        ensures
            r == buffer_pixels(*self)[(x as int, y as int)],
    {
        let p = self.img.get_pixel(x, y).0;
        (p[0], p[1], p[2], p[3])
    }

    /// Relies on `ImageBuffer::put_pixel`: overwrites the pixel at `(x, y)`,
    /// which must lie inside the buffer, and nothing else.
    #[verifier::external_body]
    pub(crate) fn put_pixel(&mut self, x: u32, y: u32, pixel: Rgba8)
        requires
            (x as int) < buffer_size(*old(self)).0,
            (y as int) < buffer_size(*old(self)).1,
        ensures
            buffer_size(*final(self)) == buffer_size(*old(self)),
            buffer_pixels(*final(self)) == buffer_pixels(*old(self)).insert(
                (x as int, y as int),
                pixel,
            ),
    {
        self.img.put_pixel(x, y, image::Rgba([pixel.0, pixel.1, pixel.2, pixel.3]))
    }

    /// Relies on `ImageBuffer::as_raw`: the samples in row-major order, four
    /// bytes (red, green, blue, alpha) per pixel.
    #[verifier::external_body]
    pub(crate) fn as_raw_bytes(&self) -> (r: Vec<u8>)
        ensures
            r@.len() == 4 * buffer_size(*self).0 * buffer_size(*self).1,
            forall|x: int, y: int, c: int|
                0 <= x < buffer_size(*self).0 && 0 <= y < buffer_size(*self).1 && 0 <= c < 4
                    ==> #[trigger] r@[4 * (y * buffer_size(*self).0 + x) + c] == channel(
                    buffer_pixels(*self)[(x, y)],
                    c,
                ),
    {
        self.img.as_raw().clone()
    }
}

impl PixelBuffer {
    /// A `width` by `height` buffer with every pixel set to `pixel`.
    pub fn filled(width: u32, height: u32, pixel: Rgba8) -> (r: PixelBuffer)
        requires
            fits_in_memory(width as int, height as int),
        ensures
            r.wf(),
            buffer_size(r) == (width as nat, height as nat),
            forall|k: (int, int)|
                #![trigger buffer_pixels(r)[k]]
                grid(width as int, height as int).contains(k) ==> buffer_pixels(r)[k] == pixel,
    {
        PixelBuffer::from_pixel(width, height, pixel)
    }

    /// The width and height.
    pub fn dimensions(&self) -> (r: (u32, u32))
        ensures
            (r.0 as nat, r.1 as nat) == buffer_size(*self),
    {
        self.image_dimensions()
    }

    /// The pixel at `(x, y)`.
    pub fn get(&self, x: u32, y: u32) -> (r: Rgba8)
        requires
            (x as int) < self.width(),
            (y as int) < self.height(),
        ensures
            r == self.pixels()[(x as int, y as int)],
    {
        self.get_pixel(x, y)
    }

    /// Overwrites the pixel at `(x, y)`.
    pub fn put(&mut self, x: u32, y: u32, pixel: Rgba8)
        requires
            old(self).wf(),
            (x as int) < old(self).width(),
            (y as int) < old(self).height(),
        ensures
            final(self).wf(),
            buffer_size(*final(self)) == buffer_size(*old(self)),
            buffer_pixels(*final(self)) == buffer_pixels(*old(self)).insert(
                (x as int, y as int),
                pixel,
            ),
    {
        self.put_pixel(x, y, pixel);
        proof {
            assert(grid(self.width() as int, self.height() as int).contains((x as int, y as int)));
            assert(self.pixels().dom() =~= old(self).pixels().dom());
        }
    }

    /// The pixels in row-major order, four bytes (red, green, blue, alpha)
    /// each.
    pub fn to_bytes(&self) -> (r: Vec<u8>)
        ensures
            r@.len() == 4 * self.width() * self.height(),
            forall|x: int, y: int, c: int|
                0 <= x < self.width() && 0 <= y < self.height() && 0 <= c < 4
                    ==> #[trigger] r@[4 * (y * self.width() + x) + c] == channel(
                    self.pixels()[(x, y)],
                    c,
                ),
    {
        self.as_raw_bytes()
    }
}

/// Channel `c` of a pixel: red, green, blue, alpha for 0 to 3.
pub open spec fn channel(p: Rgba8, c: int) -> u8 {
    if c == 0 {
        p.0
    } else if c == 1 {
        p.1
    } else if c == 2 {
        p.2
    } else {
        p.3
    }
}

} // verus!
