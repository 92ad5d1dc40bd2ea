//! An RGBA raster held as plain values: width, height and the pixels in
//! row-major order, four channels each.
use vstd::prelude::*;

verus! {

/// Pixels of a raw RGBA byte buffer, four bytes per pixel.
pub open spec fn pixels_of_bytes(data: Seq<u8>) -> Seq<[u8; 4]> {
    Seq::new(
        data.len() / 4,
        |i: int| [data[4 * i], data[4 * i + 1], data[4 * i + 2], data[4 * i + 3]],
    )
}

/// The raw RGBA bytes of `pixels`, four per pixel.
pub open spec fn bytes_of_pixels(pixels: Seq<[u8; 4]>) -> Seq<u8> {
    Seq::new(4 * pixels.len(), |j: int| pixels[j / 4][j % 4])
}

/// An RGBA image: `width * height` pixels in row-major order.
pub struct Pixmap {
    width: u32,
    height: u32,
    pixels: Vec<[u8; 4]>,
}

impl View for Pixmap {
    type V = Seq<[u8; 4]>;

    closed spec fn view(&self) -> Seq<[u8; 4]> {
        self.pixels@
    }
}

impl Pixmap {
    pub closed spec fn spec_width(&self) -> nat {
        self.width as nat
    }

    pub closed spec fn spec_height(&self) -> nat {
        self.height as nat
    }

    /// One pixel per position of the `width` x `height` grid.
    pub open spec fn wf(&self) -> bool {
        self@.len() == self.spec_width() * self.spec_height()
    }

    /// An image from a raw RGBA buffer holding exactly `width * height`
    /// pixels; `None` when the buffer has any other length.
    pub fn from_raw(width: u32, height: u32, data: Vec<u8>) -> (img: Option<Pixmap>)
        ensures
            img is Some <==> data@.len() == width as nat * height as nat * 4,
            img matches Some(p) ==> {
                &&& p.wf()
                &&& p.spec_width() == width
                &&& p.spec_height() == height
                &&& p@ == pixels_of_bytes(data@)
            },
    {
        let dl = data.len();
        let count = match (width as usize).checked_mul(height as usize) {
            Some(c) => c,
            None => {
                assert(data@.len() != width as nat * height as nat * 4) by (nonlinear_arith)
                    requires
                        width as nat * height as nat > usize::MAX,
                        data@.len() == dl,
                        dl <= usize::MAX,
                ;
                return None;
            },
        };
        if count > data.len() / 4 || data.len() % 4 != 0 || data.len() / 4 != count {
            return None;
        }
        let mut pixels: Vec<[u8; 4]> = Vec::new();
        let mut i: usize = 0;
        while i < count
            invariant
                count == data@.len() / 4,
                data@.len() == 4 * count,
                data.len() == 4 * count,
                i <= count,
                pixels@ == pixels_of_bytes(data@).subrange(0, i as int),
            decreases count - i,
        {
            let px = [data[4 * i], data[4 * i + 1], data[4 * i + 2], data[4 * i + 3]];
            pixels.push(px);
            i = i + 1;
            assert(pixels@ =~= pixels_of_bytes(data@).subrange(0, i as int));
        }
        assert(pixels_of_bytes(data@).subrange(0, count as int) =~= pixels_of_bytes(data@));
        Some(Pixmap { width, height, pixels })
    }

    /// The raw RGBA bytes of the image, four per pixel.
    pub fn into_raw(self) -> (data: Vec<u8>)
        ensures
            data@ == bytes_of_pixels(self@),
    {
        let n = self.pixels.len();
        let mut data: Vec<u8> = Vec::new();
        let mut i: usize = 0;
        while i < n
            invariant
                n == self@.len(),
                i <= n,
                data@ == bytes_of_pixels(self@).subrange(0, 4 * i),
            decreases n - i,
        {
            let px = self.pixels[i];
            data.push(px[0]);
            data.push(px[1]);
            data.push(px[2]);
            data.push(px[3]);
            i = i + 1;
            assert forall|j: int| 0 <= j < 4 * i implies #[trigger] data@[j] == bytes_of_pixels(
                self@,
            )[j] by {
                if j >= 4 * (i - 1) {
                    assert(j / 4 == i - 1);
                }
            }
            assert(data@ =~= bytes_of_pixels(self@).subrange(0, 4 * i));
        }
        assert(bytes_of_pixels(self@).subrange(0, 4 * n) =~= bytes_of_pixels(self@));
        data
    }

    pub fn width(&self) -> (w: u32)
        ensures
            w == self.spec_width(),
    {
        self.width
    }

    pub fn height(&self) -> (h: u32)
        ensures
            h == self.spec_height(),
    {
        self.height
    }

    /// Number of pixels.
    pub fn pixel_count(&self) -> (n: usize)
        ensures
            n == self@.len(),
    {
        self.pixels.len()
    }

    /// The pixel at row-major position `i`.
    pub fn pixel_at(&self, i: usize) -> (px: [u8; 4])
        requires
            i < self@.len(),
        ensures
            px == self@[i as int],
    {
        self.pixels[i]
    }

    /// Replaces the pixel at row-major position `i`.
    pub fn set_pixel_at(&mut self, i: usize, px: [u8; 4])
        requires
            i < old(self)@.len(),
        ensures
            final(self)@ == old(self)@.update(i as int, px),
            final(self).spec_width() == old(self).spec_width(),
            final(self).spec_height() == old(self).spec_height(),
    {
        self.pixels.set(i, px);
    }
}


/// Reading a raw buffer of whole pixels into an image and writing it back out
/// gives the same bytes.
pub proof fn raw_bytes_round_trip(data: Seq<u8>)
    requires
        data.len() % 4 == 0,
    ensures
        bytes_of_pixels(pixels_of_bytes(data)) == data,
{
    let back = bytes_of_pixels(pixels_of_bytes(data));
    assert forall|j: int| 0 <= j < data.len() implies #[trigger] back[j] == data[j] by {
        let q = j / 4;
        let r = j % 4;
        assert(j == 4 * q + r);
    }
    assert(back =~= data);
}

/// Writing an image's pixels out as raw bytes and reading them back gives
/// the same pixels.
pub proof fn pixels_round_trip(pixels: Seq<[u8; 4]>)
    ensures
        pixels_of_bytes(bytes_of_pixels(pixels)) == pixels,
{
    let back = pixels_of_bytes(bytes_of_pixels(pixels));
    assert forall|i: int| 0 <= i < pixels.len() implies #[trigger] back[i] == pixels[i] by {
        let b = bytes_of_pixels(pixels);
        assert((4 * i) / 4 == i && (4 * i + 1) / 4 == i && (4 * i + 2) / 4 == i && (4 * i + 3) / 4 == i);
        assert(b[4 * i] == pixels[i][0]);
        assert(b[4 * i + 1] == pixels[i][1]);
        assert(b[4 * i + 2] == pixels[i][2]);
        assert(b[4 * i + 3] == pixels[i][3]);
        assert(back[i] =~= pixels[i]);
    }
    assert(back =~= pixels);
}

} // verus!
