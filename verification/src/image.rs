//! The pixel grid the codec works on: a width x height grid of RGBA pixels,
//! one byte per channel, kept as a flat row-major byte buffer.

use vstd::prelude::*;

verus! {

/// A decoded RGBA image: `data` holds 4 bytes per pixel in row-major order.
pub struct Image {
    width: u32,
    height: u32,
    data: Vec<u8>,
}

/// The index of channel `c` of the pixel at `(x, y)` in the flat buffer.
pub open spec fn chan_index(w: u32, x: u32, y: u32, c: int) -> int {
    4 * ((y as int) * (w as int) + (x as int)) + c
}

impl Image {
    pub closed spec fn width(self) -> u32 {
        self.width
    }

    pub closed spec fn height(self) -> u32 {
        self.height
    }

    /// The flat RGBA bytes.
    pub closed spec fn bytes(self) -> Seq<u8> {
        self.data@
    }

    pub closed spec fn wf(self) -> bool {
        self.data@.len() == 4 * ((self.width as int) * (self.height as int))
    }

    /// Wraps a flat RGBA buffer; `None` unless it holds exactly
    /// `4 * width * height` bytes.
    pub fn new(width: u32, height: u32, data: Vec<u8>) -> (r: Option<Image>)
        ensures
            match r {
                Some(img) => {
                    &&& img.wf()
                    &&& img.width() == width
                    &&& img.height() == height
                    &&& img.bytes() == data@
                    &&& data@.len() == 4 * ((width as int) * (height as int))
                },
                None => data@.len() != 4 * ((width as int) * (height as int)),
            },
    {
        proof {
            lemma_u32_mul_bound(width as int, height as int);
        }
        let wh: u64 = (width as u64) * (height as u64);
        let expected: u128 = 4 * (wh as u128);
        if (data.len() as u128) == expected {
            Some(Image { width, height, data })
        } else {
            None
        }
    }

    pub fn get_width(&self) -> (r: u32)
        ensures
            r == self.width(),
    {
        self.width
    }

    pub fn get_height(&self) -> (r: u32)
        ensures
            r == self.height(),
    {
        self.height
    }

    /// How many bytes the buffer holds.
    pub fn byte_len(&self) -> (r: usize)
        ensures
            r == self.bytes().len(),
    {
        self.data.len()
    }

    /// Gives the buffer back, for re-encoding.
    pub fn into_data(self) -> (r: Vec<u8>)
        ensures
            r@ == self.bytes(),
    {
        self.data
    }

    /// Channel `c` of the pixel at `(x, y)`.
    pub fn get_channel(&self, x: u32, y: u32, c: usize) -> (r: u8)
        requires
            self.wf(),
            x < self.width(),
            y < self.height(),
            c < 4,
        ensures
            r == self.bytes()[chan_index(self.width(), x, y, c as int)],
    {
        proof {
            lemma_chan_index_bound(self.width, self.height, x, y, c as int);
            assert(self.data.len() == self.data@.len());
            assert(self.data@.len() <= usize::MAX);
        }
        let idx64: u64 = ((y as u64) * (self.width as u64) + (x as u64)) * 4 + (c as u64);
        proof {
            assert(idx64 as int == chan_index(self.width, x, y, c as int));
        }
        let idx: usize = idx64 as usize;
        self.data[idx]
    }

    /// Overwrites channel `c` of the pixel at `(x, y)`.
    pub fn set_channel(&mut self, x: u32, y: u32, c: usize, v: u8)
        requires
            old(self).wf(),
            x < old(self).width(),
            y < old(self).height(),
            c < 4,
        ensures
            final(self).wf(),
            final(self).width() == old(self).width(),
            final(self).height() == old(self).height(),
            final(self).bytes() == old(self).bytes().update(
                chan_index(old(self).width(), x, y, c as int),
                v,
            ),
    {
        proof {
            lemma_chan_index_bound(self.width, self.height, x, y, c as int);
            assert(self.data.len() == self.data@.len());
            assert(self.data@.len() <= usize::MAX);
        }
        let idx64: u64 = ((y as u64) * (self.width as u64) + (x as u64)) * 4 + (c as u64);
        proof {
            assert(idx64 as int == chan_index(self.width, x, y, c as int));
        }
        let idx: usize = idx64 as usize;
        self.data.set(idx, v);
    }
}

/// A well-formed image's buffer holds exactly 4 bytes per pixel.
pub proof fn lemma_image_size(img: Image)
    requires
        img.wf(),
    ensures
        img.bytes().len() == 4 * ((img.width() as int) * (img.height() as int)),
{
}

/// A channel index of an in-range pixel lies within the buffer.
pub proof fn lemma_chan_index_bound(w: u32, h: u32, x: u32, y: u32, c: int)
    by (nonlinear_arith)
    requires
        x < w,
        y < h,
        0 <= c < 4,
    ensures
        0 <= chan_index(w, x, y, c) < 4 * ((w as int) * (h as int)),
        (y as int) * (w as int) + (x as int) < (w as int) * (h as int),
        (y as int) * (w as int) >= 0,
{
}

/// The product of two 32-bit values stays below 2^64.
pub proof fn lemma_u32_mul_bound(a: int, b: int)
    by (nonlinear_arith)
    requires
        0 <= a <= 0xFFFF_FFFF,
        0 <= b <= 0xFFFF_FFFF,
    ensures
        0 <= a * b <= 0xFFFF_FFFE_0000_0001,
{
}

} // verus!
