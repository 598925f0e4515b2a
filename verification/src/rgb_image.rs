//! An owned RGB picture with 8-bit channels, stored row by row.

use vstd::prelude::*;
use vstd::arithmetic::div_mod::lemma_fundamental_div_mod_converse;

verus! {

/// One pixel: red, green and blue channels.
#[derive(Clone, Copy, Debug)]
pub struct Rgb(pub [u8; 3]);

/// Position of the first channel of pixel `(x, y)` in a row-major buffer
/// of a picture that is `w` pixels wide.
pub open spec fn pixel_offset(w: int, x: int, y: int) -> int {
    3 * (y * w + x)
}

/// Every channel of a pixel inside a `w` by `h` picture lies in the buffer.
pub proof fn lemma_pixel_offset_bounds(w: int, h: int, x: int, y: int)
    requires
        0 <= x < w,
        0 <= y < h,
    ensures
        0 <= pixel_offset(w, x, y),
        pixel_offset(w, x, y) + 3 <= 3 * w * h,
{
    assert(0 <= y * w + x) by (nonlinear_arith)
        requires
            0 <= x < w,
            0 <= y < h,
    ;
    assert(y * w + x + 1 <= w * h) by (nonlinear_arith)
        requires
            0 <= x < w,
            0 <= y < h,
    ;
    assert(3 * (w * h) == 3 * w * h) by (nonlinear_arith);
}

/// The mathematical content of a picture: its size and channel bytes.
pub struct Picture {
    pub width: int,
    pub height: int,
    pub bytes: Seq<u8>,
}

impl Picture {
    /// Channel `c` of pixel `(x, y)`.
    pub open spec fn sample(self, x: int, y: int, c: int) -> u8 {
        self.bytes[pixel_offset(self.width, x, y) + c]
    }

    /// This picture with `top` written over it, the top left corner of `top`
    /// at `(x0, y0)`.
    pub open spec fn overlay(self, top: Picture, x0: int, y0: int) -> Picture {
        Picture {
            width: self.width,
            height: self.height,
            bytes: Seq::new(
                self.bytes.len(),
                |k: int|
                    {
                        let x = (k / 3) % self.width;
                        let y = (k / 3) / self.width;
                        if x0 <= x < x0 + top.width && y0 <= y < y0 + top.height {
                            top.sample(x - x0, y - y0, k % 3)
                        } else {
                            self.bytes[k]
                        }
                    },
            ),
        }
    }

    /// The `w` by `h` rectangle whose top left corner is `(x0, y0)`.
    pub open spec fn crop(self, x0: int, y0: int, w: int, h: int) -> Picture {
        Picture {
            width: w,
            height: h,
            bytes: Seq::new(
                (3 * w * h) as nat,
                |k: int| self.sample(x0 + (k / 3) % w, y0 + (k / 3) / w, k % 3),
            ),
        }
    }
}

/// Why a picture operation was refused.
#[derive(Clone, Copy, Debug, PartialEq, Eq, Structural)]
pub enum ImageError {
    /// The source does not fit into the destination at the given position.
    DimensionMismatch,
}

/// An RGB picture: `width * height` pixels of three bytes each, row by row.
pub struct RgbImage {
    width: u32,
    height: u32,
    data: Vec<u8>,
}

impl RgbImage {
    /// Width in pixels.
    pub closed spec fn w(&self) -> u32 {
        self.width
    }

    /// Height in pixels.
    pub closed spec fn h(&self) -> u32 {
        self.height
    }

    /// The raw channel bytes, row by row.
    pub closed spec fn bytes(&self) -> Seq<u8> {
        self.data@
    }

    /// The buffer holds exactly three bytes per pixel: the type invariant
    /// that every picture keeps.
    #[verifier::type_invariant]
    pub open spec fn wf(&self) -> bool {
        self.bytes().len() == 3 * self.w() * self.h()
    }


    /// Channel `c` of pixel `(x, y)`.
    pub open spec fn sample(&self, x: int, y: int, c: int) -> u8 {
        self.bytes()[pixel_offset(self.w() as int, x, y) + c]
    }

    /// A black picture of the given size.
    pub fn new(width: u32, height: u32) -> (img: RgbImage)
        requires
            3 * width * height <= isize::MAX,
        ensures
            img.wf(),
            img.w() == width,
            img.h() == height,
            forall|i: int| 0 <= i < img.bytes().len() ==> img.bytes()[i] == 0u8,
    {
        assert((width as int) * (height as int) <= 3 * width * height) by (nonlinear_arith);
        let wh: usize = (width as usize) * (height as usize);
        assert(3 * wh == 3 * width * height) by (nonlinear_arith)
            requires
                wh == (width as int) * (height as int),
        ;
        let n: usize = 3 * wh;
        let mut data: Vec<u8> = Vec::with_capacity(n);
        let mut i: usize = 0;
        while i < n
            invariant
                i <= n,
                data@.len() == i,
                forall|j: int| 0 <= j < i ==> data@[j] == 0u8,
            decreases n - i,
        {
            data.push(0u8);
            i = i + 1;
        }
        RgbImage { width, height, data }
    }

    /// Wraps a raw buffer; `None` unless it holds exactly three bytes per pixel.
    pub fn from_raw(width: u32, height: u32, buf: Vec<u8>) -> (img: Option<RgbImage>)
        ensures
            img.is_some() <==> buf@.len() == 3 * width * height,
            img matches Some(im) ==> im.wf() && im.w() == width && im.h() == height
                && im.bytes() == buf@,
    {
        assert((width as int) * (height as int) <= 0xffff_ffff * 0xffff_ffff) by (nonlinear_arith)
            requires
                width <= 0xffff_ffff,
                height <= 0xffff_ffff,
        ;
        let n: u128 = 3 * ((width as u128) * (height as u128));
        assert(n == 3 * width * height) by (nonlinear_arith)
            requires
                n == 3 * ((width as int) * (height as int)),
        ;
        if (buf.len() as u128) == n {
            Some(RgbImage { width, height, data: buf })
        } else {
            None
        }
    }

    /// Width in pixels.
    pub fn width(&self) -> (r: u32)
        ensures
            r == self.w(),
    {
        self.width
    }

    /// Height in pixels.
    pub fn height(&self) -> (r: u32)
        ensures
            r == self.h(),
    {
        self.height
    }

    /// `(width, height)`.
    pub fn dimensions(&self) -> (r: (u32, u32))
        ensures
            r == (self.w(), self.h()),
    {
        (self.width, self.height)
    }

    /// The raw channel bytes, row by row.
    pub fn as_raw(&self) -> (r: &Vec<u8>)
        ensures
            r@ == self.bytes(),
    {
        &self.data
    }

    /// Gives back the raw channel bytes.
    pub fn into_raw(self) -> (r: Vec<u8>)
        ensures
            r@ == self.bytes(),
    {
        self.data
    }

    /// Buffer position of the first channel of pixel `(x, y)`.
    fn offset(&self, x: u32, y: u32) -> (o: usize)
        requires
            x < self.w(),
            y < self.h(),
        ensures
            o == pixel_offset(self.w() as int, x as int, y as int),
            o + 3 <= self.bytes().len(),
            o + 3 <= usize::MAX,
    {
        proof {
            use_type_invariant(self);
            lemma_pixel_offset_bounds(self.w() as int, self.h() as int, x as int, y as int);
        }
        let len: usize = self.data.len();
        assert((y as int) * (self.width as int) + (x as int) < len) by (nonlinear_arith)
            requires
                3 * ((y as int) * (self.width as int) + (x as int)) + 3 <= len,
        ;
        let row: usize = (y as usize) * (self.width as usize);
        3 * (row + (x as usize))
    }

    /// The pixel at `(x, y)`.
    pub fn get_pixel(&self, x: u32, y: u32) -> (p: Rgb)
        requires
            x < self.w(),
            y < self.h(),
        ensures
            p.0@ == seq![self.sample(x as int, y as int, 0), self.sample(x as int, y as int, 1),
                self.sample(x as int, y as int, 2)],
    {
        let o = self.offset(x, y);
        Rgb([self.data[o], self.data[o + 1], self.data[o + 2]])
    }

    /// Overwrites the pixel at `(x, y)`.
    pub fn put_pixel(&mut self, x: u32, y: u32, p: Rgb)
        requires
            x < old(self).w(),
            y < old(self).h(),
        ensures
            final(self).wf(),
            final(self).w() == old(self).w(),
            final(self).h() == old(self).h(),
            forall|xx: int, yy: int, c: int|
                0 <= xx < old(self).w() && 0 <= yy < old(self).h() && 0 <= c < 3
                ==> #[trigger] final(self).sample(xx, yy, c) == if xx == x && yy == y {
                    p.0[c]
                } else {
                    old(self).sample(xx, yy, c)
                },
    {
        proof {
            use_type_invariant(&*self);
        }
        let o = self.offset(x, y);
        let mut img = RgbImage::new(0, 0);
        core::mem::swap(self, &mut img);
        let RgbImage { width, height, mut data } = img;
        data.set(o, p.0[0]);
        data.set(o + 1, p.0[1]);
        data.set(o + 2, p.0[2]);
        *self = RgbImage { width, height, data };
        proof {
            assert forall|xx: int, yy: int, c: int|
                0 <= xx < old(self).w() && 0 <= yy < old(self).h() && 0 <= c < 3
                implies #[trigger] self.sample(xx, yy, c) == if xx == x && yy == y {
                    p.0[c]
                } else {
                    old(self).sample(xx, yy, c)
                } by {
                lemma_pixel_offset_bounds(self.w() as int, self.h() as int, xx, yy);
                if !(xx == x && yy == y) {
                    lemma_pixel_offset_injective(self.w() as int, x as int, y as int, xx, yy);
                }
            }
        }
    }

    /// A copy of the `width` by `height` rectangle whose top left corner is
    /// `(x, y)` (a view of the rectangle turned into a picture of its own).
    pub fn crop(&self, x: u32, y: u32, width: u32, height: u32) -> (r: RgbImage)
        requires
            x + width <= self.w(),
            y + height <= self.h(),
        ensures
            r.wf(),
            r.w() == width,
            r.h() == height,
            r@ == self@.crop(x as int, y as int, width as int, height as int),
            forall|i: int, j: int, c: int|
                0 <= i < width && 0 <= j < height && 0 <= c < 3 ==> #[trigger] r.sample(i, j, c)
                    == self.sample(x + i, y + j, c),
    {
        proof {
            use_type_invariant(self);
        }
        let ghost cb = self@.crop(x as int, y as int, width as int, height as int).bytes;
        let mut data: Vec<u8> = Vec::new();
        let mut j: u32 = 0;
        while j < height
            invariant
                self.wf(),
                x + width <= self.w(),
                y + height <= self.h(),
                cb == self@.crop(x as int, y as int, width as int, height as int).bytes,
                j <= height,
                data@.len() == 3 * (j * width),
                forall|k: int| 0 <= k < data@.len() ==> data@[k] == cb[k],
            decreases height - j,
        {
            let mut i: u32 = 0;
            while i < width
                invariant
                    self.wf(),
                    x + width <= self.w(),
                    y + height <= self.h(),
                    cb == self@.crop(x as int, y as int, width as int, height as int).bytes,
                    j < height,
                    i <= width,
                    data@.len() == 3 * (j * width + i),
                    forall|k: int| 0 <= k < data@.len() ==> data@[k] == cb[k],
                decreases width - i,
            {
                let p = self.get_pixel(x + i, y + j);
                let ghost before = data@;
                data.push(p.0[0]);
                data.push(p.0[1]);
                data.push(p.0[2]);
                proof {
                    assert((j * width + i + 1) <= width * height) by (nonlinear_arith)
                        requires
                            i < width,
                            j < height,
                    ;
                    assert(3 * (width * height) == 3 * width * height) by (nonlinear_arith);
                    assert forall|k: int| 0 <= k < data@.len() implies data@[k] == cb[k] by {
                        if k >= before.len() {
                            let c = k - before.len();
                            lemma_offset_decode(width as int, i as int, j as int, c);
                        }
                    }
                }
                i = i + 1;
            }
            proof {
                assert(3 * (j * width + width) == 3 * ((j + 1) * width)) by (nonlinear_arith);
            }
            j = j + 1;
        }
        proof {
            assert(3 * (height * width) == 3 * width * height) by (nonlinear_arith);
        }
        let r = RgbImage { width, height, data };
        proof {
            assert(r.bytes() =~= cb);
            assert forall|i: int, j: int, c: int|
                0 <= i < width && 0 <= j < height && 0 <= c < 3 implies #[trigger] r.sample(i, j, c)
                == self.sample(x + i, y + j, c) by {
                lemma_pixel_offset_bounds(width as int, height as int, i, j);
                lemma_offset_decode(width as int, i, j, c);
            }
        }
        r
    }

    /// Writes `other` into this picture with its top left corner at `(x, y)`;
    /// fails, changing nothing, when it does not fit.
    pub fn copy_from(&mut self, other: &RgbImage, x: u32, y: u32) -> (res: Result<(), ImageError>)
        ensures
            final(self).wf(),
            final(self).w() == old(self).w(),
            final(self).h() == old(self).h(),
            res is Ok <==> (x + other.w() <= old(self).w() && y + other.h() <= old(self).h()),
            res is Err ==> final(self).bytes() == old(self).bytes(),
            res is Ok ==> final(self)@ == old(self)@.overlay(other@, x as int, y as int),
            res is Ok ==> forall|xx: int, yy: int, c: int|
                0 <= xx < old(self).w() && 0 <= yy < old(self).h() && 0 <= c < 3
                    ==> #[trigger] final(self).sample(xx, yy, c) == if x <= xx < x + other.w() && y
                    <= yy < y + other.h() {
                    other.sample(xx - x, yy - y, c)
                } else {
                    old(self).sample(xx, yy, c)
                },
    {
        proof {
            use_type_invariant(&*self);
            use_type_invariant(other);
        }
        if (x as u64) + (other.width as u64) > (self.width as u64) || (y as u64) + (
        other.height as u64) > (self.height as u64) {
            return Err(ImageError::DimensionMismatch);
        }
        let ghost orig = *self;
        let mut k: u32 = 0;
        while k < other.height
            invariant
                self.wf(),
                other.wf(),
                self.w() == orig.w(),
                self.h() == orig.h(),
                x + other.w() <= orig.w(),
                y + other.h() <= orig.h(),
                k <= other.h(),
                forall|xx: int, yy: int, c: int|
                    0 <= xx < orig.w() && 0 <= yy < orig.h() && 0 <= c < 3
                        ==> #[trigger] self.sample(xx, yy, c) == if x <= xx < x + other.w() && y
                        <= yy < y + k {
                        other.sample(xx - x, yy - y, c)
                    } else {
                        orig.sample(xx, yy, c)
                    },
            decreases other.h() - k,
        {
            let mut i: u32 = 0;
            while i < other.width
                invariant
                    self.wf(),
                    other.wf(),
                    self.w() == orig.w(),
                    self.h() == orig.h(),
                    x + other.w() <= orig.w(),
                    y + other.h() <= orig.h(),
                    k < other.h(),
                    i <= other.w(),
                    forall|xx: int, yy: int, c: int|
                        0 <= xx < orig.w() && 0 <= yy < orig.h() && 0 <= c < 3
                            ==> #[trigger] self.sample(xx, yy, c) == if x <= xx < x + other.w()
                            && (y <= yy < y + k || (yy == y + k && xx < x + i)) {
                            other.sample(xx - x, yy - y, c)
                        } else {
                            orig.sample(xx, yy, c)
                        },
                decreases other.w() - i,
            {
                let p = other.get_pixel(i, k);
                self.put_pixel(i + x, k + y, p);
                i = i + 1;
            }
            k = k + 1;
        }
        proof {
            let ov = orig@.overlay(other@, x as int, y as int);
            assert(self.bytes().len() == ov.bytes.len());
            if orig.w() > 0 {
                assert forall|k: int| 0 <= k < self.bytes().len() implies self.bytes()[k] == ov.bytes[k] by {
                    lemma_offset_encode(orig.w() as int, orig.h() as int, k);
                    let xx = (k / 3) % (orig.w() as int);
                    let yy = (k / 3) / (orig.w() as int);
                    assert(self.sample(xx, yy, k % 3) == self.bytes()[k]);
                }
            } else {
                assert(3 * orig.w() * orig.h() == 0) by (nonlinear_arith)
                    requires
                        orig.w() == 0,
                ;
            }
            assert(self.bytes() =~= ov.bytes);
        }
        Ok(())
    }
}

impl View for RgbImage {
    type V = Picture;

    open spec fn view(&self) -> Picture {
        Picture { width: self.w() as int, height: self.h() as int, bytes: self.bytes() }
    }
}

/// Decoding a buffer position back into pixel column, row and channel.
pub proof fn lemma_offset_decode(w: int, i: int, j: int, c: int)
    requires
        0 <= i < w,
        0 <= j,
        0 <= c < 3,
    ensures
        (pixel_offset(w, i, j) + c) / 3 == j * w + i,
        (pixel_offset(w, i, j) + c) % 3 == c,
        ((pixel_offset(w, i, j) + c) / 3) % w == i,
        ((pixel_offset(w, i, j) + c) / 3) / w == j,
{
    let k = pixel_offset(w, i, j) + c;
    lemma_fundamental_div_mod_converse(k, 3, j * w + i, c);
    lemma_fundamental_div_mod_converse(j * w + i, w, j, i);
}

/// Every position of a `w` by `h` buffer is a channel of a pixel inside it.
pub proof fn lemma_offset_encode(w: int, h: int, k: int)
    requires
        0 < w,
        0 <= k < 3 * w * h,
    ensures
        0 <= (k / 3) % w < w,
        0 <= (k / 3) / w < h,
        0 <= k % 3 < 3,
        k == pixel_offset(w, (k / 3) % w, (k / 3) / w) + k % 3,
{
    let p = k / 3;
    assert(k == 3 * p + k % 3 && 0 <= k % 3 < 3) by (nonlinear_arith)
        requires
            p == k / 3,
    ;
    assert(p == w * (p / w) + p % w && 0 <= p % w < w) by (nonlinear_arith)
        requires
            0 < w,
    ;
    assert(0 <= p < w * h) by (nonlinear_arith)
        requires
            0 <= k < 3 * w * h,
            k == 3 * p + k % 3,
            0 <= k % 3 < 3,
    ;
    assert(0 <= p / w < h) by (nonlinear_arith)
        requires
            0 <= p < w * h,
            0 < w,
            p == w * (p / w) + p % w,
            0 <= p % w < w,
    ;
    assert((p / w) * w == w * (p / w)) by (nonlinear_arith);
}

/// Distinct pixels of one picture own disjoint three-byte slots.
pub proof fn lemma_pixel_offset_injective(w: int, x1: int, y1: int, x2: int, y2: int)
    requires
        0 <= x1 < w,
        0 <= x2 < w,
        0 <= y1,
        0 <= y2,
        !(x1 == x2 && y1 == y2),
    ensures
        pixel_offset(w, x1, y1) + 3 <= pixel_offset(w, x2, y2) || pixel_offset(w, x2, y2) + 3
            <= pixel_offset(w, x1, y1),
{
    if y1 == y2 {
    } else if y1 < y2 {
        assert(y1 * w + w <= y2 * w) by (nonlinear_arith)
            requires
                y1 < y2,
                0 <= w,
        ;
    } else {
        assert(y2 * w + w <= y1 * w) by (nonlinear_arith)
            requires
                y2 < y1,
                0 <= w,
        ;
    }
}

/// The bytes that nearest-neighbour resampling of a `width` by `height`
/// picture with channel bytes `data` to `nwidth` by `nheight` gives.
pub uninterp spec fn nearest_resize(
    width: u32,
    height: u32,
    data: Seq<u8>,
    nwidth: u32,
    nheight: u32,
) -> Seq<u8>;

/// Calls `image::imageops::resize` with `FilterType::Nearest`. Trusted: the
/// result is `nwidth` by `nheight` and its bytes are `nearest_resize` of the
/// arguments; as the crate's source shows, a picture with no pixels gives
/// an all-black result, and a resize to the same size gives a copy. The
/// `requires` rules out the sizes for which the crate's buffers would
/// overflow (`3` bytes per pixel for the result, `16` per pixel for the
/// intermediate `f32` picture when it resamples).
#[verifier::external_body]
pub(crate) fn resize_nearest(img: &RgbImage, nwidth: u32, nheight: u32) -> (r: RgbImage)
    requires
        3 * nwidth * nheight <= isize::MAX,
        img.w() == 0 || img.h() == 0 || (nwidth == img.w() && nheight == img.h()) || 16 * img.w()
            * nheight <= isize::MAX,
    ensures
        r.wf(),
        r.w() == nwidth,
        r.h() == nheight,
        r.bytes() == nearest_resize(img.w(), img.h(), img.bytes(), nwidth, nheight),
        img.w() == 0 || img.h() == 0 ==> forall|i: int| 0 <= i < r.bytes().len() ==> r.bytes()[i] == 0u8,
        nwidth == img.w() && nheight == img.h() ==> r.bytes() == img.bytes(),
{
    let src = image::RgbImage::from_raw(img.width, img.height, img.data.clone()).unwrap();
    let out = image::imageops::resize(&src, nwidth, nheight, image::imageops::FilterType::Nearest);
    RgbImage { width: nwidth, height: nheight, data: out.into_raw() }
}

} // verus!
