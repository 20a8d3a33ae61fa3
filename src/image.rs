use vstd::prelude::*;
use crate::ppm::{decoded, read_samples, PpmError};

verus! {

/// The two PPM flavours: ASCII samples (`P3`) or raw bytes (`P6`).
#[derive(Clone, Copy, Debug, PartialEq, Eq, Structural)]
pub enum PPMType {
    P3,
    P6,
}

/// One 8-bit RGB pixel.
#[derive(Clone, Copy, Debug, PartialEq, Eq, Structural)]
pub struct Pixel {
    pub r: u8,
    pub g: u8,
    pub b: u8,
}

/// The colour of a fresh image.
pub open spec fn black() -> Pixel {
    Pixel { r: 0, g: 0, b: 0 }
}

impl Pixel {
    /// The pixel of the given channels.
    pub fn new(r: u8, g: u8, b: u8) -> (p: Self)
        ensures
            p == (Pixel { r, g, b }),
    {
        Pixel { r, g, b }
    }
}

impl Default for Pixel {
    fn default() -> (p: Self)
        ensures
            p == black(),
    {
        Pixel { r: 0, g: 0, b: 0 }
    }
}

/// What an image is: its size and its pixels, row-major, top to bottom,
/// left to right.
pub struct ImageView {
    pub width: nat,
    pub height: nat,
    pub pixels: Seq<Pixel>,
}

/// A pixel buffer of `width * height` pixels stored row by row.
pub struct Image {
    width: usize,
    height: usize,
    pixels: Vec<Pixel>,
}

/// Position of pixel `(x, y)` in the row-major buffer.
pub open spec fn pixel_pos(width: nat, x: nat, y: nat) -> nat {
    y * width + x
}

/// ASCII decimal digits of `n`, most significant first.
pub open spec fn decimal(n: nat) -> Seq<u8>
    decreases n,
{
    if n < 10 {
        seq![(48 + n) as u8]
    } else {
        decimal(n / 10).push((48 + n % 10) as u8)
    }
}

/// The magic line of the header.
pub open spec fn magic(ty: PPMType) -> Seq<u8> {
    match ty {
        PPMType::P3 => seq![80u8, 51u8, 10u8],
        PPMType::P6 => seq![80u8, 54u8, 10u8],
    }
}

/// Full header: magic line, `"<width> <height>\n"`, `"255\n"`.
pub open spec fn header(ty: PPMType, width: nat, height: nat) -> Seq<u8> {
    magic(ty) + decimal(width) + seq![32u8] + decimal(height) + seq![10u8] + seq![
        50u8,
        53u8,
        53u8,
        10u8,
    ]
}

/// One pixel: `"r g b\n"` in ASCII, or the three raw bytes.
pub open spec fn pixel_bytes(p: Pixel, ty: PPMType) -> Seq<u8> {
    match ty {
        PPMType::P3 => decimal(p.r as nat) + seq![32u8] + decimal(p.g as nat) + seq![32u8]
            + decimal(p.b as nat) + seq![10u8],
        PPMType::P6 => seq![p.r, p.g, p.b],
    }
}

/// The pixels one after another.
pub open spec fn pixels_bytes(ps: Seq<Pixel>, ty: PPMType) -> Seq<u8>
    decreases ps.len(),
{
    if ps.len() == 0 {
        Seq::empty()
    } else {
        pixels_bytes(ps.drop_last(), ty) + pixel_bytes(ps.last(), ty)
    }
}

/// The whole PPM file of an image.
pub open spec fn ppm_file(img: ImageView, ty: PPMType) -> Seq<u8> {
    header(ty, img.width, img.height) + pixels_bytes(img.pixels, ty)
}

/// Appends the decimal digits of `n` to `out`.
fn push_decimal(out: &mut Vec<u8>, n: usize)
    ensures
        final(out)@ == old(out)@ + decimal(n as nat),
    decreases n,
{
    if n >= 10 {
        push_decimal(out, n / 10);
    }
    out.push((48 + n % 10) as u8);
    proof {
        assert(final(out)@ =~= old(out)@ + decimal(n as nat));
    }
}

/// Appends the bytes of one pixel to `out`.
fn push_pixel(out: &mut Vec<u8>, p: Pixel, ty: PPMType)
    ensures
        final(out)@ == old(out)@ + pixel_bytes(p, ty),
{
    match ty {
        PPMType::P3 => {
            push_decimal(out, p.r as usize);
            out.push(32);
            push_decimal(out, p.g as usize);
            out.push(32);
            push_decimal(out, p.b as usize);
            out.push(10);
        },
        PPMType::P6 => {
            out.push(p.r);
            out.push(p.g);
            out.push(p.b);
        },
    }
    proof {
        assert(final(out)@ =~= old(out)@ + pixel_bytes(p, ty));
    }
}

impl View for Image {
    type V = ImageView;

    closed spec fn view(&self) -> ImageView {
        ImageView { width: self.width as nat, height: self.height as nat, pixels: self.pixels@ }
    }
}

impl Image {
    /// The buffer holds exactly `width * height` pixels.
    pub closed spec fn wf(&self) -> bool {
        self.pixels@.len() == self.width * self.height
    }

    /// A black image of the given size.
    pub fn new(width: usize, height: usize) -> (img: Self)
        requires
            width * height <= usize::MAX,
        ensures
            img.wf(),
            img@.width == width,
            img@.height == height,
            img@.pixels == Seq::new((width * height) as nat, |i: int| black()),
    {
        let n: usize = width * height;
        let mut pixels: Vec<Pixel> = Vec::with_capacity(n);
        let mut i: usize = 0;
        while i < n
            invariant
                i <= n,
                pixels@ == Seq::new(i as nat, |k: int| black()),
            decreases n - i,
        {
            pixels.push(Pixel::default());
            i = i + 1;
            assert(pixels@ =~= Seq::new(i as nat, |k: int| black()));
        }
        Image { width, height, pixels }
    }

    /// Number of columns.
    pub fn width(&self) -> (w: usize)
        ensures
            w == self@.width,
    {
        self.width
    }

    /// Number of rows.
    pub fn height(&self) -> (h: usize)
        ensures
            h == self@.height,
    {
        self.height
    }

    /// The pixel at column `x`, row `y`.
    pub fn get_pixel(&self, x: usize, y: usize) -> (p: Pixel)
        requires
            self.wf(),
            x < self@.width,
            y < self@.height,
        ensures
            p == self@.pixels[pixel_pos(self@.width, x as nat, y as nat) as int],
    {
        let len: usize = self.pixels.len();
        proof {
            assert(y * self.width + x < self.width * self.height) by (nonlinear_arith)
                requires
                    x < self.width,
                    y < self.height,
            ;
        }
        self.pixels[y * self.width + x]
    }

    /// Writes the pixel at column `x`, row `y`.
    pub fn set_pixel(&mut self, x: usize, y: usize, pixel: Pixel)
        requires
            old(self).wf(),
            x < old(self)@.width,
            y < old(self)@.height,
        ensures
            final(self).wf(),
            final(self)@.width == old(self)@.width,
            final(self)@.height == old(self)@.height,
            final(self)@.pixels == old(self)@.pixels.update(
                pixel_pos(old(self)@.width, x as nat, y as nat) as int,
                pixel,
            ),
    {
        let len: usize = self.pixels.len();
        proof {
            assert(y * self.width + x < self.width * self.height) by (nonlinear_arith)
                requires
                    x < self.width,
                    y < self.height,
            ;
        }
        let pos: usize = y * self.width + x;
        self.pixels.set(pos, pixel);
    }

    /// The bytes of this image as a PPM file of the given flavour.
    pub fn encode(&self, ppm_type: PPMType) -> (bytes: Vec<u8>)
        ensures
            bytes@ == ppm_file(self@, ppm_type),
    {
        let mut out: Vec<u8> = Vec::new();
        match ppm_type {
            PPMType::P3 => {
                out.push(80);
                out.push(51);
                out.push(10);
            },
            PPMType::P6 => {
                out.push(80);
                out.push(54);
                out.push(10);
            },
        }
        assert(out@ =~= magic(ppm_type));
        push_decimal(&mut out, self.width);
        out.push(32);
        push_decimal(&mut out, self.height);
        out.push(10);
        out.push(50);
        out.push(53);
        out.push(53);
        out.push(10);
        let ghost head = header(ppm_type, self.width as nat, self.height as nat);
        assert(out@ =~= head);
        let mut i: usize = 0;
        while i < self.pixels.len()
            invariant
                i <= self.pixels@.len(),
                out@ == head + pixels_bytes(self.pixels@.subrange(0, i as int), ppm_type),
            decreases self.pixels@.len() - i,
        {
            push_pixel(&mut out, self.pixels[i], ppm_type);
            proof {
                let s = self.pixels@.subrange(0, i + 1);
                assert(s.drop_last() =~= self.pixels@.subrange(0, i as int));
                assert(out@ =~= head + pixels_bytes(s, ppm_type));
            }
            i = i + 1;
        }
        assert(self.pixels@.subrange(0, i as int) =~= self.pixels@);
        out
    }

    /// Reads the bytes of a PPM file into this image, from the first pixel
    /// on. The image keeps its size; pixels past the file's samples keep
    /// their colour. A file that is neither `P3` nor `P6` changes nothing.
    /// On an error nothing changes.
    pub fn decode(&mut self, data: &[u8]) -> (r: Result<(), PpmError>)
        requires
            old(self).wf(),
        ensures
            final(self).wf(),
            final(self)@.width == old(self)@.width,
            final(self)@.height == old(self)@.height,
            match decoded(data@, old(self)@.pixels) {
                Ok(ps) => r is Ok && final(self)@.pixels == ps,
                Err(e) => r == Err::<(), PpmError>(e) && final(self)@.pixels == old(self)@.pixels,
            },
    {
        let samples = match read_samples(data) {
            Err(e) => {
                return Err(e);
            },
            Ok(None) => {
                return Ok(());
            },
            Ok(Some(v)) => v,
        };
        if samples.len() > self.pixels.len() {
            return Err(PpmError::TooManyPixels);
        }
        let ghost before = self.pixels@;
        let mut i: usize = 0;
        while i < samples.len()
            invariant
                i <= samples@.len(),
                samples@.len() <= before.len(),
                self.pixels@.len() == before.len(),
                self.width == old(self).width,
                self.height == old(self).height,
                before == old(self).pixels@,
                forall|k: int| 0 <= k < i ==> #[trigger] self.pixels@[k] == samples@[k],
                forall|k: int| i <= k < before.len() ==> #[trigger] self.pixels@[k] == before[k],
            decreases samples@.len() - i,
        {
            self.pixels.set(i, samples[i]);
            i = i + 1;
        }
        assert(self.pixels@ =~= samples@ + before.skip(samples@.len() as int));
        Ok(())
    }

    /// An image of `width` by `height` pixels whose pixel `(x, y)` is what
    /// `shade` gives for `(x, y)`; every pixel is shaded once, row by row.
    pub fn render<F: Fn(usize, usize) -> Pixel>(width: usize, height: usize, shade: &F) -> (img: Self)
        requires
            width * height <= usize::MAX,
            forall|x: usize, y: usize| x < width && y < height ==> call_requires(*shade, (x, y)),
        ensures
            img.wf(),
            img@.width == width,
            img@.height == height,
            forall|x: usize, y: usize|
                x < width && y < height ==> call_ensures(
                    *shade,
                    (x, y),
                    #[trigger] img@.pixels[pixel_pos(width as nat, x as nat, y as nat) as int],
                ),
    {
        let mut pixels: Vec<Pixel> = Vec::new();
        let mut y: usize = 0;
        while y < height
            invariant
                y <= height,
                width * height <= usize::MAX,
                pixels@.len() == y * width,
                forall|x: usize, y: usize| x < width && y < height ==> call_requires(*shade, (x, y)),
                forall|xx: usize, yy: usize|
                    xx < width && yy < y ==> call_ensures(
                        *shade,
                        (xx, yy),
                        #[trigger] pixels@[pixel_pos(width as nat, xx as nat, yy as nat) as int],
                    ),
            decreases height - y,
        {
            let mut x: usize = 0;
            while x < width
                invariant
                    x <= width,
                    y < height,
                    width * height <= usize::MAX,
                    pixels@.len() == y * width + x,
                    forall|x: usize, y: usize| x < width && y < height ==> call_requires(*shade, (x, y)),
                    forall|xx: usize, yy: usize|
                        xx < width && yy < y ==> call_ensures(
                            *shade,
                            (xx, yy),
                            #[trigger] pixels@[pixel_pos(width as nat, xx as nat, yy as nat) as int],
                        ),
                    forall|xx: usize|
                        xx < x ==> call_ensures(
                            *shade,
                            (xx, y),
                            #[trigger] pixels@[pixel_pos(width as nat, xx as nat, y as nat) as int],
                        ),
                decreases width - x,
            {
                let p = shade(x, y);
                proof {
                    assert(y * width + x < width * height) by (nonlinear_arith)
                        requires
                            x < width,
                            y < height,
                    ;
                }
                pixels.push(p);
                proof {
                    assert forall|xx: usize, yy: usize|
                        xx < width && yy < y implies call_ensures(
                        *shade,
                        (xx, yy),
                        #[trigger] pixels@[pixel_pos(width as nat, xx as nat, yy as nat) as int],
                    ) by {
                        assert(yy * width + xx < y * width) by (nonlinear_arith)
                            requires
                                xx < width,
                                yy < y,
                        ;
                    }
                }
                x = x + 1;
            }
            proof {
                assert((y + 1) * width == y * width + width) by (nonlinear_arith);
                assert forall|xx: usize, yy: usize|
                    xx < width && yy < y + 1 implies call_ensures(
                    *shade,
                    (xx, yy),
                    #[trigger] pixels@[pixel_pos(width as nat, xx as nat, yy as nat) as int],
                ) by {
                    if yy < y {
                    } else {
                        assert(yy == y);
                    }
                }
            }
            y = y + 1;
        }
        assert(y * width == width * height) by (nonlinear_arith)
            requires
                y == height,
        ;
        Image { width, height, pixels }
    }
}

} // verus!
