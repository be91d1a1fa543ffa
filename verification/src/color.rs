use vstd::prelude::*;
use crate::image::Image;

verus! {

/// A colour as it is written out: one byte for each of red, green and blue.
#[derive(Debug, Clone, Copy, PartialEq, Eq, Structural)]
pub struct Color {
    pub r: u8,
    pub g: u8,
    pub b: u8,
}

/// The decimal digits of `n`, as ASCII bytes, without leading zeros.
pub open spec fn decimal(n: nat) -> Seq<u8>
    decreases n,
{
    if n < 10 {
        seq![(48 + n) as u8]
    } else {
        decimal(n / 10).push((48 + n % 10) as u8)
    }
}

/// Appends the decimal digits of `n` to `out`.
pub fn push_decimal(out: &mut Vec<u8>, n: usize)
    ensures
        final(out)@ == old(out)@ + decimal(n as nat),
    decreases n,
{
    if n >= 10 {
        push_decimal(out, n / 10);
    }
    let digit: u8 = (n % 10) as u8;
    out.push(48 + digit);
}

impl Color {
    /// The three channels in decimal, with a space between them.
    pub open spec fn text(self) -> Seq<u8> {
        decimal(self.r as nat) + seq![32u8] + decimal(self.g as nat) + seq![32u8] + decimal(
            self.b as nat,
        )
    }

    pub fn new(r: u8, g: u8, b: u8) -> (c: Self)
        ensures
            c == (Color { r, g, b }),
    {
        Color { r, g, b }
    }

    pub fn black() -> (c: Self)
        ensures
            c == (Color { r: 0, g: 0, b: 0 }),
    {
        Color { r: 0, g: 0, b: 0 }
    }

    pub fn white() -> (c: Self)
        ensures
            c == (Color { r: 255, g: 255, b: 255 }),
    {
        Color { r: 255, g: 255, b: 255 }
    }

    /// The colour as text: `r g b` in decimal.
    pub fn as_u8_string(&self) -> (s: Vec<u8>)
        ensures
            s@ == self.text(),
    {
        let mut s: Vec<u8> = Vec::new();
        push_decimal(&mut s, self.r as usize);
        s.push(32);
        push_decimal(&mut s, self.g as usize);
        s.push(32);
        push_decimal(&mut s, self.b as usize);
        s
    }
}

/// The text of the first `n` pixels: each colour followed by a space.
pub open spec fn pixels_text(pixels: Seq<Color>, n: int) -> Seq<u8>
    decreases n,
{
    if n <= 0 {
        Seq::empty()
    } else {
        pixels_text(pixels, n - 1) + pixels[n - 1].text() + seq![32u8]
    }
}

/// The head of a plain-text pixmap: the tag of that format, the width and
/// the height, and the highest channel value, 255.
pub open spec fn ppm_header(width: nat, height: nat) -> Seq<u8> {
    seq![80u8, 51u8, 10u8] + decimal(width) + seq![32u8] + decimal(height) + seq![
        10u8,
        50u8,
        53u8,
        53u8,
        10u8,
    ]
}

/// The image as a plain-text pixmap: the head, then the pixels row by row.
pub fn to_ppm(image: &Image<Color>) -> (out: Vec<u8>)
    requires
        image.wf(),
    ensures
        out@ == ppm_header(image.spec_width(), image.spec_height()) + pixels_text(
            image@,
            image@.len() as int,
        ),
{
    let width: usize = image.width();
    let height: usize = image.height();
    let mut out: Vec<u8> = Vec::new();
    out.push(80);
    out.push(51);
    out.push(10);
    push_decimal(&mut out, width);
    out.push(32);
    push_decimal(&mut out, height);
    out.push(10);
    out.push(50);
    out.push(53);
    out.push(53);
    out.push(10);
    proof {
        image.lemma_size();
    }
    let mut row: usize = 0;
    let ghost head = out@;
    while row < height
        invariant
            image.wf(),
            width == image.spec_width(),
            height == image.spec_height(),
            image@.len() == width * height,
            row <= height,
            out@ == head + pixels_text(image@, row * width),
        decreases height - row,
    {
        let mut col: usize = 0;
        while col < width
            invariant
                image.wf(),
                width == image.spec_width(),
                height == image.spec_height(),
                image@.len() == width * height,
                row < height,
                col <= width,
                out@ == head + pixels_text(image@, row * width + col),
            decreases width - col,
        {
            proof {
                crate::image::lemma_slots(
                    width as nat,
                    height as nat,
                    row as nat,
                    col as nat,
                    row as nat,
                    col as nat,
                );
            }
            let ghost before = out@;
            let pixel: Color = image.get_pixel(row, col);
            let text = pixel.as_u8_string();
            let mut k: usize = 0;
            while k < text.len()
                invariant
                    k <= text@.len(),
                    out@ == before + text@.subrange(0, k as int),
                decreases text@.len() - k,
            {
                out.push(text[k]);
                k = k + 1;
            }
            out.push(32);
            col = col + 1;
        }
        proof {
            assert((row + 1) * width == row * width + width) by (nonlinear_arith);
        }
        row = row + 1;
    }
    proof {
        assert(height * width == width * height) by (nonlinear_arith);
    }
    out
}

} // verus!
