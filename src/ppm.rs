use vstd::prelude::*;
use crate::image::{Image, Rgb};

verus! {

/// ASCII `'0'`; the other digits follow it.
pub const ZERO: u8 = 48;

/// ASCII `'P'`, which opens the magic number.
pub const LETTER_P: u8 = 80;

/// ASCII space, between the numbers of a line.
pub const SPACE: u8 = 32;

/// ASCII line feed, which ends every line.
pub const NEWLINE: u8 = 10;

/// The largest channel value, announced in the header.
pub const MAX_CHANNEL: usize = 255;

/// The ASCII digit for `d`, where `d < 10`.
pub open spec fn digit(d: nat) -> u8 {
    (ZERO + d) as u8
}

/// The decimal numeral of `n`: no sign and no leading zero, `"0"` for zero.
pub open spec fn decimal(n: nat) -> Seq<u8>
    decreases n,
{
    if n < 10 {
        seq![digit(n)]
    } else {
        decimal(n / 10).push(digit(n % 10))
    }
}

/// The header of a plain-text PPM image: the magic number, the width and
/// height, and the largest channel value, each on a line of its own.
pub open spec fn ppm_header(width: nat, height: nat) -> Seq<u8> {
    seq![LETTER_P, digit(3), NEWLINE] + decimal(width) + seq![SPACE] + decimal(height) + seq![
        NEWLINE,
    ] + decimal(MAX_CHANNEL as nat) + seq![NEWLINE]
}

/// One pixel of a plain-text PPM image: its three channels in decimal, separated by
/// spaces, on a line of its own.
pub open spec fn pixel_line(px: Rgb) -> Seq<u8> {
    decimal(px.r as nat) + seq![SPACE] + decimal(px.g as nat) + seq![SPACE] + decimal(px.b as nat)
        + seq![NEWLINE]
}

/// The lines of `pixels`, one after another.
pub open spec fn pixel_lines(pixels: Seq<Rgb>) -> Seq<u8>
    decreases pixels.len(),
{
    if pixels.len() == 0 {
        Seq::empty()
    } else {
        pixel_lines(pixels.drop_last()) + pixel_line(pixels.last())
    }
}

/// A whole plain-text PPM image: the header, then every pixel in output order.
pub open spec fn ppm(width: nat, height: nat, pixels: Seq<Rgb>) -> Seq<u8> {
    ppm_header(width, height) + pixel_lines(pixels)
}

/// Appends the decimal numeral of `n` to `out`.
pub fn push_decimal(out: &mut Vec<u8>, n: usize)
    ensures
        final(out)@ == old(out)@ + decimal(n as nat),
    decreases n,
{
    if n >= 10 {
        push_decimal(out, n / 10);
    }
    out.push(ZERO + (n % 10) as u8);
    proof {
        if n >= 10 {
            assert(old(out)@ + decimal(n as nat) =~= old(out)@ + decimal((n / 10) as nat) + seq![
                digit((n % 10) as nat),
            ]);
        } else {
            assert(old(out)@ + decimal(n as nat) =~= old(out)@ + seq![digit(n as nat)]);
        }
    }
}

/// Appends the PPM header of a `width` by `height` image to `out`.
pub fn push_header(out: &mut Vec<u8>, width: usize, height: usize)
    ensures
        final(out)@ == old(out)@ + ppm_header(width as nat, height as nat),
{
    out.push(LETTER_P);
    out.push(ZERO + 3);
    out.push(NEWLINE);
    push_decimal(out, width);
    out.push(SPACE);
    push_decimal(out, height);
    out.push(NEWLINE);
    push_decimal(out, MAX_CHANNEL);
    out.push(NEWLINE);
    assert(final(out)@ =~= old(out)@ + ppm_header(width as nat, height as nat));
}

/// Appends the line of one pixel to `out`.
pub fn push_pixel_line(out: &mut Vec<u8>, px: Rgb)
    ensures
        final(out)@ == old(out)@ + pixel_line(px),
{
    push_decimal(out, px.r as usize);
    out.push(SPACE);
    push_decimal(out, px.g as usize);
    out.push(SPACE);
    push_decimal(out, px.b as usize);
    out.push(NEWLINE);
    assert(final(out)@ =~= old(out)@ + pixel_line(px));
}

/// The whole image as plain-text PPM: the header, then one line per pixel,
/// starting at the top-left corner and running scanline by scanline.
pub fn encode_ppm(image: &Image) -> (text: Vec<u8>)
    ensures
        text@ == ppm(image.width() as nat, image.height() as nat, image@),
{
    let mut text: Vec<u8> = Vec::new();
    push_header(&mut text, image.width(), image.height());
    let n = image.pixel_count();
    let mut k: usize = 0;
    while k < n
        invariant
            k <= n,
            n == image@.len(),
            text@ == ppm_header(image.width() as nat, image.height() as nat) + pixel_lines(
                image@.take(k as int),
            ),
        decreases n - k,
    {
        let px = image.at(k);
        push_pixel_line(&mut text, px);
        proof {
            let taken = image@.take(k + 1);
            assert(taken.drop_last() =~= image@.take(k as int));
            assert(taken.last() == px);
            assert(pixel_lines(taken) == pixel_lines(image@.take(k as int)) + pixel_line(px));
        }
        k = k + 1;
    }
    assert(image@.take(n as int) =~= image@);
    text
}

} // verus!
