//! The image as text: the plain PPM format.

use crate::material::Color;
use crate::math::Vec3;
use vstd::prelude::*;
use vstd::string::StringExecFns;

verus! {

/// The character of the decimal digit `d`.
pub open spec fn spec_digit(d: int) -> char {
    if d == 0 {
        '0'
    } else if d == 1 {
        '1'
    } else if d == 2 {
        '2'
    } else if d == 3 {
        '3'
    } else if d == 4 {
        '4'
    } else if d == 5 {
        '5'
    } else if d == 6 {
        '6'
    } else if d == 7 {
        '7'
    } else if d == 8 {
        '8'
    } else {
        '9'
    }
}

/// The decimal numeral of `n`, without leading zeros.
pub open spec fn spec_decimal(n: nat) -> Seq<char>
    decreases n,
{
    if n < 10 {
        seq![spec_digit(n as int)]
    } else {
        spec_decimal(n / 10).push(spec_digit((n % 10) as int))
    }
}

/// The text of a pixel: its three channels in decimal, with one space
/// between them.
pub open spec fn spec_color_text(color: Color) -> Seq<char> {
    spec_decimal(color.r as nat).push(' ') + spec_decimal(color.g as nat).push(' ') + spec_decimal(
        color.b as nat,
    )
}

/// The head of an image file: the magic number `P3`, the width and the
/// height, and the largest channel value 255, each on a line of its own but
/// for the height, which follows the width after a space.
pub open spec fn spec_ppm_header(width: u32, height: u32) -> Seq<char> {
    seq!['P', '3', '\n'] + spec_decimal(width as nat).push(' ') + spec_decimal(height as nat)
        + seq!['\n', '2', '5', '5', '\n']
}

/// What stands before the pixel at position `index`: nothing before the
/// first, a line break where a row of `width` pixels is full, else a space.
pub open spec fn spec_separator(index: int, width: u32) -> Seq<char> {
    if index == 0 {
        Seq::empty()
    } else if index % (width as int) == 0 {
        seq!['\n']
    } else {
        seq![' ']
    }
}

/// The pixels as text, `width` of them to a line. The last line has no line
/// break after it.
pub open spec fn spec_ppm_body(pixels: Seq<Vec3>, width: u32) -> Seq<char>
    decreases pixels.len(),
{
    if pixels.len() == 0 {
        Seq::empty()
    } else {
        spec_ppm_body(pixels.drop_last(), width) + spec_separator(pixels.len() - 1, width)
            + spec_color_text(Color::spec_from_vec3(pixels.last()))
    }
}

/// The image file for `pixels`: head, then body.
pub open spec fn spec_ppm(width: u32, height: u32, pixels: Seq<Vec3>) -> Seq<char> {
    spec_ppm_header(width, height) + spec_ppm_body(pixels, width)
}

/// The text of one decimal digit.
fn digit_text(d: u64) -> (s: &'static str)
    requires
        d < 10,
    ensures
        s@ == seq![spec_digit(d as int)],
{
    proof {
        reveal_strlit("0");
        reveal_strlit("1");
        reveal_strlit("2");
        reveal_strlit("3");
        reveal_strlit("4");
        reveal_strlit("5");
        reveal_strlit("6");
        reveal_strlit("7");
        reveal_strlit("8");
        reveal_strlit("9");
    }
    let s = if d == 0 {
        "0"
    } else if d == 1 {
        "1"
    } else if d == 2 {
        "2"
    } else if d == 3 {
        "3"
    } else if d == 4 {
        "4"
    } else if d == 5 {
        "5"
    } else if d == 6 {
        "6"
    } else if d == 7 {
        "7"
    } else if d == 8 {
        "8"
    } else {
        "9"
    };
    assert(s@ =~= seq![spec_digit(d as int)]);
    s
}

/// Appends the decimal numeral of `n` to `text`.
pub fn push_decimal(text: &mut String, n: u64)
    ensures
        final(text)@ == old(text)@ + spec_decimal(n as nat),
    decreases n,
{
    if n >= 10 {
        push_decimal(text, n / 10);
    }
    text.append(digit_text(n % 10));
    assert(text@ =~= old(text)@ + spec_decimal(n as nat));
}

/// Appends the text of a pixel to `text`.
pub fn push_color(text: &mut String, color: Color)
    ensures
        final(text)@ == old(text)@ + spec_color_text(color),
{
    proof {
        reveal_strlit(" ");
    }
    push_decimal(text, color.r as u64);
    text.append(" ");
    push_decimal(text, color.g as u64);
    text.append(" ");
    push_decimal(text, color.b as u64);
    assert(text@ =~= old(text)@ + spec_color_text(color));
}

impl Color {
    /// The text of the pixel: `r g b` in decimal.
    pub fn to_string(&self) -> (s: String)
        ensures
            s@ == spec_color_text(*self),
    {
        let mut text = String::from_str("");
        proof {
            reveal_strlit("");
        }
        push_color(&mut text, *self);
        assert(text@ =~= spec_color_text(*self));
        text
    }
}

/// Writes an image as plain PPM text. Each colour is turned into a pixel
/// first, so intensities below 0 or above 1 are clamped. The pixels are
/// broken into lines of `width` whatever `height` says.
pub fn encode_ppm(width: u32, height: u32, pixels: &Vec<Vec3>) -> (text: String)
    requires
        width > 0,
    ensures
        text@ == spec_ppm(width, height, pixels@),
{
    proof {
        reveal_strlit("P3\n");
        reveal_strlit(" ");
        reveal_strlit("\n");
        reveal_strlit("\n255\n");
    }
    let mut text = String::from_str("P3\n");
    push_decimal(&mut text, width as u64);
    text.append(" ");
    push_decimal(&mut text, height as u64);
    text.append("\n255\n");
    assert(text@ =~= spec_ppm_header(width, height));
    let mut i: usize = 0;
    let mut column: u32 = 0;
    assert(pixels@.take(0) =~= Seq::<Vec3>::empty());
    while i < pixels.len()
        invariant
            width > 0,
            i <= pixels.len(),
            column < width,
            column == i % (width as usize),
            text@ == spec_ppm_header(width, height) + spec_ppm_body(pixels@.take(i as int), width),
        decreases pixels.len() - i,
    {
        proof {
            reveal_strlit(" ");
            reveal_strlit("\n");
            assert(pixels@.take(i + 1).drop_last() =~= pixels@.take(i as int));
            assert(pixels@.take(i + 1).last() == pixels@[i as int]);
        }
        let ghost before = text@;
        if i > 0 {
            if column == 0 {
                text.append("\n");
            } else {
                text.append(" ");
            }
        }
        assert(text@ =~= before + spec_separator(i as int, width));
        push_color(&mut text, Color::from(pixels[i]));
        assert(text@ =~= spec_ppm_header(width, height) + spec_ppm_body(
            pixels@.take(i + 1),
            width,
        ));
        proof {
            let w = width as int;
            let q = (i as int) / w;
            vstd::arithmetic::div_mod::lemma_fundamental_div_mod(i as int, w);
            if column == width - 1 {
                assert((q + 1) * w + 0 == i + 1) by (nonlinear_arith)
                    requires
                        i == w * q + (w - 1),
                ;
                vstd::arithmetic::div_mod::lemma_fundamental_div_mod_converse(i + 1, w, q + 1, 0);
            } else {
                assert(q * w + (column + 1) == i + 1) by (nonlinear_arith)
                    requires
                        i == w * q + column,
                ;
                vstd::arithmetic::div_mod::lemma_fundamental_div_mod_converse(
                    i + 1,
                    w,
                    q,
                    column + 1,
                );
            }
        }
        column = if column == width - 1 { 0 } else { column + 1 };
        i += 1;
    }
    assert(pixels@.take(pixels@.len() as int) =~= pixels@);
    text
}

} // verus!
