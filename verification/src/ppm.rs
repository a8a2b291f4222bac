//! The plain-text pixel format in which an image leaves the renderer.
//!
//! An image is a header of three lines, `P3`, then width and height, then
//! the largest channel value `255`, followed by one line for each pixel with
//! its red, green and blue channel in decimal.

use vstd::prelude::*;

verus! {

/// A quantised colour: one byte for each channel.
#[derive(Clone, Copy, Debug, PartialEq, Eq, Structural)]
pub struct Rgb {
    pub red: u8,
    pub green: u8,
    pub blue: u8,
}

/// The byte that separates the numbers of a line.
pub const SPACE: u8 = 32;

/// The byte that ends a line.
pub const NEWLINE: u8 = 10;

/// The largest value of a channel.
pub const MAX_CHANNEL: u8 = 255;

/// The ASCII digit for `d`, a number below ten.
pub open spec fn digit(d: nat) -> u8 {
    (48 + d) as u8
}

/// `n` in decimal, most significant digit first, without leading zeros.
pub open spec fn decimal(n: nat) -> Seq<u8>
    decreases n,
{
    if n < 10 {
        seq![digit(n)]
    } else {
        decimal(n / 10).push(digit(n % 10))
    }
}

/// The number that a string of ASCII digits denotes.
pub open spec fn decimal_value(text: Seq<u8>) -> nat
    decreases text.len(),
{
    if text.len() == 0 {
        0
    } else {
        decimal_value(text.drop_last()) * 10 + (text.last() - 48) as nat
    }
}

/// Whether `byte` is an ASCII digit.
pub open spec fn is_digit(byte: u8) -> bool {
    48 <= byte <= 57
}

/// The magic number that opens the format: `P3` and a line end.
pub open spec fn magic_text() -> Seq<u8> {
    seq![80u8, 51u8, NEWLINE]
}

/// The header of a `width` by `height` image.
pub open spec fn header_text(width: nat, height: nat) -> Seq<u8> {
    magic_text() + decimal(width) + seq![SPACE] + decimal(height) + seq![NEWLINE] + decimal(
        MAX_CHANNEL as nat,
    ) + seq![NEWLINE]
}

/// The line of one pixel.
pub open spec fn pixel_text(pixel: Rgb) -> Seq<u8> {
    decimal(pixel.red as nat) + seq![SPACE] + decimal(pixel.green as nat) + seq![SPACE] + decimal(
        pixel.blue as nat,
    ) + seq![NEWLINE]
}

/// The lines of `pixels`, in their order.
pub open spec fn body_text(pixels: Seq<Rgb>) -> Seq<u8>
    decreases pixels.len(),
{
    if pixels.len() == 0 {
        Seq::empty()
    } else {
        body_text(pixels.drop_last()) + pixel_text(pixels.last())
    }
}

/// A whole image: the header, then the pixels.
pub open spec fn document_text(width: nat, height: nat, pixels: Seq<Rgb>) -> Seq<u8> {
    header_text(width, height) + body_text(pixels)
}

/// The number of line ends in `text`.
pub open spec fn line_ends(text: Seq<u8>) -> nat
    decreases text.len(),
{
    if text.len() == 0 {
        0
    } else {
        line_ends(text.drop_last()) + if text.last() == NEWLINE {
            1nat
        } else {
            0nat
        }
    }
}

/// Appends `n` in decimal to `out`.
pub fn write_decimal(out: &mut Vec<u8>, n: usize)
    ensures
        final(out)@ == old(out)@ + decimal(n as nat),
    decreases n,
{
    if n >= 10 {
        write_decimal(out, n / 10);
    }
    let low: u8 = (n % 10) as u8;
    out.push(48 + low);
    proof {
        if n >= 10 {
            assert(final(out)@ == (old(out)@ + decimal((n / 10) as nat)).push(digit((n % 10) as nat)));
            assert((old(out)@ + decimal((n / 10) as nat)).push(digit((n % 10) as nat)) =~= old(out)@
                + decimal((n / 10) as nat).push(digit((n % 10) as nat)));
        } else {
            assert(final(out)@ =~= old(out)@ + seq![digit(n as nat)]);
        }
    }
}

/// Appends the line of `pixel` to `out`.
pub fn write_pixel(out: &mut Vec<u8>, pixel: Rgb)
    ensures
        final(out)@ == old(out)@ + pixel_text(pixel),
{
    write_decimal(out, pixel.red as usize);
    out.push(SPACE);
    write_decimal(out, pixel.green as usize);
    out.push(SPACE);
    write_decimal(out, pixel.blue as usize);
    out.push(NEWLINE);
    assert(final(out)@ =~= old(out)@ + pixel_text(pixel));
}

/// The header of a `width` by `height` image.
pub fn header(width: usize, height: usize) -> (text: Vec<u8>)
    ensures
        text@ == header_text(width as nat, height as nat),
{
    let mut text: Vec<u8> = Vec::new();
    // The letter P and the digit 3.
    text.push(80);
    text.push(51);
    text.push(NEWLINE);
    write_decimal(&mut text, width);
    text.push(SPACE);
    write_decimal(&mut text, height);
    text.push(NEWLINE);
    write_decimal(&mut text, MAX_CHANNEL as usize);
    text.push(NEWLINE);
    assert(text@ =~= header_text(width as nat, height as nat));
    text
}

/// The line of one pixel.
pub fn pixel_line(pixel: Rgb) -> (text: Vec<u8>)
    ensures
        text@ == pixel_text(pixel),
{
    let mut text: Vec<u8> = Vec::new();
    write_pixel(&mut text, pixel);
    assert(text@ =~= pixel_text(pixel));
    text
}

/// A whole image: the header for `width` and `height`, then one line for
/// each of `pixels`.
pub fn encode(width: usize, height: usize, pixels: &Vec<Rgb>) -> (text: Vec<u8>)
    ensures
        text@ == document_text(width as nat, height as nat, pixels@),
{
    let mut text = header(width, height);
    let mut i: usize = 0;
    assert(pixels@.take(0) =~= Seq::<Rgb>::empty());
    assert(text@ =~= document_text(width as nat, height as nat, pixels@.take(0)));
    while i < pixels.len()
        invariant
            i <= pixels.len(),
            text@ == document_text(width as nat, height as nat, pixels@.take(i as int)),
        decreases pixels.len() - i,
    {
        write_pixel(&mut text, pixels[i]);
        proof {
            let grown = pixels@.take(i + 1);
            assert(grown.drop_last() =~= pixels@.take(i as int));
            assert(grown.last() == pixels@[i as int]);
            assert(text@ =~= document_text(width as nat, height as nat, grown));
        }
        i += 1;
    }
    assert(pixels@.take(i as int) =~= pixels@);
    text
}

/// The decimal form of a number is made of digits only, has no leading zero
/// unless the number is zero, and denotes the number it was made from: so
/// no two numbers are written alike.
pub proof fn lemma_decimal_round_trip(n: nat)
    ensures
        decimal(n).len() >= 1,
        forall|i: int| 0 <= i < decimal(n).len() ==> is_digit(#[trigger] decimal(n)[i]),
        decimal(n)[0] == 48 <==> n == 0,
        decimal_value(decimal(n)) == n,
    decreases n,
{
    if n < 10 {
        let text = decimal(n);
        assert(text.drop_last() =~= Seq::<u8>::empty());
        assert(decimal_value(text.drop_last()) == 0);
    } else {
        lemma_decimal_round_trip(n / 10);
        let head = decimal(n / 10);
        let text = decimal(n);
        assert(text.drop_last() =~= head);
        assert(text.last() == digit(n % 10));
        assert(text[0] == head[0]);
    }
}

/// The line ends of two texts put together are those of the one and those
/// of the other.
pub proof fn lemma_line_ends_add(front: Seq<u8>, back: Seq<u8>)
    ensures
        line_ends(front + back) == line_ends(front) + line_ends(back),
    decreases back.len(),
{
    if back.len() == 0 {
        assert(front + back =~= front);
    } else {
        assert((front + back).drop_last() =~= front + back.drop_last());
        assert((front + back).last() == back.last());
        lemma_line_ends_add(front, back.drop_last());
    }
}

/// A number in decimal holds no line end.
pub proof fn lemma_decimal_is_one_word(n: nat)
    ensures
        line_ends(decimal(n)) == 0,
    decreases n,
{
    let text = decimal(n);
    if n < 10 {
        assert(text.drop_last() =~= Seq::<u8>::empty());
        assert(line_ends(Seq::<u8>::empty()) == 0);
        assert(text.last() == digit(n));
    } else {
        lemma_decimal_is_one_word(n / 10);
        assert(text.drop_last() =~= decimal(n / 10));
        assert(text.last() == digit(n % 10));
    }
}

/// The line ends of a text of one byte.
proof fn lemma_line_ends_of_one(byte: u8)
    ensures
        line_ends(seq![byte]) == if byte == NEWLINE { 1nat } else { 0nat },
{
    assert(seq![byte].drop_last() =~= Seq::<u8>::empty());
    assert(line_ends(Seq::<u8>::empty()) == 0);
    assert(seq![byte].last() == byte);
}

/// The header takes three lines and every pixel one line of its own: an
/// image of so many pixels is a text of three lines more.
pub proof fn lemma_one_line_per_pixel(width: nat, height: nat, pixels: Seq<Rgb>)
    ensures
        line_ends(header_text(width, height)) == 3,
        forall|i: int| 0 <= i < pixels.len() ==> line_ends(#[trigger] pixel_text(pixels[i])) == 1,
        line_ends(body_text(pixels)) == pixels.len(),
        line_ends(document_text(width, height, pixels)) == 3 + pixels.len(),
    decreases pixels.len(),
{
    lemma_header_has_three_lines(width, height);
    assert forall|i: int| 0 <= i < pixels.len() implies line_ends(#[trigger] pixel_text(pixels[i]))
        == 1 by {
        lemma_pixel_has_one_line(pixels[i]);
    }
    if pixels.len() > 0 {
        lemma_one_line_per_pixel(width, height, pixels.drop_last());
        lemma_pixel_has_one_line(pixels.last());
        lemma_line_ends_add(body_text(pixels.drop_last()), pixel_text(pixels.last()));
    }
    lemma_line_ends_add(header_text(width, height), body_text(pixels));
}

/// The header is three lines long.
proof fn lemma_header_has_three_lines(width: nat, height: nat)
    ensures
        line_ends(header_text(width, height)) == 3,
{
    let a = magic_text();
    let b = a + decimal(width);
    let c = b + seq![SPACE];
    let d = c + decimal(height);
    let e = d + seq![NEWLINE];
    let f = e + decimal(MAX_CHANNEL as nat);
    assert(line_ends(a) == 1) by {
        let p = seq![80u8];
        let p3 = seq![80u8, 51u8];
        lemma_line_ends_of_one(80u8);
        assert(p3.drop_last() =~= p);
        assert(p3.last() == 51u8);
        assert(line_ends(p3) == 0);
        assert(a.drop_last() =~= p3);
        assert(a.last() == NEWLINE);
    }
    lemma_decimal_is_one_word(width);
    lemma_decimal_is_one_word(height);
    lemma_decimal_is_one_word(MAX_CHANNEL as nat);
    lemma_line_ends_of_one(SPACE);
    lemma_line_ends_of_one(NEWLINE);
    lemma_line_ends_add(a, decimal(width));
    lemma_line_ends_add(b, seq![SPACE]);
    lemma_line_ends_add(c, decimal(height));
    lemma_line_ends_add(d, seq![NEWLINE]);
    lemma_line_ends_add(e, decimal(MAX_CHANNEL as nat));
    lemma_line_ends_add(f, seq![NEWLINE]);
}

/// The line of a pixel is one line long.
proof fn lemma_pixel_has_one_line(pixel: Rgb)
    ensures
        line_ends(pixel_text(pixel)) == 1,
{
    let a = decimal(pixel.red as nat);
    let b = a + seq![SPACE];
    let c = b + decimal(pixel.green as nat);
    let d = c + seq![SPACE];
    let e = d + decimal(pixel.blue as nat);
    lemma_decimal_is_one_word(pixel.red as nat);
    lemma_decimal_is_one_word(pixel.green as nat);
    lemma_decimal_is_one_word(pixel.blue as nat);
    lemma_line_ends_of_one(SPACE);
    lemma_line_ends_of_one(NEWLINE);
    lemma_line_ends_add(a, seq![SPACE]);
    lemma_line_ends_add(b, decimal(pixel.green as nat));
    lemma_line_ends_add(c, seq![SPACE]);
    lemma_line_ends_add(d, decimal(pixel.blue as nat));
    lemma_line_ends_add(e, seq![NEWLINE]);
}

} // verus!
