//! Country flags: decoding the TGA images that hold them into top-down RGBA
//! rows, and turning those rows into PNG data URLs.

use vstd::prelude::*;
use crate::text::{nat_text, push_str, push_chars, string_of, u64_text};
use vstd::arithmetic::div_mod::{lemma_fundamental_div_mod, lemma_fundamental_div_mod_converse};

verus! {

/// A decoded image: `rgba` holds four bytes per pixel, rows top to bottom,
/// each row left to right.
#[derive(Debug, Clone, PartialEq, Eq)]
pub struct DecodedImage {
    pub width: u32,
    pub height: u32,
    pub rgba: Vec<u8>,
}

/// The RGBA bytes of one stored pixel, which TGA keeps as blue, green, red
/// and, at 32 bits, alpha. Any other length gives a transparent black pixel.
pub open spec fn rgba_of(p: Seq<u8>) -> Seq<u8> {
    if p.len() == 3 {
        seq![p[2], p[1], p[0], 255u8]
    } else if p.len() == 4 {
        seq![p[2], p[1], p[0], p[3]]
    } else {
        seq![0u8, 0u8, 0u8, 0u8]
    }
}

/// Whether the descriptor stores rows top to bottom.
pub open spec fn rows_top_down(descriptor: u8) -> bool {
    descriptor & 0x20u8 != 0
}

/// Whether the descriptor stores each row right to left.
pub open spec fn columns_right_to_left(descriptor: u8) -> bool {
    descriptor & 0x10u8 != 0
}

/// For byte `t` of the output (`t < width * height * 4`), the byte of the
/// stored pixels it is taken from: the output is shown top-down and left to
/// right, so a bottom-up or right-to-left image is mirrored.
pub open spec fn source_byte(width: nat, height: nat, descriptor: u8, t: int) -> int {
    let p = t / 4;
    let row = p / (width as int);
    let column = p % (width as int);
    let source_column = if columns_right_to_left(descriptor) {
        width - 1 - column
    } else {
        column
    };
    let source_row = if rows_top_down(descriptor) {
        row
    } else {
        height - 1 - row
    };
    (source_row * width + source_column) * 4 + t % 4
}

/// The stored pixels laid out top-down and left to right; bytes past
/// `width * height * 4` are zero.
pub open spec fn reoriented(width: nat, height: nat, descriptor: u8, pixels: Seq<u8>) -> Seq<u8> {
    Seq::new(
        pixels.len(),
        |t: int|
            if t < width * height * 4 {
                pixels[source_byte(width, height, descriptor, t)]
            } else {
                0u8
            },
    )
}

/// Where stored pixel `s` lands in the output, as a pixel index.
pub open spec fn target_pixel(width: nat, height: nat, descriptor: u8, s: int) -> int {
    let row = s / (width as int);
    let column = s % (width as int);
    let target_column = if columns_right_to_left(descriptor) {
        width - 1 - column
    } else {
        column
    };
    let target_row = if rows_top_down(descriptor) {
        row
    } else {
        height - 1 - row
    };
    target_row * width + target_column
}

proof fn lemma_cell_in_grid(row: int, column: int, width: int, height: int)
    by (nonlinear_arith)
    requires
        0 <= row < height,
        0 <= column < width,
    ensures
        0 <= row * width + column < width * height,
{
}

proof fn lemma_pixel_row(p: int, width: int, height: int)
    by (nonlinear_arith)
    requires
        0 <= p < width * height,
        0 < width,
    ensures
        0 <= p / width < height,
        0 <= p % width < width,
{
}

/// Every stored pixel reaches the output at its mirrored place, unchanged:
/// byte `k` of stored pixel `s` is byte `k` of output pixel
/// `target_pixel(s)`.
pub proof fn lemma_reorient_moves_each_pixel(
    width: nat,
    height: nat,
    descriptor: u8,
    pixels: Seq<u8>,
    s: int,
    k: int,
)
    requires
        width * height * 4 <= pixels.len(),
        0 <= s < width * height,
        0 <= k < 4,
    ensures
        0 <= target_pixel(width, height, descriptor, s) < width * height,
        reoriented(width, height, descriptor, pixels)[target_pixel(width, height, descriptor, s) * 4
            + k] == pixels[s * 4 + k],
{
    lemma_pixel_row(s, width as int, height as int);
    let row = s / (width as int);
    let column = s % (width as int);
    let target_column = if columns_right_to_left(descriptor) {
        width - 1 - column
    } else {
        column
    };
    let target_row = if rows_top_down(descriptor) {
        row
    } else {
        height - 1 - row
    };
    let tp = target_row * width + target_column;
    lemma_cell_in_grid(target_row, target_column, width as int, height as int);
    let t = tp * 4 + k;
    lemma_fundamental_div_mod_converse(t, 4, tp, k);
    lemma_fundamental_div_mod_converse(tp, width as int, target_row, target_column);
    lemma_fundamental_div_mod(s, width as int);
    assert(row * (width as int) == (width as int) * row) by (nonlinear_arith);
    assert(source_byte(width, height, descriptor, t) == s * 4 + k);
}

/// Distinct stored pixels land on distinct output pixels, so reorienting
/// moves every pixel and loses none.
pub proof fn lemma_reorient_keeps_pixels_apart(
    width: nat,
    height: nat,
    descriptor: u8,
    s1: int,
    s2: int,
)
    requires
        0 <= s1 < width * height,
        0 <= s2 < width * height,
        s1 != s2,
    ensures
        target_pixel(width, height, descriptor, s1) != target_pixel(width, height, descriptor, s2),
{
    lemma_pixel_row(s1, width as int, height as int);
    lemma_pixel_row(s2, width as int, height as int);
    let w = width as int;
    let (r1, c1) = (s1 / w, s1 % w);
    let (r2, c2) = (s2 / w, s2 % w);
    let tc1 = if columns_right_to_left(descriptor) { w - 1 - c1 } else { c1 };
    let tc2 = if columns_right_to_left(descriptor) { w - 1 - c2 } else { c2 };
    let tr1 = if rows_top_down(descriptor) { r1 } else { height - 1 - r1 };
    let tr2 = if rows_top_down(descriptor) { r2 } else { height - 1 - r2 };
    lemma_fundamental_div_mod(s1, w);
    lemma_fundamental_div_mod(s2, w);
    if tr1 * w + tc1 == tr2 * w + tc2 {
        lemma_fundamental_div_mod_converse(tr1 * w + tc1, w, tr1, tc1);
        lemma_fundamental_div_mod_converse(tr2 * w + tc2, w, tr2, tc2);
        assert(r1 == r2 && c1 == c2);
        assert(w * r1 == r1 * w) by (nonlinear_arith);
        assert(s1 == s2);
    }
}

proof fn lemma_source_byte_involution(width: nat, height: nat, descriptor: u8, t: int)
    requires
        0 <= t < width * height * 4,
    ensures
        0 <= source_byte(width, height, descriptor, t) < width * height * 4,
        source_byte(width, height, descriptor, source_byte(width, height, descriptor, t)) == t,
{
    let w = width as int;
    let p = t / 4;
    let k = t % 4;
    assert(0 <= p < width * height);
    if width == 0 {
        assert(width * height == 0) by (nonlinear_arith)
            requires
                width == 0,
        ;
    }
    lemma_pixel_row(p, w, height as int);
    let row = p / w;
    let col = p % w;
    let sc = if columns_right_to_left(descriptor) { w - 1 - col } else { col };
    let sr = if rows_top_down(descriptor) { row } else { height - 1 - row };
    lemma_cell_in_grid(sr, sc, w, height as int);
    let sp = sr * w + sc;
    let sb = sp * 4 + k;
    assert(source_byte(width, height, descriptor, t) == sb);
    lemma_fundamental_div_mod_converse(sb, 4, sp, k);
    lemma_fundamental_div_mod_converse(sp, w, sr, sc);
    lemma_fundamental_div_mod(t, 4);
    lemma_fundamental_div_mod(p, w);
    assert(row * w == w * row) by (nonlinear_arith);
    assert(sb < width * height * 4);
}

/// Reorienting laid-out pixels a second time gives the stored pixels back:
/// each mirroring undoes itself.
pub proof fn lemma_reorient_twice_restores(width: nat, height: nat, descriptor: u8, pixels: Seq<u8>)
    requires
        pixels.len() == width * height * 4,
    ensures
        reoriented(width, height, descriptor, reoriented(width, height, descriptor, pixels))
            == pixels,
{
    let once = reoriented(width, height, descriptor, pixels);
    let twice = reoriented(width, height, descriptor, once);
    assert forall|t: int| 0 <= t < pixels.len() implies twice[t] == pixels[t] by {
        lemma_source_byte_involution(width, height, descriptor, t);
    }
    assert(twice =~= pixels);
}

proof fn lemma_output_byte(width: nat, height: nat, descriptor: u8, row: int, column: int, k: int)
    requires
        0 <= row < height,
        0 <= column < width,
        0 <= k < 4,
    ensures
        0 <= (row * width + column) * 4 + k < width * height * 4,
        source_byte(width, height, descriptor, (row * width + column) * 4 + k) == ((if descriptor
            & 0x20u8 != 0 {
            row
        } else {
            height - 1 - row
        }) * width + (if descriptor & 0x10u8 != 0 {
            width - 1 - column
        } else {
            column
        })) * 4 + k,
{
    let w = width as int;
    lemma_cell_in_grid(row, column, w, height as int);
    let p = row * w + column;
    lemma_fundamental_div_mod_converse(p * 4 + k, 4, p, k);
    lemma_fundamental_div_mod_converse(p, w, row, column);
}

/// Output pixel (`row`, `column`) of a TGA image comes from the stored row
/// of the same number when bit 5 (`0x20`) of the descriptor is set, and
/// from the stored row counted from the bottom when it is clear; it comes
/// from the stored column counted from the right when bit 4 (`0x10`) is
/// set. No other bit of the descriptor changes where a pixel goes.
pub proof fn lemma_reorient_by_descriptor_bits(
    width: nat,
    height: nat,
    descriptor: u8,
    pixels: Seq<u8>,
    row: int,
    column: int,
    k: int,
)
    requires
        width * height * 4 <= pixels.len(),
        0 <= row < height,
        0 <= column < width,
        0 <= k < 4,
    ensures
        reoriented(width, height, descriptor, pixels)[(row * width + column) * 4 + k] == pixels[(
        (if descriptor & 0x20u8 != 0 {
            row
        } else {
            height - 1 - row
        }) * width + (if descriptor & 0x10u8 != 0 {
            width - 1 - column
        } else {
            column
        })) * 4 + k],
        reoriented(width, height, descriptor, pixels) == reoriented(
            width,
            height,
            descriptor & 0x30u8,
            pixels,
        ),
{
    lemma_output_byte(width, height, descriptor, row, column, k);
    let masked = descriptor & 0x30u8;
    assert((masked & 0x20u8 != 0) == (descriptor & 0x20u8 != 0) && (masked & 0x10u8 != 0) == (
    descriptor & 0x10u8 != 0)) by (bit_vector)
        requires
            masked == descriptor & 0x30u8,
    ;
    assert(reoriented(width, height, descriptor, pixels) =~= reoriented(width, height, masked, pixels));
}

/// The RGBA bytes of one stored pixel, as `rgba_of` gives them.
pub fn pixel_to_rgba(pixel: &[u8]) -> (r: [u8; 4])
    ensures
        r@ == rgba_of(pixel@),
{
    if pixel.len() == 3 {
        let r = [pixel[2], pixel[1], pixel[0], 255u8];
        assert(r@ =~= rgba_of(pixel@));
        r
    } else if pixel.len() == 4 {
        let r = [pixel[2], pixel[1], pixel[0], pixel[3]];
        assert(r@ =~= rgba_of(pixel@));
        r
    } else {
        let r = [0u8, 0u8, 0u8, 0u8];
        assert(r@ =~= rgba_of(pixel@));
        r
    }
}

/// Lays the stored pixels out top-down and left to right, as the image
/// descriptor's origin bits ask; bytes past `width * height * 4` become zero.
pub fn reorient_tga_pixels(width: usize, height: usize, image_descriptor: u8, pixels: &[u8]) -> (r:
    DecodedImage)
    requires
        width * height * 4 <= pixels@.len(),
    ensures
        r.width == width as u32,
        r.height == height as u32,
        r.rgba@ == reoriented(width as nat, height as nat, image_descriptor, pixels@),
{
    let top_to_bottom = image_descriptor & 0x20 != 0;
    let right_to_left = image_descriptor & 0x10 != 0;
    let n = pixels.len();
    assert(width * height <= width * height * 4) by (nonlinear_arith);
    let total = width * height * 4;
    let mut rgba: Vec<u8> = Vec::with_capacity(pixels.len());
    let mut p: usize = 0;
    while p < width * height
        invariant
            total == width * height * 4,
            total <= pixels@.len(),
            top_to_bottom == rows_top_down(image_descriptor),
            right_to_left == columns_right_to_left(image_descriptor),
            p <= width * height,
            rgba@.len() == p * 4,
            forall|t: int|
                0 <= t < p * 4 ==> #[trigger] rgba@[t] == pixels@[source_byte(
                    width as nat,
                    height as nat,
                    image_descriptor,
                    t,
                )],
        decreases width * height - p,
    {
        let row = p / width;
        let column = p % width;
        proof {
            lemma_pixel_row(p as int, width as int, height as int);
        }
        let source_column = if right_to_left {
            width - 1 - column
        } else {
            column
        };
        let source_row = if top_to_bottom {
            row
        } else {
            height - 1 - row
        };
        proof {
            lemma_cell_in_grid(source_row as int, source_column as int, width as int, height as int);
        }
        let source = (source_row * width + source_column) * 4;
        let mut k: usize = 0;
        while k < 4
            invariant
                0 <= p < width * height,
                row == p / width,
                column == p % width,
                source_column == (if columns_right_to_left(image_descriptor) {
                    width - 1 - column
                } else {
                    column as int
                }),
                source_row == (if rows_top_down(image_descriptor) {
                    row as int
                } else {
                    height - 1 - row
                }),
                source == (source_row * width + source_column) * 4,
                source + 4 <= width * height * 4,
                width * height * 4 <= pixels@.len(),
                k <= 4,
                rgba@.len() == p * 4 + k,
                forall|t: int|
                    0 <= t < p * 4 + k ==> #[trigger] rgba@[t] == pixels@[source_byte(
                        width as nat,
                        height as nat,
                        image_descriptor,
                        t,
                    )],
            decreases 4 - k,
        {
            let ghost t = p * 4 + k;
            assert(t / 4 == p && t % 4 == k);
            rgba.push(pixels[source + k]);
            k += 1;
        }
        p += 1;
    }
    let mut t: usize = total;
    while t < n
        invariant
            total == width * height * 4,
            total <= t <= pixels@.len(),
            n == pixels@.len(),
            rgba@.len() == t,
            forall|i: int|
                0 <= i < total ==> #[trigger] rgba@[i] == pixels@[source_byte(
                    width as nat,
                    height as nat,
                    image_descriptor,
                    i,
                )],
            forall|i: int| total <= i < t ==> #[trigger] rgba@[i] == 0u8,
        decreases pixels.len() - t,
    {
        rgba.push(0u8);
        t += 1;
    }
    assert(rgba@ =~= reoriented(width as nat, height as nat, image_descriptor, pixels@));
    DecodedImage { width: width as u32, height: height as u32, rgba }
}

/// A little-endian 16-bit header field.
pub open spec fn le_u16(low: u8, high: u8) -> nat {
    low as nat + 256 * (high as nat)
}

/// `chunk` in front of what a further read gives, or that read's error.
pub open spec fn with_prefix(chunk: Seq<u8>, rest: Result<Seq<u8>, Seq<char>>) -> Result<
    Seq<u8>,
    Seq<char>,
> {
    match rest {
        Ok(tail) => Ok(chunk + tail),
        Err(e) => Err(e),
    }
}

/// `s` written `n` times over.
pub open spec fn repeat(s: Seq<u8>, n: nat) -> Seq<u8>
    decreases n,
{
    if n == 0 {
        Seq::empty()
    } else {
        repeat(s, (n - 1) as nat) + s
    }
}

/// The RGBA bytes of `n` stored pixels of `bpp` bytes each, from `cursor`
/// on, all of which are present.
pub open spec fn packet_pixels(b: Seq<u8>, cursor: int, bpp: nat, n: nat) -> Seq<u8>
    decreases n,
{
    if n == 0 {
        Seq::empty()
    } else {
        rgba_of(b.subrange(cursor, cursor + bpp)) + packet_pixels(
            b,
            cursor + bpp,
            bpp,
            (n - 1) as nat,
        )
    }
}

/// Uncompressed pixel data: `n` stored pixels from `cursor` on, or the
/// error for the first one that runs past the end.
pub open spec fn raw_pixel_data(b: Seq<u8>, cursor: int, bpp: nat, n: nat) -> Result<
    Seq<u8>,
    Seq<char>,
>
    decreases n,
{
    if n == 0 {
        Ok(Seq::empty())
    } else if cursor + bpp > b.len() {
        Err("unexpected end of TGA pixel data"@)
    } else {
        with_prefix(
            rgba_of(b.subrange(cursor, cursor + bpp)),
            raw_pixel_data(b, cursor + bpp, bpp, (n - 1) as nat),
        )
    }
}

/// Run-length encoded pixel data from `cursor` on, packet after packet,
/// until at least `need` RGBA bytes came out. A packet header's low seven
/// bits give the run length less one; with its high bit set one stored
/// pixel follows, repeated over the run, else the run's pixels follow.
pub open spec fn rle_pixel_data(b: Seq<u8>, cursor: int, bpp: nat, need: int) -> Result<
    Seq<u8>,
    Seq<char>,
>
    decreases b.len() - cursor,
{
    if need <= 0 {
        Ok(Seq::empty())
    } else if cursor < 0 || cursor >= b.len() {
        Err("unexpected end of TGA RLE packet header"@)
    } else {
        let header = b[cursor];
        let run = (header & 0x7Fu8) as nat + 1;
        let next = cursor + 1;
        if header & 0x80u8 != 0 {
            if next + bpp > b.len() {
                Err("unexpected end of TGA RLE pixel data"@)
            } else {
                with_prefix(
                    repeat(rgba_of(b.subrange(next, next + bpp)), run),
                    rle_pixel_data(b, next + bpp, bpp, need - run * 4),
                )
            }
        } else {
            let byte_count = run * bpp;
            if next + byte_count > b.len() {
                Err("unexpected end of TGA raw packet data"@)
            } else {
                with_prefix(
                    packet_pixels(b, next, bpp, run),
                    rle_pixel_data(b, next + byte_count, bpp, need - run * 4),
                )
            }
        }
    }
}

/// What a TGA file decodes to: its width, its height and its RGBA bytes
/// top-down, or the reason it cannot be read. Only true-colour images
/// (type 2, or type 10 run-length encoded) of 24 or 32 bits per pixel are
/// read.
pub open spec fn tga_decoding(b: Seq<u8>) -> Result<(nat, nat, Seq<u8>), Seq<char>> {
    if b.len() < 18 {
        Err("TGA file is too small"@)
    } else {
        let id_length = b[0] as int;
        let image_type = b[2];
        let width = le_u16(b[12], b[13]);
        let height = le_u16(b[14], b[15]);
        let depth = b[16];
        if b[1] != 0 {
            Err("color-mapped TGA files are not supported"@)
        } else if image_type != 2 && image_type != 10 {
            Err("unsupported TGA image type "@ + nat_text(image_type as nat))
        } else if depth != 24 && depth != 32 {
            Err("unsupported TGA pixel depth "@ + nat_text(depth as nat))
        } else if width == 0 || height == 0 {
            Err("TGA image has zero width or height"@)
        } else if 18 + id_length > b.len() {
            Err("TGA header points past the end of the file"@)
        } else {
            let bpp = (depth / 8) as nat;
            let body = if image_type == 2 {
                raw_pixel_data(b, 18 + id_length, bpp, width * height)
            } else {
                rle_pixel_data(b, 18 + id_length, bpp, (width * height * 4) as int)
            };
            match body {
                Err(e) => Err(e),
                Ok(pixels) => if pixels.len() != width * height * 4 {
                    Err("decoded TGA pixel count did not match image dimensions"@)
                } else {
                    Ok((width, height, reoriented(width, height, b[17], pixels)))
                },
            }
        }
    }
}

proof fn lemma_with_prefix_join(a: Seq<u8>, b: Seq<u8>, r: Result<Seq<u8>, Seq<char>>)
    ensures
        with_prefix(a, with_prefix(b, r)) == with_prefix(a + b, r),
{
    match r {
        Ok(tail) => {
            assert(a + (b + tail) =~= (a + b) + tail);
        },
        Err(_) => {},
    }
}

proof fn lemma_repeat_len(s: Seq<u8>, n: nat)
    ensures
        repeat(s, n).len() == n * s.len(),
    decreases n,
{
    if n > 0 {
        lemma_repeat_len(s, (n - 1) as nat);
        assert(repeat(s, n).len() == repeat(s, (n - 1) as nat).len() + s.len());
        assert(n * s.len() == (n - 1) * s.len() + s.len()) by (nonlinear_arith)
            requires
                n > 0,
        ;
    } else {
        assert(0 * s.len() == 0) by (nonlinear_arith);
    }
}

proof fn lemma_packet_pixels_len(b: Seq<u8>, cursor: int, bpp: nat, n: nat)
    ensures
        packet_pixels(b, cursor, bpp, n).len() == n * 4,
    decreases n,
{
    if n > 0 {
        lemma_packet_pixels_len(b, cursor + bpp, bpp, (n - 1) as nat);
    }
}

/// The RGBA bytes of the stored pixel at `at`.
fn pixel_at(bytes: &[u8], at: usize, bpp: usize) -> (r: [u8; 4])
    requires
        bpp == 3 || bpp == 4,
        at + bpp <= bytes@.len(),
    ensures
        r@ == rgba_of(bytes@.subrange(at as int, at + bpp)),
{
    let len = bytes.len();
    assert(at + bpp <= len);
    pixel_to_rgba(vstd::slice::slice_subrange(bytes, at, at + bpp))
}

/// Appends the four bytes of one pixel.
fn push_pixel(out: &mut Vec<u8>, px: [u8; 4])
    ensures
        final(out)@ == old(out)@ + px@,
{
    out.push(px[0]);
    out.push(px[1]);
    out.push(px[2]);
    out.push(px[3]);
    assert(out@ =~= old(out)@ + px@);
}

/// `prefix` followed by `n` in decimal.
fn numbered_message(prefix: &str, n: u8) -> (r: String)
    ensures
        r@ == prefix@ + nat_text(n as nat),
{
    let mut text: Vec<char> = Vec::new();
    push_str(&mut text, prefix);
    push_chars(&mut text, &u64_text(n as u64));
    string_of(&text)
}

/// Reads uncompressed pixel data: `count` stored pixels from `start` on.
fn read_raw_pixels(bytes: &[u8], start: usize, bpp: usize, count: u64) -> (r: Result<
    Vec<u8>,
    String,
>)
    requires
        bpp == 3 || bpp == 4,
        start <= bytes@.len(),
    ensures
        match r {
            Ok(pixels) => raw_pixel_data(bytes@, start as int, bpp as nat, count as nat) == Ok::<
                Seq<u8>,
                Seq<char>,
            >(pixels@),
            Err(e) => raw_pixel_data(bytes@, start as int, bpp as nat, count as nat) == Err::<
                Seq<u8>,
                Seq<char>,
            >(e@),
        },
{
    let mut pixels: Vec<u8> = Vec::new();
    let mut cursor = start;
    let mut left = count;
    while left > 0
        invariant
            bpp == 3 || bpp == 4,
            cursor <= bytes@.len(),
            with_prefix(pixels@, raw_pixel_data(bytes@, cursor as int, bpp as nat, left as nat))
                == raw_pixel_data(bytes@, start as int, bpp as nat, count as nat),
        decreases left,
    {
        if bpp > bytes.len() - cursor {
            return Err("unexpected end of TGA pixel data".to_string());
        }
        let px = pixel_at(bytes, cursor, bpp);
        proof {
            lemma_with_prefix_join(
                pixels@,
                px@,
                raw_pixel_data(bytes@, cursor + bpp, bpp as nat, (left - 1) as nat),
            );
        }
        push_pixel(&mut pixels, px);
        cursor = cursor + bpp;
        left = left - 1;
    }
    assert(pixels@ + Seq::<u8>::empty() =~= pixels@);
    Ok(pixels)
}

/// Reads run-length encoded pixel data from `start` on, until at least
/// `need` RGBA bytes came out.
fn read_rle_pixels(bytes: &[u8], start: usize, bpp: usize, need: u64) -> (r: Result<
    Vec<u8>,
    String,
>)
    requires
        bpp == 3 || bpp == 4,
        start <= bytes@.len(),
        need <= 0x4_0000_0000,
    ensures
        match r {
            Ok(pixels) => rle_pixel_data(bytes@, start as int, bpp as nat, need as int) == Ok::<
                Seq<u8>,
                Seq<char>,
            >(pixels@),
            Err(e) => rle_pixel_data(bytes@, start as int, bpp as nat, need as int) == Err::<
                Seq<u8>,
                Seq<char>,
            >(e@),
        },
{
    let len = bytes.len();
    let mut pixels: Vec<u8> = Vec::new();
    let mut produced: u64 = 0;
    let mut cursor = start;
    while produced < need
        invariant
            len == bytes@.len(),
            bpp == 3 || bpp == 4,
            cursor <= len,
            need <= 0x4_0000_0000,
            produced == pixels@.len(),
            produced < need + 0x1000,
            with_prefix(pixels@, rle_pixel_data(bytes@, cursor as int, bpp as nat, need - produced))
                == rle_pixel_data(bytes@, start as int, bpp as nat, need as int),
        decreases len - cursor,
    {
        if cursor >= len {
            return Err("unexpected end of TGA RLE packet header".to_string());
        }
        let ghost here = cursor;
        let ghost before = pixels@;
        let header = bytes[cursor];
        cursor = cursor + 1;
        let low: u8 = header & 0x7F;
        assert(low <= 127) by (bit_vector)
            requires
                low == header & 0x7F,
        ;
        let run: usize = (low + 1) as usize;
        if header & 0x80 != 0 {
            if bpp > len - cursor {
                return Err("unexpected end of TGA RLE pixel data".to_string());
            }
            let px = pixel_at(bytes, cursor, bpp);
            cursor = cursor + bpp;
            let mut j: usize = 0;
            while j < run
                invariant
                    j <= run,
                    pixels@ == before + repeat(px@, j as nat),
                decreases run - j,
            {
                push_pixel(&mut pixels, px);
                j = j + 1;
                assert(before + repeat(px@, j as nat) =~= (before + repeat(px@, (j - 1) as nat))
                    + px@);
            }
            proof {
                lemma_repeat_len(px@, run as nat);
                lemma_with_prefix_join(
                    before,
                    repeat(px@, run as nat),
                    rle_pixel_data(bytes@, cursor as int, bpp as nat, need - produced - run * 4),
                );
            }
        } else {
            let byte_count = run * bpp;
            if byte_count > len - cursor {
                return Err("unexpected end of TGA raw packet data".to_string());
            }
            let ghost first = cursor;
            let mut j: usize = 0;
            assert(pixels@ =~= before + Seq::<u8>::empty());
            while j < run
                invariant
                    bpp == 3 || bpp == 4,
                    len == bytes@.len(),
                    j <= run,
                    cursor == first + j * bpp,
                    first + run * bpp <= len,
                    pixels@ + packet_pixels(bytes@, cursor as int, bpp as nat, (run - j) as nat)
                        == before + packet_pixels(bytes@, first as int, bpp as nat, run as nat),
                decreases run - j,
            {
                assert(cursor + bpp <= first + run * bpp) by (nonlinear_arith)
                    requires
                        cursor == first + j * bpp,
                        j < run,
                ;
                let px = pixel_at(bytes, cursor, bpp);
                let ghost rest = packet_pixels(
                    bytes@,
                    cursor + bpp,
                    bpp as nat,
                    (run - j - 1) as nat,
                );
                assert(pixels@ + (px@ + rest) =~= (pixels@ + px@) + rest);
                push_pixel(&mut pixels, px);
                assert(cursor + bpp == first + (j + 1) * bpp) by (nonlinear_arith)
                    requires
                        cursor == first + j * bpp,
                ;
                cursor = cursor + bpp;
                j = j + 1;
            }
            assert(pixels@ =~= pixels@ + Seq::<u8>::empty());
            proof {
                lemma_packet_pixels_len(bytes@, first as int, bpp as nat, run as nat);
                lemma_with_prefix_join(
                    before,
                    packet_pixels(bytes@, first as int, bpp as nat, run as nat),
                    rle_pixel_data(bytes@, cursor as int, bpp as nat, need - produced - run * 4),
                );
            }
        }
        produced = produced + (run as u64) * 4;
    }
    assert(pixels@ + Seq::<u8>::empty() =~= pixels@);
    Ok(pixels)
}

/// Decodes a TGA file into its width, height and top-down RGBA rows, or the
/// reason it cannot be read, as `tga_decoding` says.
pub fn decode_tga(bytes: &[u8]) -> (r: Result<DecodedImage, String>)
    ensures
        match r {
            Ok(image) => tga_decoding(bytes@) == Ok::<(nat, nat, Seq<u8>), Seq<char>>(
                (image.width as nat, image.height as nat, image.rgba@),
            ),
            Err(e) => tga_decoding(bytes@) == Err::<(nat, nat, Seq<u8>), Seq<char>>(e@),
        },
{
    let len = bytes.len();
    if len < 18 {
        return Err("TGA file is too small".to_string());
    }
    let id_length = bytes[0] as usize;
    let color_map_type = bytes[1];
    let image_type = bytes[2];
    let width = (bytes[12] as usize) + 256 * (bytes[13] as usize);
    let height = (bytes[14] as usize) + 256 * (bytes[15] as usize);
    let pixel_depth = bytes[16];
    let image_descriptor = bytes[17];
    if color_map_type != 0 {
        return Err("color-mapped TGA files are not supported".to_string());
    }
    if image_type != 2 && image_type != 10 {
        return Err(numbered_message("unsupported TGA image type ", image_type));
    }
    if pixel_depth != 24 && pixel_depth != 32 {
        return Err(numbered_message("unsupported TGA pixel depth ", pixel_depth));
    }
    if width == 0 || height == 0 {
        return Err("TGA image has zero width or height".to_string());
    }
    let bpp = (pixel_depth / 8) as usize;
    let start = 18 + id_length;
    if start > len {
        return Err("TGA header points past the end of the file".to_string());
    }
    assert(width * height <= 0xFFFF * 0xFFFF) by (nonlinear_arith)
        requires
            width <= 0xFFFF,
            height <= 0xFFFF,
    ;
    let pixel_count: u64 = (width as u64) * (height as u64);
    let need: u64 = pixel_count * 4;
    let body = if image_type == 2 {
        read_raw_pixels(bytes, start, bpp, pixel_count)
    } else {
        read_rle_pixels(bytes, start, bpp, need)
    };
    let pixels = match body {
        Ok(pixels) => pixels,
        Err(e) => {
            return Err(e);
        },
    };
    if pixels.len() as u64 != need {
        return Err("decoded TGA pixel count did not match image dimensions".to_string());
    }
    Ok(reorient_tga_pixels(width, height, image_descriptor, pixels.as_slice()))
}

/// A decoded image has a width and height between 1 and 65535 and exactly
/// four RGBA bytes for each of its pixels.
pub proof fn lemma_decoded_image_shape(b: Seq<u8>)
    ensures
        tga_decoding(b) matches Ok((width, height, rgba)) ==> {
            &&& 0 < width <= 0xFFFF
            &&& 0 < height <= 0xFFFF
            &&& rgba.len() == width * height * 4
        },
{
}

/// Uncompressed pixel data reads without error exactly when the file holds
/// all `n` stored pixels, and then gives four RGBA bytes for each.
pub proof fn lemma_raw_pixel_data_needs_every_pixel(b: Seq<u8>, cursor: int, bpp: nat, n: nat)
    requires
        0 <= cursor <= b.len(),
        bpp > 0,
    ensures
        raw_pixel_data(b, cursor, bpp, n) is Ok <==> cursor + n * bpp <= b.len(),
        raw_pixel_data(b, cursor, bpp, n) matches Ok(rgba) ==> rgba.len() == n * 4,
    decreases n,
{
    if n > 0 {
        if cursor + bpp <= b.len() {
            lemma_raw_pixel_data_needs_every_pixel(b, cursor + bpp, bpp, (n - 1) as nat);
        }
        assert(cursor + n * bpp == cursor + bpp + (n - 1) * bpp) by (nonlinear_arith)
            requires
                n > 0,
        ;
        assert(n * bpp >= bpp) by (nonlinear_arith)
            requires
                n > 0,
        ;
        if cursor + bpp <= b.len() {
            let head = rgba_of(b.subrange(cursor, cursor + bpp));
            let rest = raw_pixel_data(b, cursor + bpp, bpp, (n - 1) as nat);
            assert(raw_pixel_data(b, cursor, bpp, n) == with_prefix(head, rest));
            assert(with_prefix(head, rest) is Ok <==> rest is Ok);
            if rest is Ok {
                assert(head.len() == 4);
                assert((n - 1) * 4 + 4 == n * 4);
            }
        }
    } else {
        assert(0 * bpp == 0) by (nonlinear_arith);
    }
}

/// Standard base64 writes four characters for every three bytes begun.
pub proof fn lemma_base64_length(b: Seq<u8>)
    ensures
        base64_standard(b).len() == 4 * ((b.len() + 2) / 3),
    decreases b.len(),
{
    if b.len() >= 3 {
        lemma_base64_length(b.skip(3));
    }
}

/// Every character of standard base64 is a letter, a digit, `+`, `/` or
/// `=`, and `=` comes only at the end.
pub proof fn lemma_base64_alphabet(b: Seq<u8>)
    ensures
        forall|i: int|
            0 <= i < base64_standard(b).len() ==> {
                let c = #[trigger] base64_standard(b)[i];
                ||| 'A' <= c <= 'Z'
                ||| 'a' <= c <= 'z'
                ||| '0' <= c <= '9'
                ||| c == '+'
                ||| c == '/'
                ||| (c == '=' && i >= base64_standard(b).len() - 2)
            },
    decreases b.len(),
{
    if b.len() >= 3 {
        lemma_base64_alphabet(b.skip(3));
        lemma_base64_length(b.skip(3));
        let x = b[0] as int;
        let y = b[1] as int;
        let z = b[2] as int;
        assert(0 <= x / 4 < 64 && 0 <= (x % 4) * 16 + y / 16 < 64 && 0 <= (y % 16) * 4 + z / 64 < 64
            && 0 <= z % 64 < 64);
        let rest = base64_standard(b.skip(3));
        let head = seq![
            base64_char(x / 4),
            base64_char((x % 4) * 16 + y / 16),
            base64_char((y % 16) * 4 + z / 64),
            base64_char(z % 64),
        ];
        assert forall|i: int| 0 <= i < base64_standard(b).len() implies {
            let c = #[trigger] base64_standard(b)[i];
            ||| 'A' <= c <= 'Z'
            ||| 'a' <= c <= 'z'
            ||| '0' <= c <= '9'
            ||| c == '+'
            ||| c == '/'
            ||| (c == '=' && i >= base64_standard(b).len() - 2)
        } by {
            if i >= 4 {
                assert(base64_standard(b)[i] == rest[i - 4]);
            }
        }
    } else if b.len() == 2 {
        let x = b[0] as int;
        let y = b[1] as int;
        assert(0 <= x / 4 < 64 && 0 <= (x % 4) * 16 + y / 16 < 64 && 0 <= (y % 16) * 4 < 64);
    } else if b.len() == 1 {
        let x = b[0] as int;
        assert(0 <= x / 4 < 64 && 0 <= (x % 4) * 16 < 64);
    }
}

/// The prefix of a PNG data URL.
pub const PNG_DATA_URL_PREFIX: &'static str = "data:image/png;base64,";

/// The character for a six-bit value in the standard base64 alphabet
/// (`A`–`Z`, `a`–`z`, `0`–`9`, `+`, `/`).
pub open spec fn base64_char(v: int) -> char {
    if v < 26 {
        ('A' as int + v) as char
    } else if v < 52 {
        ('a' as int + v - 26) as char
    } else if v < 62 {
        ('0' as int + v - 52) as char
    } else if v == 62 {
        '+'
    } else {
        '/'
    }
}

/// Standard base64 (RFC 4648): every three bytes become four characters of
/// six bits each, most significant first; one or two bytes left at the end
/// become two or three characters, padded with `=` to four.
pub open spec fn base64_standard(b: Seq<u8>) -> Seq<char>
    decreases b.len(),
{
    if b.len() == 0 {
        Seq::empty()
    } else if b.len() == 1 {
        let x = b[0] as int;
        seq![base64_char(x / 4), base64_char((x % 4) * 16), '=', '=']
    } else if b.len() == 2 {
        let x = b[0] as int;
        let y = b[1] as int;
        seq![base64_char(x / 4), base64_char((x % 4) * 16 + y / 16), base64_char((y % 16) * 4), '=']
    } else {
        let x = b[0] as int;
        let y = b[1] as int;
        let z = b[2] as int;
        seq![
            base64_char(x / 4),
            base64_char((x % 4) * 16 + y / 16),
            base64_char((y % 16) * 4 + z / 64),
            base64_char(z % 64),
        ] + base64_standard(b.skip(3))
    }
}

/// The data URL of a PNG file's bytes.
pub open spec fn png_data_url_text(png: Seq<u8>) -> Seq<char> {
    "data:image/png;base64,"@ + base64_standard(png)
}

/// The bytes of the PNG file that the `png` crate's encoder writes, with
/// its default compression and filtering, for an 8-bit RGBA image of this
/// size and these top-down pixel rows.
pub uninterp spec fn png_encoding(width: u32, height: u32, rgba: Seq<u8>) -> Seq<u8>;

/// Encodes `image` with `png::Encoder` as an 8-bit RGBA PNG and returns the
/// file's bytes, named `png_encoding`. The encoder fails only on a zero
/// width or height, on pixel data of another length than
/// `width * height * 4`, which `requires` rules out, or when writing fails,
/// which cannot happen in memory; so the result is `Ok`. Like every `Vec<u8>`
/// it holds at most `isize::MAX` bytes.
#[verifier::external_body]
fn encode_png(image: &DecodedImage) -> (r: Result<Vec<u8>, String>)
    requires
        image.width > 0,
        image.height > 0,
        image.rgba@.len() == image.width * image.height * 4,
    ensures
        r is Ok,
        r->Ok_0@ == png_encoding(image.width, image.height, image.rgba@),
        r->Ok_0@.len() <= isize::MAX,
{
    let mut png_bytes: Vec<u8> = Vec::new();
    {
        let mut encoder = png::Encoder::new(&mut png_bytes, image.width, image.height);
        encoder.set_color(png::ColorType::Rgba);
        encoder.set_depth(png::BitDepth::Eight);
        let mut writer = encoder.write_header().map_err(
            |error| format!("failed to write PNG header: {error}"),
        )?;
        writer.write_image_data(&image.rgba).map_err(
            |error| format!("failed to write PNG data: {error}"),
        )?;
    }
    Ok(png_bytes)
}

/// The standard base64 of `bytes`, with `=` padding, as
/// `base64::engine::general_purpose::STANDARD.encode` writes it. Its output
/// length, four characters per started three bytes, fits a `usize` for any
/// input of at most `isize::MAX` bytes.
#[verifier::external_body]
fn encode_base64(bytes: &[u8]) -> (r: String)
    requires
        bytes@.len() <= isize::MAX,
    ensures
        r@ == base64_standard(bytes@),
{
    base64::Engine::encode(&base64::engine::general_purpose::STANDARD, bytes)
}

/// The data URL of a PNG file: `data:image/png;base64,` and the file's
/// standard base64.
pub fn png_data_url(png: &[u8]) -> (r: String)
    requires
        png@.len() <= isize::MAX,
    ensures
        r@ == png_data_url_text(png@),
{
    let encoded = encode_base64(png);
    let mut text: Vec<char> = Vec::new();
    push_str(&mut text, PNG_DATA_URL_PREFIX);
    push_str(&mut text, encoded.as_str());
    string_of(&text)
}

/// A TGA flag as a PNG data URL, or the reason the TGA file cannot be read.
pub fn tga_to_png_data_url(bytes: &[u8]) -> (r: Result<String, String>)
    ensures
        match tga_decoding(bytes@) {
            Ok((width, height, rgba)) => r matches Ok(url) && url@ == png_data_url_text(
                png_encoding(width as u32, height as u32, rgba),
            ),
            Err(e) => r matches Err(message) && message@ == e,
        },
{
    let image = match decode_tga(bytes) {
        Ok(image) => image,
        Err(e) => {
            return Err(e);
        },
    };
    proof {
        lemma_decoded_image_shape(bytes@);
    }
    let png = match encode_png(&image) {
        Ok(png) => png,
        Err(e) => {
            return Err(e);
        },
    };
    Ok(png_data_url(png.as_slice()))
}

} // verus!
