//! The layout of an image in memory: four bytes for each pixel, red, green,
//! blue and alpha, the pixels of a row from left to right and the rows from
//! top to bottom.

use vstd::prelude::*;

verus! {

/// The alpha of a pixel that lets nothing through.
pub const OPAQUE: u8 = 255;

/// Where the pixel in column `x` of row `y` begins in the buffer of an
/// image that is `width` pixels wide.
pub open spec fn offset(width: int, x: int, y: int) -> int {
    4 * (y * width + x)
}

/// The buffer of the image whose pixels, row after row, have the colours
/// `colours`, and which is opaque everywhere.
pub open spec fn opaque(colours: Seq<[u8; 3]>) -> Seq<u8> {
    Seq::new(
        4 * colours.len(),
        |k: int|
            if k % 4 == 3 {
                OPAQUE
            } else {
                colours[k / 4][k % 4]
            },
    )
}

/// In the buffer of an opaque image, the colour of each pixel stands at its
/// offset, followed by an alpha of 255.
pub proof fn lemma_opaque_pixel(colours: Seq<[u8; 3]>, width: int, height: int, x: int, y: int)
    requires
        colours.len() == width * height,
        0 <= x < width,
        0 <= y < height,
    ensures
        0 <= y * width + x < colours.len(),
        0 <= offset(width, x, y),
        offset(width, x, y) + 3 < opaque(colours).len(),
        opaque(colours)[offset(width, x, y)] == colours[y * width + x][0],
        opaque(colours)[offset(width, x, y) + 1] == colours[y * width + x][1],
        opaque(colours)[offset(width, x, y) + 2] == colours[y * width + x][2],
        opaque(colours)[offset(width, x, y) + 3] == OPAQUE,
{
    assert(0 <= y * width && y * width + x < width * height) by (nonlinear_arith)
        requires
            0 <= x < width,
            0 <= y < height,
    ;
}

/// The length of the buffer of an image of `width` by `height` pixels, if
/// a `u32` holds it.
pub fn buffer_length(width: u32, height: u32) -> (length: Option<usize>)
    ensures
        length is Some <==> 4 * (width * height) <= u32::MAX,
        length matches Some(n) ==> n == 4 * (width * height),
{
    assert(width * height <= 0xffff_fffe_0000_0001) by (nonlinear_arith)
        requires
            width <= 0xffff_ffff,
            height <= 0xffff_ffff,
    ;
    let pixels: u64 = width as u64 * height as u64;
    if pixels <= 0x3fff_ffff {
        Some((4 * pixels) as usize)
    } else {
        None
    }
}

/// The colour of the pixel in column `x` of row `y`: its red, green and
/// blue bytes. The alpha is passed over.
pub fn pixel_at(rgba: &[u8], width: u32, x: u32, y: u32) -> (colour: [u8; 3])
    requires
        x < width,
        offset(width as int, x as int, y as int) + 2 < rgba@.len(),
    ensures
        colour[0] == rgba@[offset(width as int, x as int, y as int)],
        colour[1] == rgba@[offset(width as int, x as int, y as int) + 1],
        colour[2] == rgba@[offset(width as int, x as int, y as int) + 2],
{
    assert(y * width <= 0xffff_fffe_0000_0001) by (nonlinear_arith)
        requires
            y <= 0xffff_ffff,
            width <= 0xffff_ffff,
    ;
    let row: u64 = y as u64 * width as u64;
    assert(rgba@.len() == rgba.len());
    let at: usize = (4 * (row + x as u64)) as usize;
    [rgba[at], rgba[at + 1], rgba[at + 2]]
}

/// Lays out an opaque image of `width` by `height` pixels, whose pixels,
/// row after row, have the colours `colours`.
pub fn opaque_image(width: u32, height: u32, colours: &[[u8; 3]]) -> (pixels: Vec<u8>)
    requires
        colours@.len() == width * height,
        4 * (width * height) <= usize::MAX,
    ensures
        pixels@ == opaque(colours@),
        pixels@.len() == 4 * (width * height),
{
    let mut pixels: Vec<u8> = Vec::new();
    let mut i: usize = 0;
    while i < colours.len()
        invariant
            i <= colours@.len(),
            4 * colours@.len() <= usize::MAX,
            pixels@.len() == 4 * i,
            forall|k: int| 0 <= k < 4 * i ==> #[trigger] pixels@[k] == opaque(colours@)[k],
        decreases colours@.len() - i,
    {
        let colour = colours[i];
        pixels.push(colour[0]);
        pixels.push(colour[1]);
        pixels.push(colour[2]);
        pixels.push(OPAQUE);
        i += 1;
    }
    pixels
}

} // verus!
