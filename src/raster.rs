use vstd::prelude::*;

verus! {

/// The iteration limit the renderer evaluates each pixel with; every escape
/// index below it fits the byte encoding.
pub const ESCAPE_LIMIT: u32 = 255;

/// The grayscale byte for one escape outcome.
pub open spec fn intensity_of(escape: Option<u32>) -> u8 {
    match escape {
        Some(i) => (255 - i) as u8,
        None => 0,
    }
}

/// An outcome the byte encoding can hold: no escape, or an escape index below
/// the renderer's limit.
pub open spec fn is_encodable(escape: Option<u32>) -> bool {
    escape matches Some(i) ==> i < ESCAPE_LIMIT
}

/// Row-major position of pixel `(col, row)` in an image of size `bounds`.
pub open spec fn pixel_offset(bounds: (usize, usize), col: int, row: int) -> int {
    row * bounds.0 + col
}

/// Converts an escape outcome into a pixel byte: points that never escaped
/// get 0, points that escaped at index `i` get `255 - i`.
pub fn intensity(escape: Option<u32>) -> (r: u8)
    requires
        escape matches Some(i) ==> i <= ESCAPE_LIMIT,
    ensures
        r == intensity_of(escape),
{
    match escape {
        Some(i) => 255 - (i as u8),
        None => 0,
    }
}

/// Whether a buffer of `len` bytes has the shape of an image of size `bounds`.
pub fn buffer_fits(len: usize, bounds: (usize, usize)) -> (r: bool)
    ensures
        r == (len == bounds.0 * bounds.1),
{
    match bounds.0.checked_mul(bounds.1) {
        Some(area) => len == area,
        None => {
            assert(bounds.0 * bounds.1 > usize::MAX);
            false
        },
    }
}

proof fn lemma_offset_bounds(bounds: (usize, usize), col: int, row: int)
    requires
        0 <= col < bounds.0,
        0 <= row < bounds.1,
    ensures
        0 <= pixel_offset(bounds, col, row) < bounds.0 * bounds.1,
{
    assert(0 <= row * bounds.0 + col < bounds.0 * bounds.1) by (nonlinear_arith)
        requires
            0 <= col < bounds.0,
            0 <= row < bounds.1,
    ;
}

proof fn lemma_offsets_distinct(bounds: (usize, usize), c1: int, r1: int, c2: int, r2: int)
    requires
        0 <= c1 < bounds.0,
        0 <= c2 < bounds.0,
        0 <= r1,
        0 <= r2,
        c1 != c2 || r1 != r2,
    ensures
        pixel_offset(bounds, c1, r1) != pixel_offset(bounds, c2, r2),
{
    if r1 < r2 {
        assert(r1 * bounds.0 + c1 < r2 * bounds.0 + c2) by (nonlinear_arith)
            requires
                0 <= c1 < bounds.0,
                0 <= c2,
                r1 < r2,
        ;
    } else if r2 < r1 {
        assert(r2 * bounds.0 + c2 < r1 * bounds.0 + c1) by (nonlinear_arith)
            requires
                0 <= c2 < bounds.0,
                0 <= c1,
                r2 < r1,
        ;
    }
}

/// The row-major index of pixel `(col, row)`.
pub fn pixel_index(bounds: (usize, usize), pixel: (usize, usize)) -> (r: usize)
    requires
        pixel.0 < bounds.0,
        pixel.1 < bounds.1,
        bounds.0 * bounds.1 <= usize::MAX,
    ensures
        r == pixel_offset(bounds, pixel.0 as int, pixel.1 as int),
        r < bounds.0 * bounds.1,
{
    proof {
        lemma_offset_bounds(bounds, pixel.0 as int, pixel.1 as int);
    }
    pixel.1 * bounds.0 + pixel.0
}

/// The byte at pixel `(col, row)` of `buffer` encodes an outcome that
/// `escape_of` gives for that pixel.
pub open spec fn shows_pixel<F: Fn((usize, usize)) -> Option<u32>>(
    buffer: Seq<u8>,
    bounds: (usize, usize),
    escape_of: F,
    col: int,
    row: int,
) -> bool {
    exists|e: Option<u32>|
        escape_of.ensures(((col as usize, row as usize),), e) && buffer[pixel_offset(
            bounds,
            col,
            row,
        )] == intensity_of(e)
}

/// Fills `pixel_buffer`, row-major, with one byte per pixel of an image of
/// size `bounds`: the intensity of the escape outcome `escape_of` gives for
/// that pixel's `(col, row)`.
pub fn render<F: Fn((usize, usize)) -> Option<u32>>(
    pixel_buffer: &mut Vec<u8>,
    bounds: (usize, usize),
    escape_of: &F,
)
    requires
        old(pixel_buffer).len() == bounds.0 * bounds.1,
        forall|p: (usize, usize)| escape_of.requires((p,)),
        forall|p: (usize, usize), e: Option<u32>| escape_of.ensures((p,), e) ==> is_encodable(e),
    ensures
        final(pixel_buffer).len() == old(pixel_buffer).len(),
        forall|col: int, row: int|
            0 <= col < bounds.0 && 0 <= row < bounds.1 ==> #[trigger] shows_pixel(
                final(pixel_buffer)@,
                bounds,
                *escape_of,
                col,
                row,
            ),
{
    let (width, height) = bounds;
    let mut row: usize = 0;
    while row < height
        invariant
            forall|p: (usize, usize)| escape_of.requires((p,)),
            forall|p: (usize, usize), e: Option<u32>|
                escape_of.ensures((p,), e) ==> is_encodable(e),
            (width, height) == bounds,
            pixel_buffer.len() == width * height,
            row <= height,
            forall|c: int, r: int|
                0 <= c < width && 0 <= r < row ==> #[trigger] shows_pixel(
                    pixel_buffer@,
                    bounds,
                    *escape_of,
                    c,
                    r,
                ),
        decreases height - row,
    {
        let mut col: usize = 0;
        while col < width
            invariant
                forall|p: (usize, usize)| escape_of.requires((p,)),
                forall|p: (usize, usize), e: Option<u32>|
                    escape_of.ensures((p,), e) ==> is_encodable(e),
                (width, height) == bounds,
                pixel_buffer.len() == width * height,
                row < height,
                col <= width,
                forall|c: int, r: int|
                    0 <= c < width && 0 <= r < row || 0 <= c < col && r == row
                        ==> #[trigger] shows_pixel(pixel_buffer@, bounds, *escape_of, c, r),
            decreases width - col,
        {
            let escape = escape_of((col, row));
            let pixel = intensity(escape);
            let index = pixel_index(bounds, (col, row));
            let ghost before = pixel_buffer@;
            pixel_buffer.set(index, pixel);
            assert forall|c: int, r: int|
                0 <= c < width && 0 <= r < row || 0 <= c < col + 1 && r == row
                    implies #[trigger] shows_pixel(pixel_buffer@, bounds, *escape_of, c, r) by {
                if c == col && r == row {
                    assert(escape_of.ensures(((c as usize, r as usize),), escape));
                } else {
                    lemma_offsets_distinct(bounds, c, r, col as int, row as int);
                    lemma_offset_bounds(bounds, c, r);
                    assert(shows_pixel(before, bounds, *escape_of, c, r));
                    let e = choose|e: Option<u32>|
                        escape_of.ensures(((c as usize, r as usize),), e) && before[pixel_offset(
                            bounds,
                            c,
                            r,
                        )] == intensity_of(e);
                    assert(pixel_buffer@[pixel_offset(bounds, c, r)] == intensity_of(e));
                }
            }
            col += 1;
        }
        row += 1;
    }
}

} // verus!
