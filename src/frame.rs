use vstd::prelude::*;

verus! {

/// The byte that an integer channel level becomes in the output image:
/// its lowest eight bits, as a cast to `u8` keeps them.
pub open spec fn byte_of(level: int) -> int {
    level % 256
}

/// Turns a quantized channel level into its output byte.
pub fn channel_byte(level: i64) -> (r: u8)
    ensures
        r as int == byte_of(level as int),
{
    let m: i64 = level % 256;
    let low: i64 = if m < 0 { m + 256 } else { m };
    low as u8
}

/// Level of channel `ch` (0 red, 1 green, 2 blue) of a quantized pixel.
pub open spec fn level(p: (i64, i64, i64), ch: int) -> int {
    if ch == 0 {
        p.0 as int
    } else if ch == 1 {
        p.1 as int
    } else {
        p.2 as int
    }
}

/// Position of channel `ch` of the pixel at column `col` of row `row`
/// (row 0 on top) in an RGB buffer `width` pixels wide.
pub open spec fn rgb_index(width: int, row: int, col: int, ch: int) -> int {
    3 * (row * width + col) + ch
}

proof fn lemma_pixel_before(width: int, r1: int, c1: int, r2: int, c2: int)
    requires
        0 <= r1,
        0 <= c1 < width,
        0 <= c2,
        r1 < r2 || (r1 == r2 && c1 < c2),
    ensures
        r1 * width + c1 < r2 * width + c2,
{
    if r1 < r2 {
        assert(r1 * width + width <= r2 * width) by (nonlinear_arith)
            requires
                r1 < r2,
                width >= 0,
        ;
    }
}

/// Lays out rendered pixel rows as the bytes of an RGB image whose top row
/// comes first. `rows` holds the rows in camera order, bottom row first,
/// each `width` pixels of quantized levels; each level becomes its byte.
pub fn pack_rgb(rows: &Vec<Vec<(i64, i64, i64)>>, width: usize) -> (r: Vec<u8>)
    requires
        forall|j: int| 0 <= j < rows@.len() ==> rows@[j]@.len() == width,
    ensures
        r@.len() == 3 * width * rows@.len(),
        forall|row: int, col: int, ch: int|
            0 <= row < rows@.len() && 0 <= col < width && 0 <= ch < 3
                ==> #[trigger] r@[rgb_index(width as int, row, col, ch)] as int
                == byte_of(level(rows@[rows@.len() - 1 - row]@[col], ch)),
{
    let height = rows.len();
    let mut out: Vec<u8> = Vec::new();
    assert(rgb_index(width as int, 0, 0, 0) == 0) by (nonlinear_arith);
    for row in 0..height
        invariant
            height == rows@.len(),
            forall|j: int| 0 <= j < rows@.len() ==> rows@[j]@.len() == width,
            out@.len() == rgb_index(width as int, row as int, 0, 0),
            forall|r1: int, c1: int, ch: int|
                0 <= r1 < row && 0 <= c1 < width && 0 <= ch < 3
                    ==> #[trigger] out@[rgb_index(width as int, r1, c1, ch)] as int
                    == byte_of(level(rows@[height - 1 - r1]@[c1], ch)),
    {
        let src = &rows[height - 1 - row];
        for col in 0..width
            invariant
                height == rows@.len(),
                row < height,
                src@ == rows@[height - 1 - row]@,
                src@.len() == width,
                out@.len() == rgb_index(width as int, row as int, col as int, 0),
                forall|r1: int, c1: int, ch: int|
                    0 <= r1 && 0 <= c1 < width && 0 <= ch < 3 && (r1 < row || (r1 == row && c1
                        < col)) ==> #[trigger] out@[rgb_index(width as int, r1, c1, ch)] as int
                        == byte_of(level(rows@[height - 1 - r1]@[c1], ch)),
        {
            let p = src[col];
            let ghost before = out@;
            out.push(channel_byte(p.0));
            out.push(channel_byte(p.1));
            out.push(channel_byte(p.2));
            assert forall|r1: int, c1: int, ch: int|
                0 <= r1 && 0 <= c1 < width && 0 <= ch < 3 && (r1 < row || (r1 == row && c1 < col
                    + 1)) implies #[trigger] out@[rgb_index(width as int, r1, c1, ch)] as int
                == byte_of(level(rows@[height - 1 - r1]@[c1], ch)) by {
                if r1 == row && c1 == col {
                    assert(rgb_index(width as int, r1, c1, ch) == before.len() + ch);
                } else {
                    lemma_pixel_before(width as int, r1, c1, row as int, col as int);
                    assert(out@[rgb_index(width as int, r1, c1, ch)] == before[rgb_index(
                        width as int,
                        r1,
                        c1,
                        ch,
                    )]);
                }
            }
        }
        assert(row * width + width == (row + 1) * width) by (nonlinear_arith);
    }
    assert(3 * (height * width) == 3 * width * height) by (nonlinear_arith);
    out
}

/// Position of pixel `(i, j)` in the scan order of a frame `width` pixels
/// wide, row `j` after row `j - 1`.
pub open spec fn scan_index(width: int, i: int, j: int) -> int {
    j * width + i
}

/// Seed of the random stream that samples pixel `(i, j)`: the frame's
/// base seed advanced by the pixel's scan position, modulo 2^64.
pub open spec fn pixel_seed_of(base: int, width: int, i: int, j: int) -> int {
    (base + scan_index(width, i, j)) % 0x1_0000_0000_0000_0000
}

/// Seeds the random stream of pixel `(i, j)` of a frame `width` pixels wide,
/// so that every pixel draws its own reproducible samples whatever thread
/// renders it.
pub fn pixel_seed(base: u64, width: u32, i: u32, j: u32) -> (r: u64)
    requires
        i < width,
    ensures
        r as int == pixel_seed_of(base as int, width as int, i as int, j as int),
{
    assert((j as int) * (width as int) + (i as int) < 0x1_0000_0000_0000_0000) by (nonlinear_arith)
        requires
            i < width,
            width <= u32::MAX,
            j <= u32::MAX,
    ;
    let pos: u64 = j as u64 * width as u64 + i as u64;
    base.wrapping_add(pos)
}

/// Distinct pixels of a frame get distinct seeds from the same base seed.
pub proof fn lemma_pixel_seeds_distinct(base: u64, width: u32, i1: u32, j1: u32, i2: u32, j2: u32)
    requires
        i1 < width,
        i2 < width,
        i1 != i2 || j1 != j2,
    ensures
        pixel_seed_of(base as int, width as int, i1 as int, j1 as int) != pixel_seed_of(
            base as int,
            width as int,
            i2 as int,
            j2 as int,
        ),
{
    let w = width as int;
    let p1 = scan_index(w, i1 as int, j1 as int);
    let p2 = scan_index(w, i2 as int, j2 as int);
    assert(p1 != p2) by {
        if j1 < j2 {
            lemma_pixel_before(w, j1 as int, i1 as int, j2 as int, i2 as int);
        } else if j2 < j1 {
            lemma_pixel_before(w, j2 as int, i2 as int, j1 as int, i1 as int);
        }
    }
    assert(0 <= p1 < 0x1_0000_0000_0000_0000 && 0 <= p2 < 0x1_0000_0000_0000_0000)
        by (nonlinear_arith)
        requires
            p1 == j1 as int * w + i1 as int,
            p2 == j2 as int * w + i2 as int,
            0 <= i1 < w,
            0 <= i2 < w,
            w <= u32::MAX,
            0 <= j1 <= u32::MAX,
            0 <= j2 <= u32::MAX,
    ;
    let m: int = 0x1_0000_0000_0000_0000;
    let b = base as int;
    assert((b + p1) % m != (b + p2) % m) by (nonlinear_arith)
        requires
            0 <= b < m,
            0 <= p1 < m,
            0 <= p2 < m,
            p1 != p2,
            m > 0,
    ;
}

} // verus!
