use vstd::prelude::*;
use vstd::arithmetic::div_mod::lemma_fundamental_div_mod_converse;

verus! {

/// Byte `k` (0, 1 or 2) of a three-channel pixel.
pub open spec fn channel(pixel: (u8, u8, u8), k: int) -> u8 {
    if k == 0 {
        pixel.0
    } else if k == 1 {
        pixel.1
    } else {
        pixel.2
    }
}

/// Offset of pixel `(row, col)` in a packed three-byte-per-pixel buffer whose
/// rows are `width` pixels wide.
pub open spec fn pixel_offset(width: int, row: int, col: int) -> int {
    (row * width + col) * 3
}

/// Pixel `(row, col)` of a packed buffer, channels kept in buffer order.
pub open spec fn packed_pixel(buffer: Seq<u8>, width: int, row: int, col: int) -> (u8, u8, u8) {
    let i = pixel_offset(width, row, col);
    (buffer[i], buffer[i + 1], buffer[i + 2])
}

/// Pixel `(row, col)` of a packed buffer with its first and third channel
/// exchanged (red-green-blue read as blue-green-red).
pub open spec fn swapped_pixel(buffer: Seq<u8>, width: int, row: int, col: int) -> (u8, u8, u8) {
    let i = pixel_offset(width, row, col);
    (buffer[i + 2], buffer[i + 1], buffer[i])
}

/// The bytes of a row of pixels, three per pixel, in channel order.
pub open spec fn flatten_row(row: Seq<(u8, u8, u8)>) -> Seq<u8>
    decreases row.len(),
{
    if row.len() == 0 {
        Seq::empty()
    } else {
        flatten_row(row.drop_last()) + seq![row.last().0, row.last().1, row.last().2]
    }
}

/// The bytes of a matrix of pixels, row after row.
pub open spec fn flatten_rows(rows: Seq<Vec<(u8, u8, u8)>>) -> Seq<u8>
    decreases rows.len(),
{
    if rows.len() == 0 {
        Seq::empty()
    } else {
        flatten_rows(rows.drop_last()) + flatten_row(rows.last()@)
    }
}

/// Every row of `rows` holds `width` pixels.
pub open spec fn is_rectangular(rows: Seq<Vec<(u8, u8, u8)>>, width: int) -> bool {
    forall|y: int| 0 <= y < rows.len() ==> (#[trigger] rows[y])@.len() == width
}

/// Whether a `len`-byte buffer holds `height` rows of `width` three-byte
/// pixels.
pub fn packed_input_fits(len: usize, width: usize, height: usize) -> (fits: bool)
    ensures
        fits == (width * height * 3 <= len),
{
    match width.checked_mul(height) {
        Some(pixels) => match pixels.checked_mul(3) {
            Some(bytes) => bytes <= len,
            None => false,
        },
        None => {
            proof {
                assert(width * height * 3 >= width * height) by (nonlinear_arith)
                    requires
                        0 <= width * height,
                ;
            }
            false
        },
    }
}

/// Builds the `height` rows of `width` pixels held, three bytes each, in
/// `buffer`, with channels taken in buffer order (`swap == false`) or with
/// the first and third exchanged (`swap == true`).
fn pack_rows(buffer: &Vec<u8>, width: usize, height: usize, swap: bool) -> (matrix: Vec<
    Vec<(u8, u8, u8)>,
>)
    requires
        width * height * 3 <= buffer@.len(),
    ensures
        matrix@.len() == height,
        is_rectangular(matrix@, width as int),
        forall|y: int, x: int|
            0 <= y < height && 0 <= x < width ==> #[trigger] matrix@[y]@[x] == (if swap {
                swapped_pixel(buffer@, width as int, y, x)
            } else {
                packed_pixel(buffer@, width as int, y, x)
            }),
{
    let ghost w = width as int;
    let len = buffer.len();
    let mut matrix: Vec<Vec<(u8, u8, u8)>> = Vec::new();
    let mut i: usize = 0;
    let mut y: usize = 0;
    while y < height
        invariant
            y <= height,
            w == width,
            len == buffer@.len(),
            width * height * 3 <= buffer@.len(),
            i == y * w * 3,
            matrix@.len() == y,
            is_rectangular(matrix@, w),
            forall|yy: int, x: int|
                0 <= yy < y && 0 <= x < width ==> #[trigger] matrix@[yy]@[x] == (if swap {
                    swapped_pixel(buffer@, w, yy, x)
                } else {
                    packed_pixel(buffer@, w, yy, x)
                }),
        decreases height - y,
    {
        proof {
            assert(y * w + w <= height * w) by (nonlinear_arith)
                requires
                    y < height,
                    0 <= w,
            ;
            assert(width * height == height * w) by (nonlinear_arith)
                requires
                    w == width,
            ;
            assert(y * w * 3 == (y * w) * 3) by (nonlinear_arith);
        }
        let mut row: Vec<(u8, u8, u8)> = Vec::new();
        let mut x: usize = 0;
        while x < width
            invariant
                y < height,
                x <= width,
                len == buffer@.len(),
                w == width,
                width * height * 3 <= buffer@.len(),
                y * w + w <= height * w,
                width * height == height * w,
                i == (y * w + x) * 3,
                row@.len() == x,
                forall|xx: int|
                    0 <= xx < x ==> #[trigger] row@[xx] == (if swap {
                        swapped_pixel(buffer@, w, y as int, xx)
                    } else {
                        packed_pixel(buffer@, w, y as int, xx)
                    }),
            decreases width - x,
        {
            assert(i + 3 <= buffer@.len()) by (nonlinear_arith)
                requires
                    i == (y * w + x) * 3,
                    x < w,
                    y * w + w <= height * w,
                    width * height == height * w,
                    width * height * 3 <= buffer@.len(),
            ;
            let r = buffer[i];
            let g = buffer[i + 1];
            let b = buffer[i + 2];
            if swap {
                row.push((b, g, r));
            } else {
                row.push((r, g, b));
            }
            i += 3;
            x += 1;
        }
        matrix.push(row);
        y += 1;
        proof {
            assert(i == y * w * 3) by (nonlinear_arith)
                requires
                    i == ((y - 1) * w + w) * 3,
            ;
        }
    }
    matrix
}

/// Reads a packed red-green-blue buffer as `height` rows of `width` pixels,
/// each pixel `(r, g, b)` in buffer order.
pub fn rgb_to_matrix(buffer: Vec<u8>, width: usize, height: usize) -> (matrix: Vec<
    Vec<(u8, u8, u8)>,
>)
    requires
        width * height * 3 <= buffer@.len(),
    ensures
        matrix@.len() == height,
        is_rectangular(matrix@, width as int),
        forall|y: int, x: int|
            0 <= y < height && 0 <= x < width ==> #[trigger] matrix@[y]@[x] == packed_pixel(
                buffer@,
                width as int,
                y,
                x,
            ),
        forall|y: int, x: int|
            0 <= y < height && 0 <= x < width ==> #[trigger] matrix@[y]@[x] == (
                buffer@[(y * width + x) * 3],
                buffer@[(y * width + x) * 3 + 1],
                buffer@[(y * width + x) * 3 + 2],
            ),
{
    pack_rows(&buffer, width, height, false)
}

/// Reads a packed red-green-blue buffer as `height` rows of `width` pixels,
/// each pixel in blue-green-red order: red and blue are exchanged.
pub fn rgb_to_bgr_matrix(buffer: Vec<u8>, width: usize, height: usize) -> (matrix: Vec<
    Vec<(u8, u8, u8)>,
>)
    requires
        width * height * 3 <= buffer@.len(),
    ensures
        matrix@.len() == height,
        is_rectangular(matrix@, width as int),
        forall|y: int, x: int|
            0 <= y < height && 0 <= x < width ==> #[trigger] matrix@[y]@[x] == swapped_pixel(
                buffer@,
                width as int,
                y,
                x,
            ),
        forall|y: int, x: int|
            0 <= y < height && 0 <= x < width ==> #[trigger] matrix@[y]@[x] == (
                buffer@[(y * width + x) * 3 + 2],
                buffer@[(y * width + x) * 3 + 1],
                buffer@[(y * width + x) * 3],
            ),
{
    pack_rows(&buffer, width, height, true)
}

/// Lays a matrix of pixels out as bytes, row after row, three bytes per
/// pixel in channel order: the buffer from which an image matrix is built.
pub fn flatten_pixels(rows: &Vec<Vec<(u8, u8, u8)>>) -> (flat: Vec<u8>)
    ensures
        flat@ == flatten_rows(rows@),
{
    let mut flat: Vec<u8> = Vec::new();
    let mut y: usize = 0;
    while y < rows.len()
        invariant
            y <= rows@.len(),
            flat@ == flatten_rows(rows@.take(y as int)),
        decreases rows@.len() - y,
    {
        let row = &rows[y];
        let mut x: usize = 0;
        while x < row.len()
            invariant
                y < rows@.len(),
                *row == rows@[y as int],
                x <= row@.len(),
                flat@ == flatten_rows(rows@.take(y as int)) + flatten_row(row@.take(x as int)),
            decreases row@.len() - x,
        {
            let (r, g, b) = row[x];
            flat.push(r);
            flat.push(g);
            flat.push(b);
            proof {
                assert(row@.take(x + 1).drop_last() =~= row@.take(x as int));
            }
            x += 1;
        }
        proof {
            assert(row@.take(x as int) =~= row@);
            assert(rows@.take(y + 1).drop_last() =~= rows@.take(y as int));
        }
        y += 1;
    }
    proof {
        assert(rows@.take(y as int) =~= rows@);
    }
    flat
}

/// Byte `x * 3 + k` of a flattened row is channel `k` of pixel `x`.
pub proof fn lemma_flatten_row_index(row: Seq<(u8, u8, u8)>)
    ensures
        flatten_row(row).len() == row.len() * 3,
        forall|x: int, k: int|
            0 <= x < row.len() && 0 <= k < 3 ==> #[trigger] flatten_row(row)[x * 3 + k] == channel(
                row[x],
                k,
            ),
    decreases row.len(),
{
    if row.len() > 0 {
        let prefix = row.drop_last();
        lemma_flatten_row_index(prefix);
        assert forall|x: int, k: int|
            0 <= x < row.len() && 0 <= k < 3 implies #[trigger] flatten_row(row)[x * 3 + k]
            == channel(row[x], k) by {
            if x < prefix.len() {
                assert(prefix[x] == row[x]);
            }
        }
    }
}

/// Byte `(y * width + x) * 3 + k` of a flattened rectangular matrix is
/// channel `k` of pixel `(y, x)`.
pub proof fn lemma_flatten_rows_index(rows: Seq<Vec<(u8, u8, u8)>>, width: int)
    requires
        0 <= width,
        is_rectangular(rows, width),
    ensures
        flatten_rows(rows).len() == rows.len() * width * 3,
        forall|y: int, x: int, k: int|
            0 <= y < rows.len() && 0 <= x < width && 0 <= k < 3 ==> #[trigger] flatten_rows(
                rows,
            )[(y * width + x) * 3 + k] == channel(rows[y]@[x], k),
    decreases rows.len(),
{
    if rows.len() > 0 {
        let prefix = rows.drop_last();
        let n = rows.len() - 1;
        assert(is_rectangular(prefix, width)) by {
            assert forall|y: int| 0 <= y < prefix.len() implies (#[trigger] prefix[y])@.len()
                == width by {
                assert(prefix[y] == rows[y]);
            }
        }
        lemma_flatten_rows_index(prefix, width);
        lemma_flatten_row_index(rows.last()@);
        assert(rows[n]@.len() == width);
        assert(n * width * 3 + width * 3 == rows.len() * width * 3) by (nonlinear_arith)
            requires
                n == rows.len() - 1,
        ;
        assert forall|y: int, x: int, k: int|
            0 <= y < rows.len() && 0 <= x < width && 0 <= k < 3 implies #[trigger] flatten_rows(
                rows,
            )[(y * width + x) * 3 + k] == channel(rows[y]@[x], k) by {
            if y < n {
                assert((y * width + x) * 3 + k < n * width * 3) by (nonlinear_arith)
                    requires
                        0 <= y < n,
                        0 <= x < width,
                        0 <= k < 3,
                ;
                assert(prefix[y] == rows[y]);
            } else {
                assert((y * width + x) * 3 + k == n * width * 3 + (x * 3 + k)) by (nonlinear_arith)
                    requires
                        y == n,
                ;
            }
        }
    }
}

/// Laying out, row after row, the pixels that `rgb_to_matrix` reads from a
/// buffer gives back the first `width * height * 3` bytes of that buffer.
pub proof fn lemma_flatten_packed_rows(
    buffer: Seq<u8>,
    rows: Seq<Vec<(u8, u8, u8)>>,
    width: int,
    height: int,
)
    requires
        0 <= width,
        0 <= height,
        width * height * 3 <= buffer.len(),
        rows.len() == height,
        is_rectangular(rows, width),
        forall|y: int, x: int|
            0 <= y < height && 0 <= x < width ==> #[trigger] rows[y]@[x] == packed_pixel(
                buffer,
                width,
                y,
                x,
            ),
    ensures
        flatten_rows(rows) == buffer.take(width * height * 3),
{
    lemma_flatten_rows_index(rows, width);
    assert(height * width * 3 == width * height * 3) by (nonlinear_arith);
    let flat = flatten_rows(rows);
    assert forall|j: int| 0 <= j < width * height * 3 implies #[trigger] flat[j] == buffer[j] by {
        let p = j / 3;
        let k = j % 3;
        let y = p / width;
        let x = p % width;
        assert(width > 0) by (nonlinear_arith)
            requires
                0 <= j < width * height * 3,
                0 <= height,
        ;
        assert(j == p * 3 + k && 0 <= k < 3);
        assert(p == y * width + x && 0 <= x < width) by {
            vstd::arithmetic::div_mod::lemma_fundamental_div_mod(p, width);
            vstd::arithmetic::mul::lemma_mul_is_commutative(width, y);
        }
        assert(0 <= y < height) by (nonlinear_arith)
            requires
                p == y * width + x,
                0 <= x < width,
                0 <= p,
                p * 3 < width * height * 3,
                width > 0,
        ;
        assert(flat[(y * width + x) * 3 + k] == channel(rows[y]@[x], k));
    }
    assert(flat =~= buffer.take(width * height * 3));
}

/// Laying out, row after row, the pixels that `rgb_to_bgr_matrix` reads from
/// a buffer gives that buffer's first `width * height * 3` bytes with the
/// first and third byte of every pixel exchanged.
pub proof fn lemma_flatten_swapped_rows(
    buffer: Seq<u8>,
    rows: Seq<Vec<(u8, u8, u8)>>,
    width: int,
    height: int,
)
    requires
        0 <= width,
        0 <= height,
        width * height * 3 <= buffer.len(),
        rows.len() == height,
        is_rectangular(rows, width),
        forall|y: int, x: int|
            0 <= y < height && 0 <= x < width ==> #[trigger] rows[y]@[x] == swapped_pixel(
                buffer,
                width,
                y,
                x,
            ),
    ensures
        flatten_rows(rows).len() == width * height * 3,
        forall|j: int|
            0 <= j < width * height * 3 ==> #[trigger] flatten_rows(rows)[j] == buffer[j - j % 3 + (
            2 - j % 3)],
{
    lemma_flatten_rows_index(rows, width);
    assert(height * width * 3 == width * height * 3) by (nonlinear_arith);
    let flat = flatten_rows(rows);
    assert forall|j: int| 0 <= j < width * height * 3 implies #[trigger] flat[j] == buffer[j - j
        % 3 + (2 - j % 3)] by {
        let p = j / 3;
        let k = j % 3;
        let y = p / width;
        let x = p % width;
        assert(width > 0) by (nonlinear_arith)
            requires
                0 <= j < width * height * 3,
                0 <= height,
        ;
        assert(j == p * 3 + k && 0 <= k < 3);
        assert(p == y * width + x && 0 <= x < width) by {
            vstd::arithmetic::div_mod::lemma_fundamental_div_mod(p, width);
            vstd::arithmetic::mul::lemma_mul_is_commutative(width, y);
        }
        assert(0 <= y < height) by (nonlinear_arith)
            requires
                p == y * width + x,
                0 <= x < width,
                0 <= p,
                p * 3 < width * height * 3,
                width > 0,
        ;
        assert(flat[(y * width + x) * 3 + k] == channel(rows[y]@[x], k));
    }
}

/// Laying out two blocks of rows one after the other gives the first
/// block's bytes followed by the second's.
pub proof fn lemma_flatten_rows_append(a: Seq<Vec<(u8, u8, u8)>>, b: Seq<Vec<(u8, u8, u8)>>)
    ensures
        flatten_rows(a + b) == flatten_rows(a) + flatten_rows(b),
    decreases b.len(),
{
    if b.len() == 0 {
        assert(a + b =~= a);
        assert(flatten_rows(a) + flatten_rows(b) =~= flatten_rows(a));
    } else {
        lemma_flatten_rows_append(a, b.drop_last());
        assert((a + b).drop_last() =~= a + b.drop_last());
        assert((a + b).last() == b.last());
        assert(flatten_rows(a + b) =~= flatten_rows(a) + flatten_rows(b));
    }
}

} // verus!
