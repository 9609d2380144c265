use vstd::prelude::*;
use vstd::arithmetic::div_mod::lemma_div_is_ordered;
use vstd::arithmetic::div_mod::lemma_fundamental_div_mod_converse;

verus! {

/// `value` clamped into the range of a colour channel, `0..=255`.
pub open spec fn clamp_channel(value: int) -> int {
    if value < 0 {
        0
    } else if value > 255 {
        255
    } else {
        value
    }
}

/// Byte offset, in a packed YUYV (YUV 4:2:2) frame of rows `width` pixels
/// wide, of the four-byte group `Y0 U Y1 V` that carries pixels `2 * pair`
/// and `2 * pair + 1` of row `row`.
pub open spec fn yuyv_group_offset(width: int, row: int, pair: int) -> int {
    ((row * width) / 2 + pair) * 4
}

/// Integer BT.601 conversion of one YUV sample to channel `k` of RGB
/// (0 red, 1 green, 2 blue). Division by 256 rounds towards minus infinity,
/// as an arithmetic shift right by eight does.
pub open spec fn yuv_to_channel(luma: int, u: int, v: int, k: int) -> int {
    let c = luma - 16;
    let d = u - 128;
    let e = v - 128;
    if k == 0 {
        clamp_channel((298 * c + 409 * e + 128) / 256)
    } else if k == 1 {
        clamp_channel((298 * c - 100 * d - 208 * e + 128) / 256)
    } else {
        clamp_channel((298 * c + 516 * d + 128) / 256)
    }
}

/// Byte `j` of the packed RGB image (three bytes per pixel, red first, rows
/// of `width` pixels) converted from the YUYV frame `yuv`. A pixel whose
/// column has no YUYV group (the last column of an odd-width row) is black.
pub open spec fn yuyv_to_rgb_byte(yuv: Seq<u8>, width: int, j: int) -> int {
    let pixel = j / 3;
    let row = pixel / width;
    let col = pixel % width;
    if col / 2 < width / 2 {
        let g = yuyv_group_offset(width, row, col / 2);
        let luma = if col % 2 == 0 {
            yuv[g]
        } else {
            yuv[g + 2]
        };
        yuv_to_channel(luma as int, yuv[g + 1] as int, yuv[g + 3] as int, j % 3)
    } else {
        0
    }
}

/// A YUYV input of `len` bytes holds every group that a `width` by `height`
/// conversion reads.
pub open spec fn yuyv_frame_fits(len: int, width: int, height: int) -> bool {
    height == 0 || width / 2 == 0 || yuyv_group_offset(width, height - 1, width / 2 - 1) + 4 <= len
}

/// Whether `yuv422_to_rgb` can convert a `len`-byte YUYV input to a `width`
/// by `height` image: the output's size fits in memory and the input holds
/// every group the conversion reads.
pub fn yuyv_input_fits(len: usize, width: usize, height: usize) -> (fits: bool)
    ensures
        fits == (width * height * 3 <= usize::MAX && yuyv_frame_fits(
            len as int,
            width as int,
            height as int,
        )),
{
    let pixels = match width.checked_mul(height) {
        Some(p) => p,
        None => {
            proof {
                assert(width * height * 3 >= width * height) by (nonlinear_arith)
                    requires
                        0 <= width * height,
                ;
            }
            return false;
        },
    };
    if pixels.checked_mul(3).is_none() {
        return false;
    }
    let half = width / 2;
    if height == 0 || half == 0 {
        return true;
    }
    proof {
        assert((height - 1) * width <= width * height) by (nonlinear_arith)
            requires
                1 <= height,
        ;
    }
    let row_start = (height - 1) * width;
    let groups = row_start / 2 + half;
    match groups.checked_mul(4) {
        Some(end) => end <= len,
        None => false,
    }
}

/// Clamps a computed channel value into `0..=255`.
pub fn clip(value: i32) -> (r: i32)
    ensures
        r == clamp_channel(value as int),
        0 <= value <= 255 ==> r == value,
        value < 0 ==> r == 0,
        value > 255 ==> r == 255,
{
    if value < 0 {
        0
    } else if value > 255 {
        255
    } else {
        value
    }
}

/// Clamping an arithmetic shift right by eight is clamping the floor of a
/// division by 256.
proof fn lemma_shift_then_clamp(x: i32)
    ensures
        clamp_channel((x >> 8) as int) == clamp_channel(x as int / 256),
{
    assert(x < 0 ==> (x >> 8) < 0) by (bit_vector);
    assert(x >= 0 ==> (x >> 8) == x / 256) by (bit_vector);
}

/// Where pixel `(row, col)` and its channel `k` land in a packed image.
proof fn lemma_pixel_index(width: int, row: int, col: int, k: int)
    requires
        0 <= row,
        0 <= col < width,
        0 <= k < 3,
    ensures
        ((row * width + col) * 3 + k) / 3 == row * width + col,
        ((row * width + col) * 3 + k) % 3 == k,
        (row * width + col) / width == row,
        (row * width + col) % width == col,
{
    let p = row * width + col;
    lemma_fundamental_div_mod_converse(p * 3 + k, 3, p, k);
    lemma_fundamental_div_mod_converse(p, width, row, col);
}

/// Rows before `height` stay inside a `width` by `height` image.
proof fn lemma_row_bounds(width: int, row: int, height: int)
    requires
        0 <= row < height,
        0 <= width,
    ensures
        row * width + width <= height * width,
        row * width <= (height - 1) * width,
        (row * width) / 2 <= ((height - 1) * width) / 2,
        0 <= row * width,
{
    assert(row * width + width <= height * width) by (nonlinear_arith)
        requires
            0 <= row < height,
            0 <= width,
    ;
    assert(row * width <= (height - 1) * width) by (nonlinear_arith)
        requires
            0 <= row < height,
            0 <= width,
    ;
    assert(0 <= row * width) by (nonlinear_arith)
        requires
            0 <= row,
            0 <= width,
    ;
    lemma_div_is_ordered(row * width, (height - 1) * width, 2);
}

/// Converts a packed YUYV (YUV 4:2:2) frame of `width` by `height` pixels to
/// packed RGB, three bytes per pixel, with the integer BT.601 formulas.
#[verifier::rlimit(40)]
pub fn yuv422_to_rgb(yuv_buffer: &[u8], width: usize, height: usize) -> (rgb: Vec<u8>)
    requires
        width * height * 3 <= usize::MAX,
        yuyv_frame_fits(yuv_buffer@.len() as int, width as int, height as int),
    ensures
        rgb@.len() == width * height * 3,
        forall|j: int|
            0 <= j < rgb@.len() ==> #[trigger] rgb@[j] == yuyv_to_rgb_byte(
                yuv_buffer@,
                width as int,
                j,
            ),
{
    let total = width * height * 3;
    let mut rgb_buffer: Vec<u8> = Vec::new();
    let mut n: usize = 0;
    while n < total
        invariant
            n <= total,
            rgb_buffer@.len() == n,
            forall|j: int| 0 <= j < n ==> #[trigger] rgb_buffer@[j] == 0,
        decreases total - n,
    {
        rgb_buffer.push(0u8);
        n += 1;
    }
    let half = width / 2;
    let ghost w = width as int;
    let ghost h = height as int;
    let mut y: usize = 0;
    while y < height
        invariant
            y <= height,
            half == width / 2,
            total == width * height * 3,
            width * height * 3 <= usize::MAX,
            yuyv_frame_fits(yuv_buffer@.len() as int, w, h),
            w == width,
            h == height,
            rgb_buffer@.len() == total,
            forall|j: int|
                0 <= j < y * w * 3 ==> #[trigger] rgb_buffer@[j] == yuyv_to_rgb_byte(
                    yuv_buffer@,
                    w,
                    j,
                ),
            forall|j: int| y * w * 3 <= j < total ==> #[trigger] rgb_buffer@[j] == 0,
        decreases height - y,
    {
        proof {
            lemma_row_bounds(w, y as int, h);
            assert(width * height <= width * height * 3) by (nonlinear_arith)
                requires
                    0 <= width,
                    0 <= height,
            ;
            assert(y * w * 3 == (y * w) * 3) by (nonlinear_arith);
            assert(w * h == h * w) by (nonlinear_arith);
        }
        let mut x: usize = 0;
        while x < half
            invariant
                y < height,
                x <= half,
                half == width / 2,
                total == width * height * 3,
                width * height * 3 <= usize::MAX,
                yuyv_frame_fits(yuv_buffer@.len() as int, w, h),
                w == width,
                h == height,
                y * w + w <= h * w,
                (y * w) / 2 <= ((h - 1) * w) / 2,
                0 <= y * w,
                w * h == h * w,
                rgb_buffer@.len() == total,
                forall|j: int|
                    0 <= j < (y * w + 2 * x) * 3 ==> #[trigger] rgb_buffer@[j] == yuyv_to_rgb_byte(
                        yuv_buffer@,
                        w,
                        j,
                    ),
                forall|j: int| (y * w + 2 * x) * 3 <= j < total ==> #[trigger] rgb_buffer@[j] == 0,
            decreases half - x,
        {
            let row_start = y * width;
            let i = (row_start / 2 + x) * 4;
            assert(i + 4 <= yuv_buffer@.len());
            let y0 = yuv_buffer[i] as i32;
            let u = yuv_buffer[i + 1] as i32;
            let y1 = yuv_buffer[i + 2] as i32;
            let v = yuv_buffer[i + 3] as i32;

            let c0 = y0 - 16;
            let c1 = y1 - 16;
            let d = u - 128;
            let e = v - 128;

            let sr0 = 298 * c0 + 409 * e + 128;
            let sg0 = 298 * c0 - 100 * d - 208 * e + 128;
            let sb0 = 298 * c0 + 516 * d + 128;
            let sr1 = 298 * c1 + 409 * e + 128;
            let sg1 = 298 * c1 - 100 * d - 208 * e + 128;
            let sb1 = 298 * c1 + 516 * d + 128;

            let r0 = clip(sr0 >> 8);
            let g0 = clip(sg0 >> 8);
            let b0 = clip(sb0 >> 8);

            let r1 = clip(sr1 >> 8);
            let g1 = clip(sg1 >> 8);
            let b1 = clip(sb1 >> 8);

            proof {
                lemma_shift_then_clamp(sr0);
                lemma_shift_then_clamp(sg0);
                lemma_shift_then_clamp(sb0);
                lemma_shift_then_clamp(sr1);
                lemma_shift_then_clamp(sg1);
                lemma_shift_then_clamp(sb1);
            }

            let p = row_start + x * 2;
            let ghost old_rgb = rgb_buffer@;
            rgb_buffer[p * 3] = r0 as u8;
            rgb_buffer[p * 3 + 1] = g0 as u8;
            rgb_buffer[p * 3 + 2] = b0 as u8;
            rgb_buffer[(p + 1) * 3] = r1 as u8;
            rgb_buffer[(p + 1) * 3 + 1] = g1 as u8;
            rgb_buffer[(p + 1) * 3 + 2] = b1 as u8;

            proof {
                let col0 = 2 * x as int;
                let col1 = 2 * x as int + 1;
                assert(col1 < w);
                assert(col0 / 2 == x && col0 % 2 == 0);
                assert(col1 / 2 == x && col1 % 2 == 1);
                assert(yuyv_group_offset(w, y as int, x as int) == i);
                assert forall|k: int| 0 <= k < 3 implies #[trigger] rgb_buffer@[(p * 3) + k]
                    == yuyv_to_rgb_byte(yuv_buffer@, w, (p * 3) + k) by {
                    lemma_pixel_index(w, y as int, col0, k);
                }
                assert forall|k: int| 0 <= k < 3 implies #[trigger] rgb_buffer@[((p + 1) * 3) + k]
                    == yuyv_to_rgb_byte(yuv_buffer@, w, ((p + 1) * 3) + k) by {
                    lemma_pixel_index(w, y as int, col1, k);
                }
                assert forall|j: int|
                    0 <= j < (y * w + 2 * (x + 1)) * 3 implies #[trigger] rgb_buffer@[j]
                    == yuyv_to_rgb_byte(yuv_buffer@, w, j) by {
                    if j >= p * 3 + 3 {
                        assert(rgb_buffer@[((p + 1) * 3) + (j - (p + 1) * 3)] == yuyv_to_rgb_byte(
                            yuv_buffer@, w, ((p + 1) * 3) + (j - (p + 1) * 3)));
                    } else if j >= p * 3 {
                        assert(rgb_buffer@[(p * 3) + (j - p * 3)] == yuyv_to_rgb_byte(
                            yuv_buffer@, w, (p * 3) + (j - p * 3)));
                    } else {
                        assert(rgb_buffer@[j] == old_rgb[j]);
                    }
                }
            }
            x += 1;
        }
        proof {
            assert((y + 1) * w * 3 == (y * w + w) * 3) by (nonlinear_arith);
            assert forall|j: int|
                0 <= j < (y + 1) * w * 3 implies #[trigger] rgb_buffer@[j] == yuyv_to_rgb_byte(
                yuv_buffer@, w, j) by {
                if j >= (y * w + 2 * half) * 3 {
                    // the last column of an odd-width row has no YUYV group
                    let k = j - (y * w + (w - 1)) * 3;
                    assert(0 <= k < 3);
                    lemma_pixel_index(w, y as int, w - 1, k);
                }
            }
        }
        y += 1;
    }
    proof {
        assert(y * w * 3 == total) by (nonlinear_arith)
            requires y == h, w == width, h == height, total == width * height * 3;
    }
    rgb_buffer
}

/// A sample with neutral chroma (`u == v == 128`) converts to a gray: its
/// three channels are equal.
pub proof fn lemma_neutral_chroma_is_gray(luma: int)
    ensures
        yuv_to_channel(luma, 128, 128, 0) == yuv_to_channel(luma, 128, 128, 1),
        yuv_to_channel(luma, 128, 128, 1) == yuv_to_channel(luma, 128, 128, 2),
{
}

/// Clamping keeps order.
proof fn lemma_clamp_monotone(a: int, b: int)
    requires
        a <= b,
    ensures
        clamp_channel(a) <= clamp_channel(b),
{
}

/// A brighter luma gives no darker channel.
pub proof fn lemma_luma_monotone(luma1: int, luma2: int, u: int, v: int)
    requires
        luma1 <= luma2,
    ensures
        forall|k: int| 0 <= k < 3 ==> #[trigger] yuv_to_channel(luma1, u, v, k) <= yuv_to_channel(
            luma2,
            u,
            v,
            k,
        ),
{
    let (c1, c2, d, e) = (luma1 - 16, luma2 - 16, u - 128, v - 128);
    lemma_div_is_ordered(298 * c1 + 409 * e + 128, 298 * c2 + 409 * e + 128, 256);
    lemma_div_is_ordered(298 * c1 - 100 * d - 208 * e + 128, 298 * c2 - 100 * d - 208 * e + 128, 256);
    lemma_div_is_ordered(298 * c1 + 516 * d + 128, 298 * c2 + 516 * d + 128, 256);
    lemma_clamp_monotone((298 * c1 + 409 * e + 128) / 256, (298 * c2 + 409 * e + 128) / 256);
    lemma_clamp_monotone(
        (298 * c1 - 100 * d - 208 * e + 128) / 256,
        (298 * c2 - 100 * d - 208 * e + 128) / 256,
    );
    lemma_clamp_monotone((298 * c1 + 516 * d + 128) / 256, (298 * c2 + 516 * d + 128) / 256);
}

/// A larger U (blue-difference) leaves red as it is, gives no more green
/// and no less blue.
pub proof fn lemma_u_monotone(luma: int, u1: int, u2: int, v: int)
    requires
        u1 <= u2,
    ensures
        yuv_to_channel(luma, u1, v, 0) == yuv_to_channel(luma, u2, v, 0),
        yuv_to_channel(luma, u1, v, 1) >= yuv_to_channel(luma, u2, v, 1),
        yuv_to_channel(luma, u1, v, 2) <= yuv_to_channel(luma, u2, v, 2),
{
    let (c, d1, d2, e) = (luma - 16, u1 - 128, u2 - 128, v - 128);
    lemma_div_is_ordered(298 * c - 100 * d2 - 208 * e + 128, 298 * c - 100 * d1 - 208 * e + 128, 256);
    lemma_div_is_ordered(298 * c + 516 * d1 + 128, 298 * c + 516 * d2 + 128, 256);
    lemma_clamp_monotone(
        (298 * c - 100 * d2 - 208 * e + 128) / 256,
        (298 * c - 100 * d1 - 208 * e + 128) / 256,
    );
    lemma_clamp_monotone((298 * c + 516 * d1 + 128) / 256, (298 * c + 516 * d2 + 128) / 256);
}

/// A larger V (red-difference) gives no less red, no more green, and leaves
/// blue as it is.
pub proof fn lemma_v_monotone(luma: int, u: int, v1: int, v2: int)
    requires
        v1 <= v2,
    ensures
        yuv_to_channel(luma, u, v1, 0) <= yuv_to_channel(luma, u, v2, 0),
        yuv_to_channel(luma, u, v1, 1) >= yuv_to_channel(luma, u, v2, 1),
        yuv_to_channel(luma, u, v1, 2) == yuv_to_channel(luma, u, v2, 2),
{
    let (c, d, e1, e2) = (luma - 16, u - 128, v1 - 128, v2 - 128);
    lemma_div_is_ordered(298 * c + 409 * e1 + 128, 298 * c + 409 * e2 + 128, 256);
    lemma_div_is_ordered(298 * c - 100 * d - 208 * e2 + 128, 298 * c - 100 * d - 208 * e1 + 128, 256);
    lemma_clamp_monotone((298 * c + 409 * e1 + 128) / 256, (298 * c + 409 * e2 + 128) / 256);
    lemma_clamp_monotone(
        (298 * c - 100 * d - 208 * e2 + 128) / 256,
        (298 * c - 100 * d - 208 * e1 + 128) / 256,
    );
}

/// The two pixels of a YUYV group share its U and V, so when the group's two
/// luma bytes are equal the two pixels come out equal.
pub proof fn lemma_pair_with_equal_luma(yuv: Seq<u8>, width: int, row: int, pair: int)
    requires
        0 <= row,
        0 <= pair < width / 2,
        yuv[yuyv_group_offset(width, row, pair)] == yuv[yuyv_group_offset(width, row, pair) + 2],
    ensures
        forall|k: int|
            0 <= k < 3 ==> #[trigger] yuyv_to_rgb_byte(yuv, width, (row * width + 2 * pair) * 3 + k)
                == yuyv_to_rgb_byte(yuv, width, (row * width + 2 * pair + 1) * 3 + k),
{
    assert forall|k: int| 0 <= k < 3 implies #[trigger] yuyv_to_rgb_byte(
        yuv,
        width,
        (row * width + 2 * pair) * 3 + k,
    ) == yuyv_to_rgb_byte(yuv, width, (row * width + 2 * pair + 1) * 3 + k) by {
        lemma_pixel_index(width, row, 2 * pair, k);
        lemma_pixel_index(width, row, 2 * pair + 1, k);
        assert((row * width + 2 * pair + 1) * 3 + k == (row * width + (2 * pair + 1)) * 3 + k);
    }
}

/// Byte `j` of the converted image reads only the four bytes of the YUYV
/// group of its pixel: inputs that agree there give the same byte.
pub proof fn lemma_rgb_byte_reads_its_group(a: Seq<u8>, b: Seq<u8>, width: int, j: int)
    requires
        0 <= j,
        0 < width,
        (j / 3) % width / 2 < width / 2 ==> ({
            let g = yuyv_group_offset(width, (j / 3) / width, (j / 3) % width / 2);
            &&& g + 4 <= a.len()
            &&& g + 4 <= b.len()
            &&& a.subrange(g, g + 4) == b.subrange(g, g + 4)
        }),
    ensures
        yuyv_to_rgb_byte(a, width, j) == yuyv_to_rgb_byte(b, width, j),
{
    let pixel = j / 3;
    let row = pixel / width;
    let col = pixel % width;
    if col / 2 < width / 2 {
        let g = yuyv_group_offset(width, row, col / 2);
        assert(0 <= row * width) by (nonlinear_arith)
            requires
                0 <= row,
                0 < width,
        ;
        assert(a[g + 0] == a.subrange(g, g + 4)[0]);
        assert(a[g + 1] == a.subrange(g, g + 4)[1]);
        assert(a[g + 2] == a.subrange(g, g + 4)[2]);
        assert(a[g + 3] == a.subrange(g, g + 4)[3]);
        assert(b[g + 0] == b.subrange(g, g + 4)[0]);
        assert(b[g + 1] == b.subrange(g, g + 4)[1]);
        assert(b[g + 2] == b.subrange(g, g + 4)[2]);
        assert(b[g + 3] == b.subrange(g, g + 4)[3]);
    }
}

/// Offset of the YUYV group that byte `t` of the converted image reads.
pub open spec fn rgb_byte_group(width: int, t: int) -> int {
    yuyv_group_offset(width, (t / 3) / width, ((t / 3) % width) / 2)
}

/// Whether byte `t` of the converted image reads a YUYV group at all (the
/// last column of an odd-width row reads none).
pub open spec fn rgb_byte_has_group(width: int, t: int) -> bool {
    ((t / 3) % width) / 2 < width / 2
}

/// Where, within its group, the luma byte of the pixel of byte `t` lies:
/// `Y0` (offset 0) for an even column, `Y1` (offset 2) for an odd one.
pub open spec fn rgb_byte_luma_offset(width: int, t: int) -> int {
    if ((t / 3) % width) % 2 == 0 {
        0
    } else {
        2
    }
}

/// The group that byte `t` of a `width` by `height` image reads lies inside
/// any input of `n` bytes that fits the frame.
proof fn lemma_byte_group_in_frame(width: int, height: int, n: int, t: int)
    requires
        0 <= width,
        0 <= height,
        yuyv_frame_fits(n, width, height),
        0 <= t < width * height * 3,
    ensures
        width > 0,
        rgb_byte_has_group(width, t) ==> 0 <= rgb_byte_group(width, t) && rgb_byte_group(width, t)
            + 4 <= n,
{
    let pixel = t / 3;
    let row = pixel / width;
    let col = pixel % width;
    assert(width > 0) by (nonlinear_arith)
        requires
            0 <= t < width * height * 3,
            0 <= height,
    ;
    assert(pixel == row * width + col && 0 <= col < width) by {
        vstd::arithmetic::div_mod::lemma_fundamental_div_mod(pixel, width);
        vstd::arithmetic::mul::lemma_mul_is_commutative(width, row);
    }
    assert(0 <= row < height) by (nonlinear_arith)
        requires
            pixel == row * width + col,
            0 <= col < width,
            0 <= pixel,
            pixel * 3 <= t,
            t < width * height * 3,
            width > 0,
    ;
    if col / 2 < width / 2 {
        lemma_row_bounds(width, row, height);
    }
}

/// The groups that a `width` by `height` conversion reads all lie within
/// the first `n` bytes whenever `n` bytes fit the frame, so the bytes after
/// them do not change the result.
pub proof fn lemma_ignores_bytes_past_frame(a: Seq<u8>, b: Seq<u8>, width: int, height: int, n: int)
    requires
        0 <= width,
        0 <= height,
        yuyv_frame_fits(n, width, height),
        n <= a.len(),
        n <= b.len(),
        a.take(n) == b.take(n),
    ensures
        forall|j: int|
            0 <= j < width * height * 3 ==> #[trigger] yuyv_to_rgb_byte(a, width, j)
                == yuyv_to_rgb_byte(b, width, j),
{
    assert forall|j: int| 0 <= j < width * height * 3 implies #[trigger] yuyv_to_rgb_byte(
        a,
        width,
        j,
    ) == yuyv_to_rgb_byte(b, width, j) by {
        lemma_byte_group_in_frame(width, height, n, j);
        if rgb_byte_has_group(width, j) {
            let g = rgb_byte_group(width, j);
            assert(g + 4 <= n);
            assert(a.subrange(g, g + 4) =~= b.subrange(g, g + 4)) by {
                assert forall|t: int| 0 <= t < 4 implies #[trigger] a.subrange(g, g + 4)[t] == b.subrange(
                    g,
                    g + 4,
                )[t] by {
                    assert(0 <= g + t < n);
                    assert(a.take(n)[g + t] == a[g + t]);
                    assert(b.take(n)[g + t] == b[g + t]);
                    assert(a.take(n)[g + t] == b.take(n)[g + t]);
                }
            }
        }
        lemma_rgb_byte_reads_its_group(a, b, width, j);
    }
}

/// For an even width the frame a conversion reads is exactly the
/// `2 * width * height` bytes of `width * height` YUYV pixels.
pub proof fn lemma_even_width_frame_size(len: int, width: int, height: int)
    requires
        0 <= width,
        0 < height,
        width % 2 == 0,
    ensures
        yuyv_frame_fits(len, width, height) <==> (width == 0 || 2 * width * height <= len),
{
    let m = width / 2;
    assert(width == 2 * m);
    assert((height - 1) * width == ((height - 1) * m) * 2) by (nonlinear_arith)
        requires
            width == 2 * m,
    ;
    lemma_fundamental_div_mod_converse((height - 1) * width, 2, (height - 1) * m, 0);
    assert((((height - 1) * m) + m) * 4 == 2 * width * height) by (nonlinear_arith)
        requires
            width == 2 * m,
    ;
}

/// For an even width, YUYV inputs that agree on their first
/// `2 * width * height` bytes (the frame's own bytes) convert to the same
/// image: what follows the frame is ignored.
pub proof fn lemma_even_width_ignores_tail(a: Seq<u8>, b: Seq<u8>, width: int, height: int)
    requires
        0 <= width,
        0 <= height,
        width % 2 == 0,
        2 * width * height <= a.len(),
        2 * width * height <= b.len(),
        a.take(2 * width * height) == b.take(2 * width * height),
    ensures
        forall|j: int|
            0 <= j < width * height * 3 ==> #[trigger] yuyv_to_rgb_byte(a, width, j)
                == yuyv_to_rgb_byte(b, width, j),
{
    if height > 0 {
        lemma_even_width_frame_size(2 * width * height, width, height);
    }
    lemma_ignores_bytes_past_frame(a, b, width, height, 2 * width * height);
}

/// Changing one byte `j` of a YUYV input to a value no smaller moves only
/// the two pixels of the group that holds it, in the direction of the
/// conversion's coefficients: every other output byte stays as it was; a
/// larger luma brightens every channel of its own pixel and leaves the
/// other pixel of the group alone; a larger U keeps red, lowers or keeps
/// green and raises or keeps blue of both pixels; a larger V raises or
/// keeps red, lowers or keeps green and keeps blue of both pixels.
pub proof fn lemma_single_byte_change(
    before: Seq<u8>,
    after: Seq<u8>,
    width: int,
    height: int,
    j: int,
)
    requires
        0 <= width,
        0 <= height,
        yuyv_frame_fits(before.len() as int, width, height),
        before.len() == after.len(),
        0 <= j < before.len(),
        before[j] <= after[j],
        forall|i: int| 0 <= i < before.len() && i != j ==> before[i] == after[i],
    ensures
        forall|t: int|
            #![trigger yuyv_to_rgb_byte(before, width, t)]
            0 <= t < width * height * 3 ==> {
                let g = rgb_byte_group(width, t);
                let r1 = yuyv_to_rgb_byte(before, width, t);
                let r2 = yuyv_to_rgb_byte(after, width, t);
                let k = t % 3;
                &&& !rgb_byte_has_group(width, t) || j < g || g + 4 <= j ==> r1 == r2
                &&& rgb_byte_has_group(width, t) && j == g + rgb_byte_luma_offset(width, t) ==> r1
                    <= r2
                &&& rgb_byte_has_group(width, t) && (j == g || j == g + 2) && j != g
                    + rgb_byte_luma_offset(width, t) ==> r1 == r2
                &&& rgb_byte_has_group(width, t) && j == g + 1 ==> (k == 0 ==> r1 == r2) && (k == 1
                    ==> r1 >= r2) && (k == 2 ==> r1 <= r2)
                &&& rgb_byte_has_group(width, t) && j == g + 3 ==> (k == 0 ==> r1 <= r2) && (k == 1
                    ==> r1 >= r2) && (k == 2 ==> r1 == r2)
            },
{
    assert forall|t: int|
        #![trigger yuyv_to_rgb_byte(before, width, t)]
        0 <= t < width * height * 3 implies {
        let g = rgb_byte_group(width, t);
        let r1 = yuyv_to_rgb_byte(before, width, t);
        let r2 = yuyv_to_rgb_byte(after, width, t);
        let k = t % 3;
        &&& !rgb_byte_has_group(width, t) || j < g || g + 4 <= j ==> r1 == r2
        &&& rgb_byte_has_group(width, t) && j == g + rgb_byte_luma_offset(width, t) ==> r1 <= r2
        &&& rgb_byte_has_group(width, t) && (j == g || j == g + 2) && j != g
            + rgb_byte_luma_offset(width, t) ==> r1 == r2
        &&& rgb_byte_has_group(width, t) && j == g + 1 ==> (k == 0 ==> r1 == r2) && (k == 1 ==> r1
            >= r2) && (k == 2 ==> r1 <= r2)
        &&& rgb_byte_has_group(width, t) && j == g + 3 ==> (k == 0 ==> r1 <= r2) && (k == 1 ==> r1
            >= r2) && (k == 2 ==> r1 == r2)
    } by {
        lemma_byte_group_in_frame(width, height, before.len() as int, t);
        if rgb_byte_has_group(width, t) {
            let g = rgb_byte_group(width, t);
            let lo = rgb_byte_luma_offset(width, t);
            let k = t % 3;
            let (l1, u1, v1) = (before[g + lo] as int, before[g + 1] as int, before[g + 3] as int);
            let (l2, u2, v2) = (after[g + lo] as int, after[g + 1] as int, after[g + 3] as int);
            assert(yuyv_to_rgb_byte(before, width, t) == yuv_to_channel(l1, u1, v1, k));
            assert(yuyv_to_rgb_byte(after, width, t) == yuv_to_channel(l2, u2, v2, k));
            if j == g + lo {
                lemma_luma_monotone(l1, l2, u1, v1);
            } else if j == g + 1 {
                lemma_u_monotone(l1, u1, u2, v1);
            } else if j == g + 3 {
                lemma_v_monotone(l1, u1, v1, v2);
            }
        }
    }
}

/// Clamping leaves a value of the channel range as it is, and saturates
/// below it at 0 and above it at 255.
pub proof fn lemma_clamp_channel_saturates(value: int)
    ensures
        0 <= value <= 255 ==> clamp_channel(value) == value,
        value < 0 ==> clamp_channel(value) == 0,
        value > 255 ==> clamp_channel(value) == 255,
{
}

/// The three channels of a YUV sample `(y, u, v)` are the integer BT.601
/// values `(298 (y - 16) + 409 (v - 128) + 128) / 256` (red),
/// `(298 (y - 16) - 100 (u - 128) - 208 (v - 128) + 128) / 256` (green) and
/// `(298 (y - 16) + 516 (u - 128) + 128) / 256` (blue), divisions rounding
/// down, each kept as it is when within `0..=255` and saturated outside.
pub proof fn lemma_channel_values(luma: int, u: int, v: int)
    ensures
        ({
            let red = (298 * (luma - 16) + 409 * (v - 128) + 128) / 256;
            let green = (298 * (luma - 16) - 100 * (u - 128) - 208 * (v - 128) + 128) / 256;
            let blue = (298 * (luma - 16) + 516 * (u - 128) + 128) / 256;
            &&& 0 <= red <= 255 ==> yuv_to_channel(luma, u, v, 0) == red
            &&& red < 0 ==> yuv_to_channel(luma, u, v, 0) == 0
            &&& red > 255 ==> yuv_to_channel(luma, u, v, 0) == 255
            &&& 0 <= green <= 255 ==> yuv_to_channel(luma, u, v, 1) == green
            &&& green < 0 ==> yuv_to_channel(luma, u, v, 1) == 0
            &&& green > 255 ==> yuv_to_channel(luma, u, v, 1) == 255
            &&& 0 <= blue <= 255 ==> yuv_to_channel(luma, u, v, 2) == blue
            &&& blue < 0 ==> yuv_to_channel(luma, u, v, 2) == 0
            &&& blue > 255 ==> yuv_to_channel(luma, u, v, 2) == 255
        }),
{
}

/// Pixels `2 * pair` and `2 * pair + 1` of row `row` are converted from the
/// YUYV group `Y0 U Y1 V` at input byte `((row * width) / 2 + pair) * 4`:
/// the first from `Y0`, the second from `Y1`, both with that group's `U`
/// and `V`.
pub proof fn lemma_pair_converts_its_group(yuv: Seq<u8>, width: int, row: int, pair: int, k: int)
    requires
        0 <= row,
        0 <= pair < width / 2,
        0 <= k < 3,
    ensures
        ({
            let g = ((row * width) / 2 + pair) * 4;
            &&& yuyv_to_rgb_byte(yuv, width, (row * width + 2 * pair) * 3 + k) == yuv_to_channel(
                yuv[g] as int,
                yuv[g + 1] as int,
                yuv[g + 3] as int,
                k,
            )
            &&& yuyv_to_rgb_byte(yuv, width, (row * width + 2 * pair + 1) * 3 + k)
                == yuv_to_channel(yuv[g + 2] as int, yuv[g + 1] as int, yuv[g + 3] as int, k)
        }),
{
    lemma_pixel_index(width, row, 2 * pair, k);
    lemma_pixel_index(width, row, 2 * pair + 1, k);
    assert((row * width + 2 * pair + 1) * 3 + k == (row * width + (2 * pair + 1)) * 3 + k);
}

/// In a row of odd width the last pixel has no YUYV group and comes out
/// black.
pub proof fn lemma_odd_width_last_pixel_black(yuv: Seq<u8>, width: int, row: int, k: int)
    requires
        0 <= row,
        0 < width,
        width % 2 == 1,
        0 <= k < 3,
    ensures
        yuyv_to_rgb_byte(yuv, width, (row * width + width - 1) * 3 + k) == 0,
{
    lemma_pixel_index(width, row, width - 1, k);
}

} // verus!
