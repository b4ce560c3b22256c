//! Verified pixel-format conversions.
//!
//! The decoder yields planar YUV 4:2:0; presentation wants RGBA. The
//! JPEG fallback encoder wants RGB without alpha. Capture sources hand
//! over BGRA rows bottom-up. All three conversions are pure byte
//! arithmetic and fully verified.

use vstd::prelude::*;

verus! {

/// One decoded picture in planar YUV 4:2:0 layout: a full-resolution
/// luma plane and quarter-resolution chroma planes, each with its row
/// stride.
pub struct YuvFrame {
    pub y: Vec<u8>,
    pub u: Vec<u8>,
    pub v: Vec<u8>,
    pub width: usize,
    pub height: usize,
    pub y_stride: usize,
    pub uv_stride: usize,
}

/// Whether the planes really hold a picture of the declared geometry.
pub open spec fn yuv_well_formed(f: &YuvFrame) -> bool {
    &&& 0 < f.width <= 0x4000
    &&& 0 < f.height <= 0x2000
    &&& f.width <= f.y_stride
    &&& (f.width + 1) / 2 <= f.uv_stride
    &&& f.y_stride <= 0x10000
    &&& f.uv_stride <= 0x10000
    &&& f.height * f.y_stride <= f.y@.len()
    &&& ((f.height - 1) / 2) * f.uv_stride + (f.width + 1) / 2 <= f.u@.len()
    &&& ((f.height - 1) / 2) * f.uv_stride + (f.width + 1) / 2 <= f.v@.len()
}

/// Clamp an intermediate value to one byte.
pub open spec fn clamp_byte(x: int) -> u8 {
    if x < 0 {
        0u8
    } else if x > 255 {
        255u8
    } else {
        x as u8
    }
}

/// BT.601 conversion of one YUV sample triple, fixed-point with 8
/// fractional bits.
pub open spec fn yuv_red(yv: u8, vv: u8) -> u8 {
    clamp_byte((298 * (yv - 16) + 409 * (vv - 128) + 128) / 256)
}

pub open spec fn yuv_green(yv: u8, uv: u8, vv: u8) -> u8 {
    clamp_byte((298 * (yv - 16) - 100 * (uv - 128) - 208 * (vv - 128) + 128) / 256)
}

pub open spec fn yuv_blue(yv: u8, uv: u8) -> u8 {
    clamp_byte((298 * (yv - 16) + 516 * (uv - 128) + 128) / 256)
}

/// Divide a fixed-point intermediate by 256, rounding toward negative
/// infinity, and clamp to a byte.
fn scale_clamp(t: i32) -> (r: u8)
    requires
        -0x10_0000 <= t <= 0x10_0000,
    ensures
        r == clamp_byte(t as int / 256),
{
    if t < 0 {
        proof {
            assert(t as int / 256 < 0) by (nonlinear_arith)
                requires
                    t < 0,
            ;
        }
        0
    } else {
        let q = (t as u32) / 256;
        if q > 255 {
            255
        } else {
            q as u8
        }
    }
}

/// Convert one pixel's samples to RGB.
fn yuv_pixel(yv: u8, uv: u8, vv: u8) -> (r: (u8, u8, u8))
    ensures
        r.0 == yuv_red(yv, vv),
        r.1 == yuv_green(yv, uv, vv),
        r.2 == yuv_blue(yv, uv),
{
    let c: i32 = yv as i32 - 16;
    let d: i32 = uv as i32 - 128;
    let e: i32 = vv as i32 - 128;
    let red = scale_clamp(298 * c + 409 * e + 128);
    let green = scale_clamp(298 * c - 100 * d - 208 * e + 128);
    let blue = scale_clamp(298 * c + 516 * d + 128);
    (red, green, blue)
}

/// The output bytes of one converted pixel stand at their place in
/// the RGBA buffer.
pub open spec fn yuv_pixel_ok(
    out: Seq<u8>,
    y: Seq<u8>,
    u: Seq<u8>,
    v: Seq<u8>,
    w: int,
    ys: int,
    us: int,
    row: int,
    col: int,
) -> bool {
    let yv = y[row * ys + col];
    let uv = u[(row / 2) * us + col / 2];
    let vv = v[(row / 2) * us + col / 2];
    &&& out[4 * (row * w + col)] == yuv_red(yv, vv)
    &&& out[4 * (row * w + col) + 1] == yuv_green(yv, uv, vv)
    &&& out[4 * (row * w + col) + 2] == yuv_blue(yv, uv)
    &&& out[4 * (row * w + col) + 3] == 255u8
}

/// Convert a decoded YUV picture to RGBA, row by row. A frame whose
/// planes cannot hold the declared geometry yields nothing.
pub fn yuv_frame_to_rgba(f: &YuvFrame) -> (r: Option<Vec<u8>>)
    ensures
        r is Some <==> yuv_well_formed(f),
        r matches Some(out) ==> {
            &&& out@.len() == 4 * f.width * f.height
            &&& forall|row: int, col: int|
                0 <= row < f.height && 0 <= col < f.width ==> #[trigger] yuv_pixel_ok(
                    out@,
                    f.y@,
                    f.u@,
                    f.v@,
                    f.width as int,
                    f.y_stride as int,
                    f.uv_stride as int,
                    row,
                    col,
                )
        },
{
    let w = f.width;
    let h = f.height;
    let ys = f.y_stride;
    let us = f.uv_stride;
    if !(0 < w && w <= 0x4000 && 0 < h && h <= 0x2000 && w <= ys && (w + 1) / 2 <= us && ys
        <= 0x10000 && us <= 0x10000) {
        return None;
    }
    proof {
        assert((h as int) * (ys as int) <= 0x4000_0000 && ((h as int + 1) / 2) * (us as int)
            <= 0x4000_0000 && ((h as int - 1) / 2) * (us as int) <= 0x4000_0000)
            by (nonlinear_arith)
            requires
                0 < h <= 0x2000,
                ys <= 0x10000,
                us <= 0x10000,
        ;
    }
    if !((h as u64) * (ys as u64) <= f.y.len() as u64) {
        return None;
    }
    let chroma_need: u64 = (((h - 1) / 2) as u64) * (us as u64) + (((w + 1) / 2) as u64);
    if !(chroma_need <= f.u.len() as u64 && chroma_need <= f.v.len() as u64) {
        return None;
    }
    let ylen = f.y.len();
    let ulen = f.u.len();
    let vlen = f.v.len();
    proof {
        assert(f.y@.len() == ylen && f.u@.len() == ulen && f.v@.len() == vlen);
    }
    let mut out: Vec<u8> = Vec::new();
    let mut row: usize = 0;
    let mut y_off: usize = 0;
    let mut uv_off: usize = 0;
    proof {
        assert((0int / 2) * (us as int) == 0 && 0 * (ys as int) == 0 && 4 * (0 * (w as int))
            == 0) by (nonlinear_arith);
    }
    while row < h
        invariant
            0 <= row <= h,
            yuv_well_formed(f),
            f.y@.len() <= usize::MAX,
            f.u@.len() <= usize::MAX,
            f.v@.len() <= usize::MAX,
            w == f.width,
            h == f.height,
            ys == f.y_stride,
            us == f.uv_stride,
            y_off == row * ys,
            uv_off == (row / 2) * us,
            out@.len() == 4 * (row * w),
            forall|pr: int, pc: int|
                0 <= pr < row && 0 <= pc < w ==> #[trigger] yuv_pixel_ok(
                    out@,
                    f.y@,
                    f.u@,
                    f.v@,
                    w as int,
                    ys as int,
                    us as int,
                    pr,
                    pc,
                ),
        decreases h - row,
    {
        proof {
            assert(row * ys + ys <= h * ys && (row / 2) * us + us <= ((h + 1) / 2) * us && row * w
                + w <= h * w && 4 * (h * w) <= 0x2000_0000 && (row / 2) * us <= ((h - 1) / 2)
                * us && ((h + 1) / 2) * us <= 0x4000_0000) by (nonlinear_arith)
                requires
                    0 <= row < h,
                    h <= 0x2000,
                    w <= 0x4000,
                    ys <= 0x10000,
                    us <= 0x10000,
                    0 < w <= ys,
            ;
        }
        let mut col: usize = 0;
        while col < w
            invariant
                0 <= col <= w,
                0 <= row < h,
                yuv_well_formed(f),
                f.y@.len() <= usize::MAX,
                f.u@.len() <= usize::MAX,
                f.v@.len() <= usize::MAX,
                w == f.width,
                h == f.height,
                ys == f.y_stride,
                us == f.uv_stride,
                y_off == row * ys,
                uv_off == (row / 2) * us,
                y_off + ys <= f.y@.len(),
                uv_off + (w + 1) / 2 <= f.u@.len(),
                uv_off + (w + 1) / 2 <= f.v@.len(),
                out@.len() == 4 * (row * w) + 4 * col,
                out@.len() + 4 * (w - col) <= usize::MAX,
                forall|pr: int, pc: int|
                    (0 <= pr < row && 0 <= pc < w) || (pr == row && 0 <= pc < col)
                        ==> #[trigger] yuv_pixel_ok(
                        out@,
                        f.y@,
                        f.u@,
                        f.v@,
                        w as int,
                        ys as int,
                        us as int,
                        pr,
                        pc,
                    ),
            decreases w - col,
        {
            proof {
                assert(col / 2 < (w + 1) / 2) by (nonlinear_arith)
                    requires
                        0 <= col < w,
                ;
            }
            let yv = f.y[y_off + col];
            let uv = f.u[uv_off + col / 2];
            let vv = f.v[uv_off + col / 2];
            let (red, green, blue) = yuv_pixel(yv, uv, vv);
            let ghost before = out@;
            out.push(red);
            out.push(green);
            out.push(blue);
            out.push(255u8);
            proof {
                assert(yuv_pixel_ok(
                    out@,
                    f.y@,
                    f.u@,
                    f.v@,
                    w as int,
                    ys as int,
                    us as int,
                    row as int,
                    col as int,
                ));
                assert forall|pr: int, pc: int|
                    (0 <= pr < row && 0 <= pc < w) || (pr == row && 0 <= pc < col)
                        implies #[trigger] yuv_pixel_ok(
                        out@,
                        f.y@,
                        f.u@,
                        f.v@,
                        w as int,
                        ys as int,
                        us as int,
                        pr,
                        pc,
                    ) by {
                    assert(0 <= 4 * (pr * (w as int) + pc) && 4 * (pr * (w as int) + pc) + 3
                        < before.len()) by (nonlinear_arith)
                        requires
                            (0 <= pr < row && 0 <= pc < w) || (pr == row && 0 <= pc < col),
                            0 <= row,
                            0 <= col,
                            w > 0,
                            before.len() == 4 * ((row as int) * (w as int)) + 4 * (col as int),
                    ;
                    assert(yuv_pixel_ok(
                        before,
                        f.y@,
                        f.u@,
                        f.v@,
                        w as int,
                        ys as int,
                        us as int,
                        pr,
                        pc,
                    ));
                }
            }
            col = col + 1;
        }
        row = row + 1;
        y_off = y_off + ys;
        if row % 2 == 0 {
            uv_off = uv_off + us;
        }
        proof {
            assert(y_off == row * ys && uv_off == (row / 2) * us && out@.len() == 4 * (row * w))
                by (nonlinear_arith)
                requires
                    1 <= row,
                    y_off == (row - 1) * ys + ys,
                    uv_off == ((row - 1) / 2) * us + (if row % 2 == 0 {
                        us as int
                    } else {
                        0int
                    }),
                    out@.len() == 4 * ((row - 1) * w) + 4 * w,
            ;
        }
    }
    proof {
        assert(4 * (h * w) == 4 * w * h && h * w == w * h) by (nonlinear_arith);
    }
    Some(out)
}

/// Drop the alpha channel of an RGBA buffer: each pixel keeps its
/// first three bytes.
pub fn rgba_to_rgb(rgba: &Vec<u8>) -> (r: Vec<u8>)
    requires
        rgba@.len() % 4 == 0,
    ensures
        r@.len() == rgba@.len() / 4 * 3,
        forall|p: int, k: int|
            0 <= p < rgba@.len() / 4 && 0 <= k < 3 ==> #[trigger] r@[3 * p + k] == rgba@[4 * p
                + k],
{
    let n = rgba.len() / 4;
    let mut out: Vec<u8> = Vec::new();
    let mut p: usize = 0;
    while p < n
        invariant
            0 <= p <= n,
            n == rgba@.len() / 4,
            rgba@.len() % 4 == 0,
            rgba@.len() <= usize::MAX,
            out@.len() == 3 * p,
            forall|q: int, k: int|
                0 <= q < p && 0 <= k < 3 ==> #[trigger] out@[3 * q + k] == rgba@[4 * q + k],
        decreases n - p,
    {
        proof {
            assert(4 * (p as int) + 3 < rgba@.len() && 3 * (p as int) + 3 <= 3 * (n as int))
                by (nonlinear_arith)
                requires
                    0 <= p < n,
                    n == rgba@.len() / 4,
                    rgba@.len() % 4 == 0,
            ;
        }
        let ghost before = out@;
        out.push(rgba[4 * p]);
        out.push(rgba[4 * p + 1]);
        out.push(rgba[4 * p + 2]);
        proof {
            assert forall|q: int, k: int| 0 <= q < p + 1 && 0 <= k < 3 implies #[trigger] out@[3
                * q + k] == rgba@[4 * q + k] by {
                assert(0 <= 3 * q + k && 3 * q + k < before.len() + 3) by (nonlinear_arith)
                    requires
                        0 <= q <= p,
                        0 <= k < 3,
                        before.len() == 3 * (p as int),
                ;
                if q < p {
                    assert(3 * q + k < before.len()) by (nonlinear_arith)
                        requires
                            0 <= q < p,
                            0 <= k < 3,
                            before.len() == 3 * (p as int),
                    ;
                    assert(out@[3 * q + k] == before[3 * q + k]);
                }
            }
        }
        p = p + 1;
    }
    proof {
        assert(3 * (n as int) == rgba@.len() / 4 * 3);
    }
    out
}

/// Convert one captured BGRA frame, whose rows arrive bottom-up, to a
/// top-down RGBA buffer: output row `r` comes from input row
/// `height - 1 - r`, with red and blue swapped and alpha forced
/// opaque.
pub open spec fn bgra_pixel_ok(
    out: Seq<u8>,
    frame: Seq<u8>,
    w: int,
    h: int,
    stride: int,
    row: int,
    col: int,
) -> bool {
    let src = (h - 1 - row) * stride + 4 * col;
    &&& out[4 * (row * w + col)] == frame[src + 2]
    &&& out[4 * (row * w + col) + 1] == frame[src + 1]
    &&& out[4 * (row * w + col) + 2] == frame[src]
    &&& out[4 * (row * w + col) + 3] == 255u8
}

pub fn bgra_flipped_to_rgba(frame: &Vec<u8>, width: usize, height: usize, stride: usize) -> (r:
    Option<Vec<u8>>)
    ensures
        r is Some <==> (0 < width <= 0x2000 && 0 < height <= 0x2000 && 4 * width <= stride
            && stride <= 0x20000 && height * stride <= frame@.len()),
        r matches Some(out) ==> {
            &&& out@.len() == 4 * width * height
            &&& forall|row: int, col: int|
                0 <= row < height && 0 <= col < width ==> #[trigger] bgra_pixel_ok(
                    out@,
                    frame@,
                    width as int,
                    height as int,
                    stride as int,
                    row,
                    col,
                )
        },
{
    if !(0 < width && width <= 0x2000 && 0 < height && height <= 0x2000 && 4 * width <= stride
        && stride <= 0x20000) {
        return None;
    }
    proof {
        assert((height as int) * (stride as int) <= 0x4000_0000) by (nonlinear_arith)
            requires
                0 < height <= 0x2000,
                stride <= 0x20000,
        ;
    }
    if !((height as u64) * (stride as u64) <= frame.len() as u64) {
        return None;
    }
    let flen = frame.len();
    proof {
        assert(frame@.len() == flen);
    }
    let mut out: Vec<u8> = Vec::new();
    let mut row: usize = 0;
    while row < height
        invariant
            0 <= row <= height,
            0 < width <= 0x2000,
            0 < height <= 0x2000,
            4 * width <= stride,
            stride <= 0x20000,
            height * stride <= frame@.len(),
            frame@.len() <= usize::MAX,
            out@.len() == 4 * (row * width),
            forall|pr: int, pc: int|
                0 <= pr < row && 0 <= pc < width ==> #[trigger] bgra_pixel_ok(
                    out@,
                    frame@,
                    width as int,
                    height as int,
                    stride as int,
                    pr,
                    pc,
                ),
        decreases height - row,
    {
        let src_row = height - 1 - row;
        proof {
            assert((src_row as int) * (stride as int) <= 0x4000_0000) by (nonlinear_arith)
                requires
                    0 <= src_row < height,
                    height <= 0x2000,
                    stride <= 0x20000,
            ;
        }
        let src_base: usize = src_row * stride;
        proof {
            assert(src_base + stride <= height * stride && row * width + width <= height * width
                && 4 * (height * width) <= 0x2000_0000) by (nonlinear_arith)
                requires
                    0 <= row < height,
                    src_base == (height - 1 - row) * stride,
                    height <= 0x2000,
                    width <= 0x2000,
                    stride <= 0x20000,
                    0 < width,
                    4 * width <= stride,
            ;
        }
        let mut col: usize = 0;
        while col < width
            invariant
                0 <= col <= width,
                0 <= row < height,
                0 < width <= 0x2000,
                0 < height <= 0x2000,
                4 * width <= stride,
                stride <= 0x20000,
                height * stride <= frame@.len(),
                frame@.len() <= usize::MAX,
                src_base == (height - 1 - row) * stride,
                src_base + stride <= frame@.len(),
                out@.len() == 4 * (row * width) + 4 * col,
                out@.len() + 4 * (width - col) <= usize::MAX,
                forall|pr: int, pc: int|
                    (0 <= pr < row && 0 <= pc < width) || (pr == row && 0 <= pc < col)
                        ==> #[trigger] bgra_pixel_ok(
                        out@,
                        frame@,
                        width as int,
                        height as int,
                        stride as int,
                        pr,
                        pc,
                    ),
            decreases width - col,
        {
            let src = src_base + 4 * col;
            proof {
                assert(src + 3 < frame@.len()) by (nonlinear_arith)
                    requires
                        src == src_base + 4 * (col as int),
                        0 <= col < width,
                        4 * width <= stride,
                        src_base + stride <= frame@.len(),
                ;
            }
            let ghost before = out@;
            out.push(frame[src + 2]);
            out.push(frame[src + 1]);
            out.push(frame[src]);
            out.push(255u8);
            proof {
                assert(bgra_pixel_ok(
                    out@,
                    frame@,
                    width as int,
                    height as int,
                    stride as int,
                    row as int,
                    col as int,
                ));
                assert forall|pr: int, pc: int|
                    (0 <= pr < row && 0 <= pc < width) || (pr == row && 0 <= pc < col)
                        implies #[trigger] bgra_pixel_ok(
                        out@,
                        frame@,
                        width as int,
                        height as int,
                        stride as int,
                        pr,
                        pc,
                    ) by {
                    assert(0 <= 4 * (pr * (width as int) + pc) && 4 * (pr * (width as int) + pc)
                        + 3 < before.len()) by (nonlinear_arith)
                        requires
                            (0 <= pr < row && 0 <= pc < width) || (pr == row && 0 <= pc < col),
                            0 <= row,
                            0 <= col,
                            width > 0,
                            before.len() == 4 * ((row as int) * (width as int)) + 4 * (col as int),
                    ;
                    assert(bgra_pixel_ok(
                        before,
                        frame@,
                        width as int,
                        height as int,
                        stride as int,
                        pr,
                        pc,
                    ));
                }
            }
            col = col + 1;
        }
        row = row + 1;
        proof {
            assert(out@.len() == 4 * (row * width)) by (nonlinear_arith)
                requires
                    1 <= row,
                    out@.len() == 4 * ((row - 1) * width) + 4 * width,
            ;
        }
    }
    proof {
        assert(4 * (height * width) == 4 * width * height) by (nonlinear_arith);
    }
    Some(out)
}

} // verus!
