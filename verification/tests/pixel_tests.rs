use lanshare::pixel::{bgra_flipped_to_rgba, rgba_to_rgb, yuv_frame_to_rgba, YuvFrame};

#[test]
fn yuv_black_and_white_rows() {
    // A 2x2 picture: top row at luma 16 (black), bottom row at luma
    // 235 (white), neutral chroma.
    let f = YuvFrame {
        y: vec![16, 16, 235, 235],
        u: vec![128],
        v: vec![128],
        width: 2,
        height: 2,
        y_stride: 2,
        uv_stride: 1,
    };
    let rgba = yuv_frame_to_rgba(&f).expect("well-formed frame");
    assert_eq!(rgba.len(), 16);
    assert_eq!(&rgba[0..8], &[0, 0, 0, 255, 0, 0, 0, 255]);
    assert_eq!(&rgba[8..16], &[255, 255, 255, 255, 255, 255, 255, 255]);
}

#[test]
fn yuv_red_pixel() {
    // Y=81, U=90, V=240 is the BT.601 encoding of pure red.
    let f = YuvFrame {
        y: vec![81],
        u: vec![90],
        v: vec![240],
        width: 1,
        height: 1,
        y_stride: 1,
        uv_stride: 1,
    };
    let rgba = yuv_frame_to_rgba(&f).expect("well-formed frame");
    assert_eq!(rgba, vec![255, 0, 0, 255]);
}

#[test]
fn yuv_respects_strides() {
    // Luma rows padded to a stride of 4; the padding must be ignored.
    let f = YuvFrame {
        y: vec![16, 235, 99, 99, 235, 16, 99, 99],
        u: vec![128, 0],
        v: vec![128, 0],
        width: 2,
        height: 2,
        y_stride: 4,
        uv_stride: 2,
    };
    let rgba = yuv_frame_to_rgba(&f).expect("well-formed frame");
    assert_eq!(&rgba[0..4], &[0, 0, 0, 255]);
    assert_eq!(&rgba[4..8], &[255, 255, 255, 255]);
    assert_eq!(&rgba[8..12], &[255, 255, 255, 255]);
    assert_eq!(&rgba[12..16], &[0, 0, 0, 255]);
}

#[test]
fn yuv_malformed_frame_is_refused() {
    let f = YuvFrame {
        y: vec![16],
        u: vec![128],
        v: vec![128],
        width: 2,
        height: 2,
        y_stride: 2,
        uv_stride: 1,
    };
    assert!(yuv_frame_to_rgba(&f).is_none());
    let zero = YuvFrame {
        y: vec![],
        u: vec![],
        v: vec![],
        width: 0,
        height: 0,
        y_stride: 0,
        uv_stride: 0,
    };
    assert!(yuv_frame_to_rgba(&zero).is_none());
}

#[test]
fn rgba_drops_alpha() {
    let rgba = vec![1, 2, 3, 4, 5, 6, 7, 8];
    assert_eq!(rgba_to_rgb(&rgba), vec![1, 2, 3, 5, 6, 7]);
}

#[test]
fn bgra_flip_and_swap() {
    // Two rows, one pixel each, arriving bottom-up in BGRA.
    let frame = vec![1, 2, 3, 9, 4, 5, 6, 9];
    let rgba = bgra_flipped_to_rgba(&frame, 1, 2, 4).expect("well-formed frame");
    // Output row 0 comes from input row 1, red and blue swapped.
    assert_eq!(rgba, vec![6, 5, 4, 255, 3, 2, 1, 255]);
}

#[test]
fn bgra_respects_stride() {
    // One row of one pixel with a padded stride of 8.
    let frame = vec![1, 2, 3, 9, 77, 77, 77, 77];
    let rgba = bgra_flipped_to_rgba(&frame, 1, 1, 8).expect("well-formed frame");
    assert_eq!(rgba, vec![3, 2, 1, 255]);
}

#[test]
fn bgra_short_frame_is_refused() {
    assert!(bgra_flipped_to_rgba(&vec![0; 7], 1, 2, 4).is_none());
}

#[test]
fn yuv_odd_height_converts() {
    // A 2x3 picture with chroma planes of exactly 3 bytes, the length
    // a decoder reports for odd heights (height * stride / 2).
    let f = YuvFrame {
        y: vec![16, 16, 235, 235, 16, 235],
        u: vec![128, 128, 128],
        v: vec![128, 128, 128],
        width: 2,
        height: 3,
        y_stride: 2,
        uv_stride: 2,
    };
    let rgba = yuv_frame_to_rgba(&f).expect("odd-height frame converts");
    assert_eq!(rgba.len(), 24);
    assert_eq!(&rgba[0..8], &[0, 0, 0, 255, 0, 0, 0, 255]);
    assert_eq!(&rgba[8..16], &[255, 255, 255, 255, 255, 255, 255, 255]);
    assert_eq!(&rgba[16..24], &[0, 0, 0, 255, 255, 255, 255, 255]);
}
