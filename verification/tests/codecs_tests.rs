use lanshare::codecs::{decode_jpeg_frame, decode_payload_to_rgba, encode_frame_to_jpeg,
    new_h264_decoder};

#[test]
fn jpeg_encode_produces_a_jpeg_stream() {
    // A 16x16 solid red frame. The encoder must hand back a JPEG
    // stream, not the pixels: it starts with the JPEG start-of-image
    // marker and is not the input buffer.
    let mut rgba: Vec<u8> = Vec::new();
    for _ in 0..(16 * 16) {
        rgba.extend_from_slice(&[200, 10, 10, 255]);
    }
    let jpeg = encode_frame_to_jpeg(&rgba, 16, 16, 80).expect("encode succeeds");
    assert!(jpeg.len() > 4);
    assert_eq!(&jpeg[0..2], &[0xFF, 0xD8]);
    assert_ne!(jpeg, rgba);
}

#[test]
fn jpeg_round_trip_preserves_dimensions() {
    let mut rgba: Vec<u8> = Vec::new();
    for i in 0..(8 * 4) {
        let v = (i * 7 % 256) as u8;
        rgba.extend_from_slice(&[v, 255 - v, v, 255]);
    }
    let jpeg = encode_frame_to_jpeg(&rgba, 8, 4, 90).expect("encode succeeds");
    let img = decode_jpeg_frame(&jpeg).expect("decode succeeds");
    assert_eq!(img.width, 8);
    assert_eq!(img.height, 4);
    assert_eq!(img.rgba.len(), 8 * 4 * 4);
}

#[test]
fn jpeg_decode_rejects_garbage() {
    assert!(decode_jpeg_frame(&vec![1, 2, 3, 4, 5]).is_none());
    assert!(decode_jpeg_frame(&Vec::new()).is_none());
}

#[test]
fn h264_decoder_initializes_and_rejects_garbage() {
    let mut dec = new_h264_decoder().expect("software decoder initializes");
    // Garbage NAL data cannot yield a picture.
    let garbage: Vec<u8> = (0..128).map(|i| (i * 31 % 256) as u8).collect();
    assert!(decode_payload_to_rgba(&mut dec, &garbage).is_none());
}
