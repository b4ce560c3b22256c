//! The codec boundary: the H.264 decoder and the JPEG coder of the
//! fallback path.
//!
//! The codecs themselves are black boxes: raw pixels or samples in,
//! compressed bytes out, and vice versa. Each call is wrapped in one
//! trusted function; everything around the calls — pixel-format
//! conversion, validation of what a decoder hands back — is verified.

use vstd::prelude::*;
use openh264::formats::YUVSource;
use crate::pixel::{yuv_frame_to_rgba, rgba_to_rgb, YuvFrame};

verus! {

/// What a JPEG encode of an RGB image at a given quality produces.
/// The encoder is deterministic: the bytes depend on the pixels,
/// dimensions and quality alone.
pub uninterp spec fn jpeg_of(rgb: Seq<u8>, width: u16, height: u16, quality: u8) -> Seq<u8>;

/// What a JPEG decode of a byte string produces: the RGBA pixels and
/// dimensions, or nothing if the bytes are not a decodable image. The
/// decoder is deterministic: the outcome depends on the bytes alone.
pub uninterp spec fn jpeg_decoded(data: Seq<u8>) -> Option<(Seq<u8>, u32, u32)>;

/// Relies on jpeg_encoder::Encoder::encode writing the JPEG stream of
/// the RGB image into the output vector; the result depends on the
/// pixels, dimensions and quality alone. With the exact input length
/// the `requires` fixes, the call can fail only on zero dimensions:
/// the only other error sources are a short buffer and the writer,
/// and writing into a `Vec` cannot fail.
#[verifier::external_body]
fn jpeg_encode_rgb(rgb: &Vec<u8>, width: u16, height: u16, quality: u8) -> (r: Option<Vec<u8>>)
    requires
        rgb@.len() == 3 * (width as int) * (height as int),
    ensures
        width > 0 && height > 0 ==> r is Some,
        r matches Some(v) ==> v@ == jpeg_of(rgb@, width, height, quality),
{
    let mut out: Vec<u8> = Vec::new();
    let encoder = jpeg_encoder::Encoder::new(&mut out, quality);
    match encoder.encode(rgb.as_slice(), width, height, jpeg_encoder::ColorType::Rgb) {
        Ok(()) => Some(out),
        Err(_) => None,
    }
}

/// A decoded image: RGBA pixels with their dimensions.
pub struct DecodedImage {
    pub rgba: Vec<u8>,
    pub width: u32,
    pub height: u32,
}

/// Relies on image's JPEG decoding (ImageReader with the JPEG format,
/// then DynamicImage::to_rgba8): an RGBA buffer of exactly 4 bytes per
/// pixel of the decoded dimensions; the outcome depends on the bytes
/// alone.
#[verifier::external_body]
fn jpeg_decode_rgba(data: &Vec<u8>) -> (r: Option<DecodedImage>)
    ensures
        match r {
            Some(img) => jpeg_decoded(data@) == Some((img.rgba@, img.width, img.height))
                && img.rgba@.len() == 4 * (img.width as int) * (img.height as int),
            None => jpeg_decoded(data@) is None,
        },
{
    let cursor = std::io::Cursor::new(data.as_slice());
    let reader = image::ImageReader::with_format(cursor, image::ImageFormat::Jpeg);
    match reader.decode() {
        Ok(img) => {
            let rgba = img.to_rgba8();
            let (width, height) = (rgba.width(), rgba.height());
            Some(DecodedImage { rgba: rgba.into_raw(), width, height })
        }
        Err(_) => None,
    }
}

/// Encode one captured RGBA frame as JPEG for the fallback path: the
/// verified conversion drops the alpha channel, then the encoder runs
/// on the RGB pixels. A frame with nonzero dimensions always encodes.
pub fn encode_frame_to_jpeg(rgba: &Vec<u8>, width: u16, height: u16, quality: u8) -> (r: Option<
    Vec<u8>,
>)
    requires
        rgba@.len() == 4 * (width as int) * (height as int),
    ensures
        width > 0 && height > 0 ==> r is Some,
        r matches Some(v) ==> v@ == jpeg_of(
            rgba_to_rgb_bytes(rgba@),
            width,
            height,
            quality,
        ),
{
    proof {
        let m = (width as int) * (height as int);
        assert(rgba@.len() == 4 * m) by (nonlinear_arith)
            requires
                rgba@.len() == 4 * (width as int) * (height as int),
                m == (width as int) * (height as int),
        ;
        assert((4 * m) % 4 == 0) by (nonlinear_arith);
    }
    let rgb = rgba_to_rgb(rgba);
    proof {
        assert(rgb@.len() == 3 * (width as int) * (height as int)) by (nonlinear_arith)
            requires
                rgb@.len() == rgba@.len() / 4 * 3,
                rgba@.len() == 4 * (width as int) * (height as int),
        ;
        assert forall|i: int| 0 <= i < rgb@.len() implies rgb@[i] == rgba_to_rgb_bytes(rgba@)[i]
            by {
            let p = i / 3;
            let k = i % 3;
            assert(3 * p + k == i);
            assert(0 <= p < rgba@.len() / 4 && 0 <= k < 3) by (nonlinear_arith)
                requires
                    p == i / 3,
                    k == i % 3,
                    0 <= i < rgb@.len(),
                    rgb@.len() == rgba@.len() / 4 * 3,
            ;
            assert(rgb@[3 * p + k] == rgba@[4 * p + k]);
        }
        assert(rgb@ =~= rgba_to_rgb_bytes(rgba@));
    }
    jpeg_encode_rgb(&rgb, width, height, quality)
}

/// The RGB bytes of an RGBA buffer: each pixel keeps its first three
/// channels.
pub open spec fn rgba_to_rgb_bytes(rgba: Seq<u8>) -> Seq<u8> {
    Seq::new(rgba.len() / 4 * 3, |i: int| rgba[4 * (i / 3) + (i % 3)])
}

/// Decode one JPEG payload of the fallback path to RGBA pixels; a
/// payload the decoder refuses yields nothing.
pub fn decode_jpeg_frame(data: &Vec<u8>) -> (r: Option<DecodedImage>)
    ensures
        match r {
            Some(img) => jpeg_decoded(data@) == Some((img.rgba@, img.width, img.height))
                && img.rgba@.len() == 4 * (img.width as int) * (img.height as int),
            None => jpeg_decoded(data@) is None,
        },
{
    jpeg_decode_rgba(data)
}

// ---------------------------------------------------------------------
// H.264 decoding
// ---------------------------------------------------------------------

#[verifier::external_type_specification]
#[verifier::external_body]
pub struct ExH264Decoder(openh264::decoder::Decoder);

/// What one decode call produced: nothing yet (the decoder wants more
/// data), a picture, or a failure.
pub enum DecodeOutcome {
    /// No picture was available; more data is needed.
    NoFrame,
    /// A decoded picture in planar YUV 4:2:0 layout.
    Frame(YuvFrame),
    /// The bitstream was corrupted.
    Failed,
}

/// Relies on openh264::decoder::Decoder::new to set up a fresh
/// software decoder; fails only if the underlying library cannot be
/// initialized.
#[verifier::external_body]
pub fn new_h264_decoder() -> (r: Option<openh264::decoder::Decoder>) {
    match openh264::decoder::Decoder::new() {
        Ok(d) => Some(d),
        Err(_) => None,
    }
}

/// Relies on openh264's Decoder::decode for one series of H.264 NAL
/// units, and on DecodedYUV's accessors (y, u, v, dimensions, strides)
/// for the picture it returns. The outcome depends on the decoder's
/// internal state, so nothing is promised of it; the verified
/// consumer validates every field of the frame before use.
#[verifier::external_body]
fn h264_decode_step(dec: &mut openh264::decoder::Decoder, data: &Vec<u8>) -> (r: DecodeOutcome)
{
    match dec.decode(data.as_slice()) {
        Ok(Some(yuv)) => {
            let (width, height) = yuv.dimensions();
            let (y_stride, uv_stride, _) = yuv.strides();
            let (y, u, v) = (yuv.y().to_vec(), yuv.u().to_vec(), yuv.v().to_vec());
            DecodeOutcome::Frame(YuvFrame { y, u, v, width, height, y_stride, uv_stride })
        }
        Ok(None) => DecodeOutcome::NoFrame,
        Err(_) => DecodeOutcome::Failed,
    }
}

/// Decode one reassembled payload and convert any picture it yields
/// to RGBA. A malformed picture (planes too short for the declared
/// dimensions and strides) is treated as a failed decode, so the
/// result is RGBA of exactly the declared dimensions or nothing.
pub fn decode_payload_to_rgba(dec: &mut openh264::decoder::Decoder, data: &Vec<u8>) -> (r: Option<
    DecodedImage,
>)
    ensures
        r matches Some(img) ==> {
            &&& img.rgba@.len() == 4 * (img.width as int) * (img.height as int)
            &&& img.width <= 0x4000
            &&& img.height <= 0x2000
        },
{
    match h264_decode_step(dec, data) {
        DecodeOutcome::Frame(frame) => {
            let width = frame.width;
            let height = frame.height;
            match yuv_frame_to_rgba(&frame) {
                Some(rgba) => Some(
                    DecodedImage { rgba, width: width as u32, height: height as u32 },
                ),
                None => None,
            }
        }
        DecodeOutcome::NoFrame => None,
        DecodeOutcome::Failed => None,
    }
}

} // verus!
