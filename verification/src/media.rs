//! Small decision procedures of the media pipelines.
//!
//! The background encode and decode workers always process the newest
//! submitted unit: the hand-off between the tick loop and a worker is a
//! one-slot channel whose writer overwrites what the reader has not
//! taken yet. Encoding quality adapts to backlog, decoder health
//! decides when a broken decoder is recreated, and keyframes are forced
//! on a fixed schedule so that late joiners can start decoding.

use vstd::prelude::*;

verus! {

/// Minimum adaptive encode quality.
pub const MIN_QUALITY: u8 = 40;

/// Maximum adaptive encode quality.
pub const MAX_QUALITY: u8 = 85;

/// Starting adaptive encode quality.
pub const INITIAL_QUALITY: u8 = 70;

/// A keyframe is forced every this many frames.
pub const KEYFRAME_INTERVAL: u32 = 60;

/// The decoder is recreated after this many consecutive failures.
pub const MAX_CONSECUTIVE_DECODE_FAILURES: u32 = 30;

/// The decoder is recreated when no decode has succeeded for this
/// long.
pub const DECODE_STALL_MS: u64 = 5000;

/// A one-slot hand-off between the tick loop and a background worker:
/// submitting overwrites whatever the worker has not taken yet, so the
/// worker always sees the newest unit and the backlog never exceeds
/// one.
pub struct LatestSlot<T> {
    pub slot: Option<T>,
}

impl<T> LatestSlot<T> {
    /// An empty slot.
    pub fn new() -> (r: LatestSlot<T>)
        ensures
            r.slot is None,
    {
        LatestSlot { slot: None }
    }

    /// Submit a unit, discarding any unit not yet taken.
    pub fn put(&mut self, value: T)
        ensures
            final(self).slot == Some(value),
    {
        self.slot = Some(value);
    }

    /// Take the newest unit, leaving the slot empty.
    pub fn take(&mut self) -> (r: Option<T>)
        ensures
            final(self).slot is None,
            r == old(self).slot,
    {
        let mut out: Option<T> = None;
        core::mem::swap(&mut self.slot, &mut out);
        out
    }
}

/// Whether this frame index falls on the forced-keyframe schedule.
pub fn is_forced_keyframe(frame_index: u32) -> (r: bool)
    ensures
        r == (frame_index % KEYFRAME_INTERVAL == 0),
{
    frame_index % KEYFRAME_INTERVAL == 0
}

/// Adaptive encode quality, adjusted from how many submitted frames
/// still await encoding.
pub struct AdaptiveQuality {
    pub quality: u8,
    pub pending: u32,
}

/// The quality the controller moves to at a given backlog: a deep
/// backlog cuts quality sharply, a slight one trims it, an empty one
/// raises it, all within the fixed bounds.
pub open spec fn adjusted_quality(current: u8, pending: u32) -> u8 {
    if pending > 3 {
        if current >= MIN_QUALITY + 10 {
            (current - 10) as u8
        } else {
            MIN_QUALITY
        }
    } else if pending > 1 {
        if current >= MIN_QUALITY + 3 {
            (current - 3) as u8
        } else {
            MIN_QUALITY
        }
    } else if pending == 0 {
        if current + 2 <= MAX_QUALITY {
            (current + 2) as u8
        } else {
            MAX_QUALITY
        }
    } else {
        current
    }
}

impl AdaptiveQuality {
    pub fn new() -> (r: AdaptiveQuality)
        ensures
            r.quality == INITIAL_QUALITY,
            r.pending == 0,
    {
        AdaptiveQuality { quality: INITIAL_QUALITY, pending: 0 }
    }

    /// A frame was submitted for encoding.
    pub fn frame_submitted(&mut self)
        ensures
            final(self).pending == (if old(self).pending < u32::MAX {
                old(self).pending + 1
            } else {
                old(self).pending as int
            }),
            final(self).quality == old(self).quality,
    {
        if self.pending < u32::MAX {
            self.pending = self.pending + 1;
        }
    }

    /// A frame finished encoding or was discarded unencoded.
    pub fn frame_done(&mut self)
        ensures
            final(self).pending == (if old(self).pending > 0 {
                (old(self).pending - 1) as u32
            } else {
                0
            }),
            final(self).quality == old(self).quality,
    {
        if self.pending > 0 {
            self.pending = self.pending - 1;
        }
    }

    /// Adjust the quality from the current backlog.
    pub fn adjust(&mut self)
        ensures
            final(self).quality == adjusted_quality(old(self).quality, old(self).pending),
            final(self).pending == old(self).pending,
    {
        if self.pending > 3 {
            self.quality = if self.quality >= MIN_QUALITY + 10 {
                self.quality - 10
            } else {
                MIN_QUALITY
            };
        } else if self.pending > 1 {
            self.quality = if self.quality >= MIN_QUALITY + 3 {
                self.quality - 3
            } else {
                MIN_QUALITY
            };
        } else if self.pending == 0 {
            self.quality = if self.quality <= MAX_QUALITY - 2 {
                self.quality + 2
            } else {
                MAX_QUALITY
            };
        }
    }

    /// The quality to encode the next frame with.
    pub fn current_quality(&self) -> (r: u8)
        ensures
            r == self.quality,
    {
        self.quality
    }
}

/// Decoder health: corrupted internal state from a lost keyframe or a
/// malformed stream is unrecoverable, so after too many consecutive
/// failures, or too long without a success, the decoder is discarded
/// and recreated.
pub struct DecoderHealth {
    pub consecutive_failures: u32,
    pub last_success_ms: u64,
}

impl DecoderHealth {
    /// Fresh health state at the given clock reading.
    pub fn new(now_ms: u64) -> (r: DecoderHealth)
        ensures
            r.consecutive_failures == 0,
            r.last_success_ms == now_ms,
    {
        DecoderHealth { consecutive_failures: 0, last_success_ms: now_ms }
    }

    /// A decode produced a frame.
    pub fn note_success(&mut self, now_ms: u64)
        ensures
            final(self).consecutive_failures == 0,
            final(self).last_success_ms == now_ms,
    {
        self.consecutive_failures = 0;
        self.last_success_ms = now_ms;
    }

    /// A decode produced nothing or failed.
    pub fn note_failure(&mut self)
        ensures
            final(self).consecutive_failures == (if old(self).consecutive_failures < u32::MAX {
                old(self).consecutive_failures + 1
            } else {
                old(self).consecutive_failures as int
            }),
            final(self).last_success_ms == old(self).last_success_ms,
    {
        if self.consecutive_failures < u32::MAX {
            self.consecutive_failures = self.consecutive_failures + 1;
        }
    }

    /// Whether the decoder should be discarded and recreated: too many
    /// consecutive failures, or too long since the last success.
    pub fn needs_reset(&self, now_ms: u64) -> (r: bool)
        ensures
            r == (self.consecutive_failures > MAX_CONSECUTIVE_DECODE_FAILURES || now_ms
                > self.last_success_ms + DECODE_STALL_MS),
    {
        self.consecutive_failures > MAX_CONSECUTIVE_DECODE_FAILURES || (now_ms > DECODE_STALL_MS
            && now_ms - DECODE_STALL_MS > self.last_success_ms)
    }
}

/// The playback sample rate chosen for an output device that supports
/// the given inclusive rate range: 48 kHz when available, else
/// 44.1 kHz, else the device maximum capped at 48 kHz.
pub fn choose_playback_rate(min_rate: u32, max_rate: u32) -> (r: u32)
    ensures
        min_rate <= 48000 && 48000 <= max_rate ==> r == 48000,
        !(min_rate <= 48000 && 48000 <= max_rate) && min_rate <= 44100 && 44100 <= max_rate ==> r
            == 44100,
        !(min_rate <= 48000 && 48000 <= max_rate) && !(min_rate <= 44100 && 44100 <= max_rate)
            ==> r == (if max_rate < 48000 {
            max_rate
        } else {
            48000
        }),
{
    if min_rate <= 48000 && 48000 <= max_rate {
        48000
    } else if min_rate <= 44100 && 44100 <= max_rate {
        44100
    } else if max_rate < 48000 {
        max_rate
    } else {
        48000
    }
}

/// How many packets were lost between the last received sequence
/// number and the next one, with wraparound: 0 means the next packet
/// followed directly.
pub fn sequence_gap(last: u32, next: u32) -> (r: u32)
    ensures
        next == crate::pcm::wrap_inc(last) ==> r == 0,
        r as int == (next as int - (last as int + 1)) % 0x1_0000_0000,
{
    let expected = if last == u32::MAX {
        0
    } else {
        last + 1
    };
    let gap = if next >= expected {
        next - expected
    } else {
        (u32::MAX - expected) + next + 1
    };
    proof {
        assert(gap as int == (next as int - (last as int + 1)) % 0x1_0000_0000) by (nonlinear_arith)
            requires
                0 <= last <= u32::MAX,
                0 <= next <= u32::MAX,
                expected == (if last == u32::MAX {
                    0int
                } else {
                    last as int + 1
                }),
                gap as int == (if next >= expected {
                    next - expected
                } else {
                    (u32::MAX - expected) + next + 1
                }),
                u32::MAX == 0xFFFF_FFFFu32,
        ;
    }
    gap
}


/// Whether `needle` occurs contiguously inside `hay`.
pub open spec fn contains_sub(hay: Seq<u8>, needle: Seq<u8>) -> bool {
    exists|off: int|
        0 <= off && off + needle.len() <= hay.len() && #[trigger] hay.subrange(
            off,
            off + needle.len(),
        ) == needle
}

/// Search for a byte string inside another.
pub fn find_sub(hay: &Vec<u8>, needle: &Vec<u8>) -> (r: bool)
    ensures
        r == contains_sub(hay@, needle@),
{
    let nlen = needle.len();
    let hlen = hay.len();
    if nlen == 0 {
        proof {
            assert(hay@.subrange(0, 0 + needle@.len() as int) =~= needle@);
        }
        return true;
    }
    if nlen > hlen {
        return false;
    }
    let mut off: usize = 0;
    while off <= hlen - nlen
        invariant
            0 < nlen <= hlen,
            nlen == needle@.len(),
            hlen == hay@.len(),
            0 <= off <= hlen - nlen + 1,
            forall|o: int|
                0 <= o < off ==> #[trigger] hay@.subrange(o, o + needle@.len()) != needle@,
        decreases hlen - nlen - off + 1,
    {
        let mut j: usize = 0;
        let mut matched = true;
        while j < nlen && matched
            invariant
                0 <= j <= nlen,
                nlen == needle@.len(),
                hlen == hay@.len(),
                0 <= off <= hlen - nlen,
                matched ==> forall|k: int|
                    0 <= k < j ==> hay@[off + k] == #[trigger] needle@[k],
                !matched ==> hay@.subrange(off as int, off + needle@.len()) != needle@,
            decreases nlen - j + (if matched { 1int } else { 0int }),
        {
            if hay[off + j] != needle[j] {
                proof {
                    assert(hay@.subrange(off as int, off + needle@.len()) != needle@) by {
                        if hay@.subrange(off as int, off + needle@.len()) == needle@ {
                            assert(hay@.subrange(off as int, off + needle@.len())[j as int]
                                == needle@[j as int]);
                        }
                    }
                }
                matched = false;
            } else {
                j = j + 1;
            }
        }
        if matched {
            proof {
                assert(hay@.subrange(off as int, off + needle@.len()) =~= needle@);
            }
            return true;
        }
        off = off + 1;
    }
    proof {
        assert(!contains_sub(hay@, needle@)) by {
            if contains_sub(hay@, needle@) {
                let o = choose|o: int|
                    0 <= o && o + needle@.len() <= hay@.len() && #[trigger] hay@.subrange(
                        o,
                        o + needle@.len(),
                    ) == needle@;
                assert(o < off);
            }
        }
    }
    false
}

/// The hardware encoder families, in order of preference, with the
/// software fallback last.
#[derive(Clone, Copy, Debug, PartialEq, Eq, Structural)]
pub enum EncoderKind {
    Nvenc,
    Amf,
    Qsv,
    VideoToolbox,
    Software,
}

/// The listed name of each encoder family.
pub open spec fn encoder_name(kind: EncoderKind) -> Seq<u8> {
    match kind {
        EncoderKind::Nvenc => seq![104u8, 50u8, 54u8, 52u8, 95u8, 110u8, 118u8, 101u8, 110u8, 99u8],
        EncoderKind::Amf => seq![104u8, 50u8, 54u8, 52u8, 95u8, 97u8, 109u8, 102u8],
        EncoderKind::Qsv => seq![104u8, 50u8, 54u8, 52u8, 95u8, 113u8, 115u8, 118u8],
        EncoderKind::VideoToolbox => seq![104u8, 50u8, 54u8, 52u8, 95u8, 118u8, 105u8, 100u8, 101u8, 111u8, 116u8, 111u8, 111u8, 108u8, 98u8, 111u8, 120u8],
        EncoderKind::Software => seq![108u8, 105u8, 98u8, 120u8, 50u8, 54u8, 52u8],
    }
}

/// The listed name of an encoder family, as bytes.
pub fn encoder_name_bytes(kind: EncoderKind) -> (r: Vec<u8>)
    ensures
        r@ == encoder_name(kind),
{
    let mut v: Vec<u8> = Vec::new();
    match kind {
        EncoderKind::Nvenc => {
            push_all(&mut v, &[104, 50, 54, 52, 95, 110, 118, 101, 110, 99]);
        }
        EncoderKind::Amf => {
            push_all(&mut v, &[104, 50, 54, 52, 95, 97, 109, 102]);
        }
        EncoderKind::Qsv => {
            push_all(&mut v, &[104, 50, 54, 52, 95, 113, 115, 118]);
        }
        EncoderKind::VideoToolbox => {
            push_all(
                &mut v,
                &[104, 50, 54, 52, 95, 118, 105, 100, 101, 111, 116, 111, 111, 108, 98, 111, 120],
            );
        }
        EncoderKind::Software => {
            push_all(&mut v, &[108, 105, 98, 120, 50, 54, 52]);
        }
    }
    proof {
        assert(v@ =~= encoder_name(kind));
    }
    v
}

fn push_all(v: &mut Vec<u8>, bytes: &[u8])
    ensures
        final(v)@ == old(v)@ + bytes@,
{
    let mut i: usize = 0;
    while i < bytes.len()
        invariant
            i <= bytes@.len(),
            v@ == old(v)@ + bytes@.take(i as int),
        decreases bytes@.len() - i,
    {
        v.push(bytes[i]);
        proof {
            assert(bytes@.take(i + 1) =~= bytes@.take(i as int).push(bytes@[i as int]));
            assert(old(v)@ + bytes@.take(i + 1) =~= (old(v)@ + bytes@.take(i as int)).push(
                bytes@[i as int],
            ));
        }
        i = i + 1;
    }
    proof {
        assert(bytes@.take(bytes@.len() as int) =~= bytes@);
    }
}

/// The encoder chosen from an encoder-listing text: the first of the
/// preferred names that occurs in it, with software as the fallback.
pub open spec fn spec_pick_encoder(listing: Seq<u8>) -> EncoderKind {
    if contains_sub(listing, encoder_name(EncoderKind::Nvenc)) {
        EncoderKind::Nvenc
    } else if contains_sub(listing, encoder_name(EncoderKind::Amf)) {
        EncoderKind::Amf
    } else if contains_sub(listing, encoder_name(EncoderKind::Qsv)) {
        EncoderKind::Qsv
    } else if contains_sub(listing, encoder_name(EncoderKind::VideoToolbox)) {
        EncoderKind::VideoToolbox
    } else {
        EncoderKind::Software
    }
}

/// Pick the encoder to use from the listing the encoder tool printed.
pub fn pick_encoder(listing: &Vec<u8>) -> (r: EncoderKind)
    ensures
        r == spec_pick_encoder(listing@),
{
    let nvenc = encoder_name_bytes(EncoderKind::Nvenc);
    let amf = encoder_name_bytes(EncoderKind::Amf);
    let qsv = encoder_name_bytes(EncoderKind::Qsv);
    let vt = encoder_name_bytes(EncoderKind::VideoToolbox);
    if find_sub(listing, &nvenc) {
        EncoderKind::Nvenc
    } else if find_sub(listing, &amf) {
        EncoderKind::Amf
    } else if find_sub(listing, &qsv) {
        EncoderKind::Qsv
    } else if find_sub(listing, &vt) {
        EncoderKind::VideoToolbox
    } else {
        EncoderKind::Software
    }
}

} // verus!
