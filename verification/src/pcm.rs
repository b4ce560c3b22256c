//! Packing of 16-bit PCM audio for the wire.
//!
//! Samples travel as raw 16-bit words, little-endian. The capture side
//! hands the library quantized samples as bit patterns; the playback
//! side gets them back unchanged. The packed stream is cut into
//! packet-sized chunks, one sequence number per packet, wrapping
//! modulo 2^32.

use vstd::prelude::*;
use vstd::bytes::{spec_u16_to_le_bytes, spec_u16_from_le_bytes, lemma_auto_spec_u16_to_from_le_bytes,
    u16_to_le_bytes, u16_from_le_bytes};
use vstd::slice::slice_subrange;
use crate::protocol::AudioChunk;

verus! {

/// Maximum payload bytes of one audio packet, kept well under the
/// datagram-safe bound because audio packets are frequent and small.
pub const AUDIO_CHUNK_BOUND: usize = 1200;

/// The little-endian byte stream of a sample sequence.
pub open spec fn spec_samples_bytes(samples: Seq<u16>) -> Seq<u8>
    decreases samples.len(),
{
    if samples.len() == 0 {
        Seq::<u8>::empty()
    } else {
        spec_u16_to_le_bytes(samples[0]) + spec_samples_bytes(samples.skip(1))
    }
}

pub proof fn lemma_samples_bytes_len(samples: Seq<u16>)
    ensures
        spec_samples_bytes(samples).len() == 2 * samples.len(),
    decreases samples.len(),
{
    lemma_auto_spec_u16_to_from_le_bytes();
    if samples.len() > 0 {
        lemma_samples_bytes_len(samples.skip(1));
    }
}

pub proof fn lemma_samples_bytes_push(samples: Seq<u16>, s: u16)
    ensures
        spec_samples_bytes(samples.push(s)) == spec_samples_bytes(samples) + spec_u16_to_le_bytes(
            s,
        ),
    decreases samples.len(),
{
    lemma_auto_spec_u16_to_from_le_bytes();
    let q = samples.push(s);
    if samples.len() == 0 {
        assert(q[0] == s);
        assert(q.skip(1) =~= Seq::<u16>::empty());
        assert(spec_samples_bytes(Seq::<u16>::empty()) =~= Seq::<u8>::empty());
        assert(spec_samples_bytes(samples) =~= Seq::<u8>::empty());
        assert(spec_samples_bytes(q) =~= spec_samples_bytes(samples) + spec_u16_to_le_bytes(s));
    } else {
        assert(q[0] == samples[0]);
        assert(q.skip(1) =~= samples.skip(1).push(s));
        lemma_samples_bytes_push(samples.skip(1), s);
        assert(spec_samples_bytes(q) =~= spec_samples_bytes(samples) + spec_u16_to_le_bytes(s));
    }
}

/// Pack samples into their little-endian byte stream.
pub fn pack_samples(samples: &Vec<u16>) -> (r: Vec<u8>)
    ensures
        r@ == spec_samples_bytes(samples@),
        r@.len() == 2 * samples@.len(),
{
    proof {
        lemma_samples_bytes_len(samples@);
    }
    let mut out: Vec<u8> = Vec::new();
    proof {
        assert(samples@.take(0) =~= Seq::<u16>::empty());
    }
    let mut i: usize = 0;
    while i < samples.len()
        invariant
            i <= samples@.len(),
            out@ == spec_samples_bytes(samples@.take(i as int)),
        decreases samples@.len() - i,
    {
        let mut b = u16_to_le_bytes(samples[i]);
        out.append(&mut b);
        proof {
            assert(samples@.take(i + 1) =~= samples@.take(i as int).push(samples@[i as int]));
            lemma_samples_bytes_push(samples@.take(i as int), samples@[i as int]);
        }
        i = i + 1;
    }
    proof {
        assert(samples@.take(samples@.len() as int) =~= samples@);
    }
    out
}

/// The samples read back from a little-endian byte stream of even
/// length.
pub open spec fn spec_parse_samples(d: Seq<u8>) -> Seq<u16> {
    Seq::new(d.len() / 2, |i: int| spec_u16_from_le_bytes(d.subrange(2 * i, 2 * i + 2)))
}

/// Unpack a byte stream into samples; a stream of odd length is
/// malformed and refused.
pub fn unpack_samples(data: &Vec<u8>) -> (r: Option<Vec<u16>>)
    ensures
        data@.len() % 2 == 0 ==> (r matches Some(samples) && samples@ == spec_parse_samples(
            data@,
        )),
        data@.len() % 2 != 0 ==> r is None,
{
    if data.len() % 2 != 0 {
        return None;
    }
    let n = data.len() / 2;
    let mut out: Vec<u16> = Vec::new();
    let mut i: usize = 0;
    while i < n
        invariant
            i <= n,
            n == data@.len() / 2,
            data@.len() % 2 == 0,
            data@.len() <= usize::MAX,
            out@.len() == i,
            forall|k: int|
                0 <= k < i ==> out@[k] == spec_u16_from_le_bytes(
                    #[trigger] data@.subrange(2 * k, 2 * k + 2),
                ),
        decreases n - i,
    {
        proof {
            assert(2 * (i as int) + 2 <= data@.len());
        }
        let s = u16_from_le_bytes(slice_subrange(data.as_slice(), 2 * i, 2 * i + 2));
        out.push(s);
        i = i + 1;
    }
    proof {
        assert(out@ =~= spec_parse_samples(data@));
    }
    Some(out)
}

/// Unpacking a packed sample stream gives back the samples.
pub proof fn lemma_pcm_round_trip(samples: Seq<u16>)
    ensures
        spec_parse_samples(spec_samples_bytes(samples)) == samples,
    decreases samples.len(),
{
    lemma_auto_spec_u16_to_from_le_bytes();
    lemma_samples_bytes_len(samples);
    let d = spec_samples_bytes(samples);
    if samples.len() == 0 {
        assert(spec_parse_samples(d) =~= samples);
    } else {
        lemma_pcm_round_trip(samples.skip(1));
        lemma_samples_bytes_len(samples.skip(1));
        let tail = spec_samples_bytes(samples.skip(1));
        assert(d.subrange(0, 2) =~= spec_u16_to_le_bytes(samples[0]));
        assert forall|i: int| 0 <= i < samples.len() implies spec_parse_samples(d)[i]
            == samples[i] by {
            if i > 0 {
                assert(d.subrange(2 * i, 2 * i + 2) =~= tail.subrange(2 * (i - 1), 2 * (i - 1)
                    + 2));
                assert(spec_parse_samples(tail)[i - 1] == samples.skip(1)[i - 1]);
            }
        }
        assert(spec_parse_samples(d) =~= samples);
    }
}

/// The next packet sequence number after `i` increments from `start`,
/// wrapping modulo 2^32.
pub open spec fn wrap_inc(a: u32) -> u32 {
    if a == u32::MAX {
        0
    } else {
        (a + 1) as u32
    }
}

pub open spec fn seq_after(start: u32, i: int) -> u32
    decreases i,
{
    if i <= 0 {
        start
    } else {
        wrap_inc(seq_after(start, i - 1))
    }
}

/// Cut a packed byte stream into audio packets of at most
/// `AUDIO_CHUNK_BOUND` bytes, numbering them consecutively from
/// `start_seq` (wrapping) and stamping each with the stream's rate and
/// channel count.
pub fn chunk_audio(data: &Vec<u8>, start_seq: u32, sample_rate: u32, channels: u8) -> (r: Vec<
    AudioChunk,
>)
    requires
        data@.len() <= AUDIO_CHUNK_BOUND * 0xFFFF,
    ensures
        r@.len() == (data@.len() + AUDIO_CHUNK_BOUND - 1) / (AUDIO_CHUNK_BOUND as int),
        forall|i: int|
            0 <= i < r@.len() ==> {
                &&& (#[trigger] r@[i])@.sequence == seq_after(start_seq, i)
                &&& r@[i]@.sample_rate == sample_rate
                &&& r@[i]@.channels == channels
                &&& r@[i]@.payload == data@.subrange(
                    AUDIO_CHUNK_BOUND * i,
                    if AUDIO_CHUNK_BOUND * (i + 1) <= data@.len() {
                        AUDIO_CHUNK_BOUND * (i + 1)
                    } else {
                        data@.len() as int
                    },
                )
            },
{
    let len = data.len();
    let total: usize = (len + (AUDIO_CHUNK_BOUND - 1)) / AUDIO_CHUNK_BOUND;
    proof {
        assert(AUDIO_CHUNK_BOUND * (total - 1) < len || total == 0) by (nonlinear_arith)
            requires
                total == (len + (AUDIO_CHUNK_BOUND as int) - 1) / (AUDIO_CHUNK_BOUND as int),
                AUDIO_CHUNK_BOUND == 1200,
                len >= 0,
        ;
        assert(len <= AUDIO_CHUNK_BOUND * total) by (nonlinear_arith)
            requires
                total == (len + (AUDIO_CHUNK_BOUND as int) - 1) / (AUDIO_CHUNK_BOUND as int),
                AUDIO_CHUNK_BOUND == 1200,
                len >= 0,
        ;
    }
    let mut r: Vec<AudioChunk> = Vec::new();
    let mut seqno: u32 = start_seq;
    let mut i: usize = 0;
    while i < total
        invariant
            i <= total,
            len == data@.len(),
            total == (len + (AUDIO_CHUNK_BOUND as int) - 1) / (AUDIO_CHUNK_BOUND as int),
            i < total ==> AUDIO_CHUNK_BOUND * (total - 1) < len,
            len <= AUDIO_CHUNK_BOUND * total,
            seqno == seq_after(start_seq, i as int),
            r@.len() == i,
            forall|k: int|
                0 <= k < i ==> {
                    &&& (#[trigger] r@[k])@.sequence == seq_after(start_seq, k)
                    &&& r@[k]@.sample_rate == sample_rate
                    &&& r@[k]@.channels == channels
                    &&& r@[k]@.payload == data@.subrange(
                        AUDIO_CHUNK_BOUND * k,
                        if AUDIO_CHUNK_BOUND * (k + 1) <= data@.len() {
                            AUDIO_CHUNK_BOUND * (k + 1)
                        } else {
                            data@.len() as int
                        },
                    )
                },
        decreases total - i,
    {
        proof {
            assert(AUDIO_CHUNK_BOUND * i <= AUDIO_CHUNK_BOUND * (total - 1)) by (nonlinear_arith)
                requires
                    i <= total - 1,
                    AUDIO_CHUNK_BOUND == 1200,
            ;
            assert(AUDIO_CHUNK_BOUND * (i + 1) <= AUDIO_CHUNK_BOUND * total) by (nonlinear_arith)
                requires
                    i + 1 <= total,
                    AUDIO_CHUNK_BOUND == 1200,
            ;
        }
        let start: usize = AUDIO_CHUNK_BOUND * i;
        let end: usize = if len - start > AUDIO_CHUNK_BOUND {
            start + AUDIO_CHUNK_BOUND
        } else {
            len
        };
        let payload = copy_byte_range(data, start, end);
        r.push(AudioChunk { sequence: seqno, sample_rate, channels, payload });
        seqno = if seqno == u32::MAX {
            0
        } else {
            seqno + 1
        };
        i = i + 1;
    }
    r
}

fn copy_byte_range(data: &Vec<u8>, start: usize, end: usize) -> (r: Vec<u8>)
    requires
        start <= end <= data@.len(),
    ensures
        r@ == data@.subrange(start as int, end as int),
{
    let mut r: Vec<u8> = Vec::new();
    let mut i: usize = start;
    while i < end
        invariant
            start <= i <= end <= data@.len(),
            r@ == data@.subrange(start as int, i as int),
        decreases end - i,
    {
        r.push(data[i]);
        proof {
            assert(data@.subrange(start as int, i + 1) =~= data@.subrange(
                start as int,
                i as int,
            ).push(data@[i as int]));
        }
        i = i + 1;
    }
    r
}

} // verus!
