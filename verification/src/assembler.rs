//! Fragmentation and reassembly of encoded media payloads.
//!
//! The send side splits an arbitrary-length payload into chunks no
//! larger than a fixed bound. The receive side reassembles chunks for
//! the current frame id, discarding stale ids and tolerating
//! out-of-order or duplicate arrival; an incomplete assembly is
//! abandoned when a newer id arrives or when it exceeds a timeout.

use vstd::prelude::*;
use crate::protocol::VideoChunk;
use crate::wire::ChunkView;

verus! {

/// Maximum size of the payload carried by a single chunk, chosen to
/// stay safely under common path MTUs after protocol overhead.
pub const CHUNK_BOUND: usize = 4000;

/// How long an incomplete assembly may wait for its missing chunks.
pub const ASSEMBLY_TIMEOUT_MS: u64 = 200;

/// A frame id this far behind the current one counts as a wraparound
/// restart rather than a stale chunk, so id 0 is treated as newer than
/// a very large id.
pub const WRAP_RESTART_THRESHOLD: u32 = 1000;

// ---------------------------------------------------------------------
// Send side: splitting a payload into chunks
// ---------------------------------------------------------------------

/// Number of chunks a payload of the given length splits into.
pub open spec fn spec_num_chunks(len: nat) -> nat {
    ((len + CHUNK_BOUND - 1) / (CHUNK_BOUND as int)) as nat
}

/// The bytes of the `i`-th chunk of a payload.
pub open spec fn spec_chunk_piece(payload: Seq<u8>, i: int) -> Seq<u8> {
    let start = CHUNK_BOUND * i;
    let end = if CHUNK_BOUND * (i + 1) <= payload.len() {
        CHUNK_BOUND * (i + 1)
    } else {
        payload.len() as int
    };
    payload.subrange(start, end)
}

fn copy_range(data: &Vec<u8>, start: usize, end: usize) -> (r: Vec<u8>)
    requires
        start <= end <= data@.len(),
    ensures
        r@ == data@.subrange(start as int, end as int),
{
    let mut r: Vec<u8> = Vec::new();
    let mut i: usize = start;
    while i < end
        invariant
            start <= i <= end <= data@.len(),
            r@ == data@.subrange(start as int, i as int),
        decreases end - i,
    {
        r.push(data[i]);
        proof {
            assert(data@.subrange(start as int, i + 1) =~= data@.subrange(
                start as int,
                i as int,
            ).push(data@[i as int]));
        }
        i = i + 1;
    }
    r
}

/// Split an encoded payload into chunks of at most `CHUNK_BOUND` bytes,
/// tagged with the frame id, their index and the total count. The final
/// chunk of a keyframe carries the keyframe mark.
pub fn split_payload(payload: &Vec<u8>, frame_id: u32, keyframe: bool) -> (r: Vec<VideoChunk>)
    requires
        0 < payload@.len(),
        payload@.len() <= CHUNK_BOUND * (u16::MAX as int),
    ensures
        r@.len() == spec_num_chunks(payload@.len()),
        forall|i: int|
            0 <= i < r@.len() ==> {
                &&& (#[trigger] r@[i])@.frame_id == frame_id
                &&& r@[i]@.chunk_idx == i
                &&& r@[i]@.total_chunks == r@.len()
                &&& r@[i]@.is_keyframe == (keyframe && i == r@.len() - 1)
                &&& r@[i]@.payload == spec_chunk_piece(payload@, i)
            },
{
    let len = payload.len();
    let total: usize = (len + (CHUNK_BOUND - 1)) / CHUNK_BOUND;
    proof {
        assert(total == spec_num_chunks(payload@.len()));
        assert(total <= u16::MAX) by (nonlinear_arith)
            requires
                total == (len + (CHUNK_BOUND as int) - 1) / (CHUNK_BOUND as int),
                0 < len <= CHUNK_BOUND * (u16::MAX as int),
                CHUNK_BOUND == 4000,
        ;
        assert(total >= 1) by (nonlinear_arith)
            requires
                total == (len + (CHUNK_BOUND as int) - 1) / (CHUNK_BOUND as int),
                0 < len,
                CHUNK_BOUND == 4000,
        ;
        assert(CHUNK_BOUND * (total - 1) < len && len <= CHUNK_BOUND * total) by (nonlinear_arith)
            requires
                total == (len + (CHUNK_BOUND as int) - 1) / (CHUNK_BOUND as int),
                0 < len,
                CHUNK_BOUND == 4000,
        ;
    }
    let mut r: Vec<VideoChunk> = Vec::new();
    let mut i: usize = 0;
    while i < total
        invariant
            i <= total,
            total >= 1,
            total <= u16::MAX,
            len == payload@.len(),
            CHUNK_BOUND * (total - 1) < len <= CHUNK_BOUND * total,
            r@.len() == i,
            forall|k: int|
                0 <= k < i ==> {
                    &&& (#[trigger] r@[k])@.frame_id == frame_id
                    &&& r@[k]@.chunk_idx == k
                    &&& r@[k]@.total_chunks == total
                    &&& r@[k]@.is_keyframe == (keyframe && k == total - 1)
                    &&& r@[k]@.payload == spec_chunk_piece(payload@, k)
                },
        decreases total - i,
    {
        proof {
            assert(CHUNK_BOUND * i <= CHUNK_BOUND * (total - 1)) by (nonlinear_arith)
                requires
                    i <= total - 1,
                    CHUNK_BOUND == 4000,
            ;
            assert(CHUNK_BOUND * (i + 1) <= CHUNK_BOUND * total) by (nonlinear_arith)
                requires
                    i + 1 <= total,
                    CHUNK_BOUND == 4000,
            ;
        }
        let start: usize = CHUNK_BOUND * i;
        let end: usize = if len - start > CHUNK_BOUND {
            start + CHUNK_BOUND
        } else {
            len
        };
        let piece = copy_range(payload, start, end);
        let is_last = i == total - 1;
        proof {
            if !is_last {
                assert(CHUNK_BOUND * (i + 1) <= CHUNK_BOUND * (total - 1)) by (nonlinear_arith)
                    requires
                        i + 1 <= total - 1,
                        CHUNK_BOUND == 4000,
                ;
            }
            assert(piece@ == spec_chunk_piece(payload@, i as int));
        }
        r.push(VideoChunk {
            frame_id,
            chunk_idx: i as u16,
            total_chunks: total as u16,
            is_keyframe: keyframe && is_last,
            payload: piece,
        });
        i = i + 1;
    }
    r
}

// ---------------------------------------------------------------------
// Receive side: the assembler state machine
// ---------------------------------------------------------------------

/// Mathematical value of a `FrameAssembler`.
pub struct AssemblerView {
    /// Whether an assembly is in progress.
    pub active: bool,
    /// Frame id of the in-progress (or last completed) assembly.
    pub current_id: u32,
    /// Expected number of chunks of the in-progress assembly.
    pub total: u16,
    /// One slot per expected chunk, filled as chunks arrive.
    pub slots: Seq<Option<Seq<u8>>>,
    /// Number of filled slots.
    pub received: u16,
    /// When the in-progress assembly started.
    pub started_at_ms: u64,
}

pub open spec fn slot_view(s: Option<Vec<u8>>) -> Option<Seq<u8>> {
    match s {
        Some(v) => Some(v@),
        None => None,
    }
}

/// Reassembles chunks of the current frame id into the full payload.
pub struct FrameAssembler {
    pub active: bool,
    pub current_id: u32,
    pub total: u16,
    pub slots: Vec<Option<Vec<u8>>>,
    pub received: u16,
    pub started_at_ms: u64,
}

impl View for FrameAssembler {
    type V = AssemblerView;

    open spec fn view(&self) -> AssemblerView {
        AssemblerView {
            active: self.active,
            current_id: self.current_id,
            total: self.total,
            slots: self.slots@.map_values(|s: Option<Vec<u8>>| slot_view(s)),
            received: self.received,
            started_at_ms: self.started_at_ms,
        }
    }
}

/// Whether a chunk id starts a fresh assembly: strictly newer than the
/// current id, or a wraparound restart near 0 while the current id is
/// large.
pub open spec fn asm_is_newer(v: AssemblerView, id: u32) -> bool {
    id > v.current_id || (id == 0 && v.current_id > WRAP_RESTART_THRESHOLD)
}

/// Whether the in-progress assembly has exceeded its timeout.
pub open spec fn asm_timed_out(v: AssemblerView, now: u64) -> bool {
    v.active && now > v.started_at_ms + ASSEMBLY_TIMEOUT_MS
}

/// Concatenation of the filled slots in index order.
pub open spec fn concat_slots(slots: Seq<Option<Seq<u8>>>) -> Seq<u8>
    decreases slots.len(),
{
    if slots.len() == 0 {
        Seq::<u8>::empty()
    } else {
        (match slots[0] {
            Some(d) => d,
            None => Seq::<u8>::empty(),
        }) + concat_slots(slots.skip(1))
    }
}

/// The fresh state an assembly is reset to on a new chunk.
pub open spec fn asm_fresh(id: u32, total: u16, now: u64) -> AssemblerView {
    AssemblerView {
        active: true,
        current_id: id,
        total: total,
        slots: Seq::new(total as nat, |i: int| None),
        received: 0,
        started_at_ms: now,
    }
}

/// One step of the assembler: what receiving one chunk does to the
/// state, and what (if anything) it emits downstream.
pub open spec fn asm_step(v: AssemblerView, c: ChunkView, now: u64) -> (AssemblerView, Option<
    Seq<u8>,
>) {
    if c.total_chunks == 0 {
        (v, None)
    } else {
        let v1 = if !v.active || asm_is_newer(v, c.frame_id) || asm_timed_out(v, now) {
            asm_fresh(c.frame_id, c.total_chunks, now)
        } else {
            v
        };
        if c.frame_id != v1.current_id {
            (v1, None)
        } else if c.chunk_idx < v1.total && v1.slots[c.chunk_idx as int] is None {
            let slots2 = v1.slots.update(c.chunk_idx as int, Some(c.payload));
            if v1.received + 1 == v1.total {
                (
                    AssemblerView {
                        active: false,
                        current_id: v1.current_id,
                        total: 0,
                        slots: Seq::<Option<Seq<u8>>>::empty(),
                        received: 0,
                        started_at_ms: v1.started_at_ms,
                    },
                    Some(concat_slots(slots2)),
                )
            } else {
                (
                    AssemblerView {
                        slots: slots2,
                        received: (v1.received + 1) as u16,
                        ..v1
                    },
                    None,
                )
            }
        } else {
            (v1, None)
        }
    }
}

impl FrameAssembler {
    /// Structural invariant of the assembler state.
    pub open spec fn wf(&self) -> bool {
        let v = self@;
        &&& v.slots.len() == v.total
        &&& v.active ==> v.received < v.total
        &&& !v.active ==> v.total == 0 && v.received == 0
    }

    /// A fresh assembler with no assembly in progress.
    pub fn new() -> (r: FrameAssembler)
        ensures
            r.wf(),
            !r@.active,
            r@.current_id == 0,
    {
        FrameAssembler {
            active: false,
            current_id: 0,
            total: 0,
            slots: Vec::new(),
            received: 0,
            started_at_ms: 0,
        }
    }

    /// Drop any partial assembly state.
    pub fn reset(&mut self)
        ensures
            final(self).wf(),
            !final(self)@.active,
            final(self)@.current_id == old(self)@.current_id,
    {
        self.active = false;
        self.total = 0;
        self.slots = Vec::new();
        self.received = 0;
        proof {
            assert(self@.slots =~= Seq::<Option<Seq<u8>>>::empty());
        }
    }

    /// Process one received chunk at the given clock reading; returns
    /// the fully reassembled payload when this chunk completes the set.
    pub fn add_chunk(&mut self, chunk: &VideoChunk, now_ms: u64) -> (r: Option<Vec<u8>>)
        requires
            old(self).wf(),
        ensures
            final(self).wf(),
            final(self)@ == asm_step(old(self)@, chunk@, now_ms).0,
            match r {
                Some(data) => asm_step(old(self)@, chunk@, now_ms).1 == Some(data@),
                None => asm_step(old(self)@, chunk@, now_ms).1 is None,
            },
    {
        let ghost pre = self@;
        if chunk.total_chunks == 0 {
            return None;
        }
        let timed_out = self.active && now_ms > ASSEMBLY_TIMEOUT_MS && now_ms - ASSEMBLY_TIMEOUT_MS
            > self.started_at_ms;
        let is_newer = chunk.frame_id > self.current_id || (chunk.frame_id == 0
            && self.current_id > WRAP_RESTART_THRESHOLD);
        if !self.active || is_newer || timed_out {
            self.active = true;
            self.current_id = chunk.frame_id;
            self.total = chunk.total_chunks;
            self.received = 0;
            self.started_at_ms = now_ms;
            let mut slots: Vec<Option<Vec<u8>>> = Vec::new();
            let mut k: usize = 0;
            while k < chunk.total_chunks as usize
                invariant
                    k <= chunk.total_chunks,
                    slots@.len() == k,
                    forall|j: int| 0 <= j < k ==> slots@[j] is None,
                decreases chunk.total_chunks - k,
            {
                slots.push(None);
                k = k + 1;
            }
            self.slots = slots;
            proof {
                assert(self@.slots =~= asm_fresh(chunk.frame_id, chunk.total_chunks, now_ms).slots);
                assert(self@ == asm_fresh(chunk.frame_id, chunk.total_chunks, now_ms));
            }
        }
        let ghost v1 = self@;
        if chunk.frame_id != self.current_id {
            return None;
        }
        let idx = chunk.chunk_idx as usize;
        if idx < self.total as usize && self.slots[idx].is_none() {
            let data = copy_range(&chunk.payload, 0, chunk.payload.len());
            proof {
                assert(data@ =~= chunk@.payload);
            }
            self.slots[idx] = Some(data);
            proof {
                assert(self@.slots =~= v1.slots.update(idx as int, Some(chunk@.payload)));
            }
            self.received = self.received + 1;
            if self.received == self.total {
                let out = self.concat_filled();
                self.active = false;
                self.total = 0;
                self.slots = Vec::new();
                self.received = 0;
                proof {
                    assert(self@.slots =~= Seq::<Option<Seq<u8>>>::empty());
                    assert(self@ == asm_step(pre, chunk@, now_ms).0);
                }
                return Some(out);
            }
            proof {
                assert(self@ == asm_step(pre, chunk@, now_ms).0);
            }
            return None;
        }
        proof {
            assert(self@ == asm_step(pre, chunk@, now_ms).0);
        }
        None
    }

    /// Concatenate the filled slots in index order.
    fn concat_filled(&self) -> (r: Vec<u8>)
        ensures
            r@ == concat_slots(self@.slots),
    {
        let mut out: Vec<u8> = Vec::new();
        let mut i: usize = 0;
        while i < self.slots.len()
            invariant
                i <= self@.slots.len(),
                self@.slots.len() == self.slots@.len(),
                out@ == concat_slots(self@.slots.take(i as int)),
            decreases self.slots@.len() - i,
        {
            match &self.slots[i] {
                Some(d) => {
                    let mut j: usize = 0;
                    while j < d.len()
                        invariant
                            j <= d@.len(),
                            out@ == concat_slots(self@.slots.take(i as int)) + d@.take(j as int),
                        decreases d@.len() - j,
                    {
                        out.push(d[j]);
                        proof {
                            assert(d@.take(j + 1) =~= d@.take(j as int).push(d@[j as int]));
                            assert(concat_slots(self@.slots.take(i as int)) + d@.take(j + 1)
                                =~= (concat_slots(self@.slots.take(i as int)) + d@.take(
                                j as int,
                            )).push(d@[j as int]));
                        }
                        j = j + 1;
                    }
                    proof {
                        assert(d@.take(d@.len() as int) =~= d@);
                    }
                }
                None => {}
            }
            proof {
                lemma_concat_slots_take_step(self@.slots, i as int);
            }
            i = i + 1;
        }
        proof {
            assert(self@.slots.take(self@.slots.len() as int) =~= self@.slots);
        }
        out
    }
}

// ---------------------------------------------------------------------
// Laws of the assembler
// ---------------------------------------------------------------------

/// Number of filled slots.
pub open spec fn filled_count(slots: Seq<Option<Seq<u8>>>) -> nat
    decreases slots.len(),
{
    if slots.len() == 0 {
        0
    } else {
        (if slots[0] is Some {
            1nat
        } else {
            0nat
        }) + filled_count(slots.skip(1))
    }
}

pub proof fn lemma_filled_count_update(slots: Seq<Option<Seq<u8>>>, i: int, d: Seq<u8>)
    requires
        0 <= i < slots.len(),
        slots[i] is None,
    ensures
        filled_count(slots.update(i, Some(d))) == filled_count(slots) + 1,
    decreases slots.len(),
{
    let s2 = slots.update(i, Some(d));
    if i == 0 {
        assert(s2[0] == Some(d));
        assert(s2.skip(1) =~= slots.skip(1));
    } else {
        assert(s2[0] == slots[0]);
        assert(s2.skip(1) =~= slots.skip(1).update(i - 1, Some(d)));
        lemma_filled_count_update(slots.skip(1), i - 1, d);
    }
}

pub proof fn lemma_filled_count_le(slots: Seq<Option<Seq<u8>>>)
    ensures
        filled_count(slots) <= slots.len(),
    decreases slots.len(),
{
    if slots.len() > 0 {
        lemma_filled_count_le(slots.skip(1));
    }
}

/// When every slot counts as filled, every slot is filled.
pub proof fn lemma_filled_count_full(slots: Seq<Option<Seq<u8>>>)
    requires
        filled_count(slots) == slots.len(),
    ensures
        forall|i: int| 0 <= i < slots.len() ==> slots[i] is Some,
    decreases slots.len(),
{
    if slots.len() > 0 {
        lemma_filled_count_le(slots.skip(1));
        lemma_filled_count_full(slots.skip(1));
        assert forall|i: int| 0 <= i < slots.len() implies slots[i] is Some by {
            if i > 0 {
                assert(slots.skip(1)[i - 1] is Some);
            }
        }
    }
}

pub proof fn lemma_filled_count_zero(slots: Seq<Option<Seq<u8>>>)
    requires
        forall|i: int| 0 <= i < slots.len() ==> slots[i] is None,
    ensures
        filled_count(slots) == 0,
    decreases slots.len(),
{
    if slots.len() > 0 {
        assert(slots.skip(1).len() == slots.len() - 1);
        assert(forall|i: int| 0 <= i < slots.skip(1).len() ==> slots.skip(1)[i] is None);
        lemma_filled_count_zero(slots.skip(1));
    }
}

/// The clamped byte offset where the `k`-th chunk of a payload starts.
pub open spec fn piece_start(plen: nat, k: int) -> int {
    if CHUNK_BOUND * k <= plen {
        CHUNK_BOUND * k
    } else {
        plen as int
    }
}

/// Concatenating the pieces from `k` on gives the payload from the
/// `k`-th chunk boundary on.
pub proof fn lemma_concat_pieces(p: Seq<u8>, slots: Seq<Option<Seq<u8>>>, k: int)
    requires
        0 < p.len(),
        slots.len() == spec_num_chunks(p.len()),
        0 <= k <= slots.len(),
        forall|i: int|
            0 <= i < slots.len() ==> slots[i] == Some(#[trigger] spec_chunk_piece(p, i)),
    ensures
        concat_slots(slots.skip(k)) == p.skip(piece_start(p.len(), k)),
    decreases slots.len() - k,
{
    let n = slots.len() as int;
    assert(CHUNK_BOUND * (n - 1) < p.len() <= CHUNK_BOUND * n) by (nonlinear_arith)
        requires
            n == spec_num_chunks(p.len()),
            0 < p.len(),
            CHUNK_BOUND == 4000,
    ;
    if k == n {
        assert(slots.skip(k) =~= Seq::<Option<Seq<u8>>>::empty());
        assert(p.skip(piece_start(p.len(), k)) =~= Seq::<u8>::empty());
    } else {
        lemma_concat_pieces(p, slots, k + 1);
        assert(CHUNK_BOUND * k <= CHUNK_BOUND * (n - 1)) by (nonlinear_arith)
            requires
                k <= n - 1,
                CHUNK_BOUND == 4000,
        ;
        assert(slots.skip(k)[0] == slots[k]);
        assert(slots.skip(k).skip(1) =~= slots.skip(k + 1));
        assert(spec_chunk_piece(p, k) + p.skip(piece_start(p.len(), k + 1)) =~= p.skip(
            piece_start(p.len(), k),
        ));
    }
}

/// A state consistent with reassembling payload `p` under frame id
/// `id`: the assembly is in progress, sized to the split of `p`, and
/// every filled slot holds exactly its piece of `p`.
pub open spec fn asm_consistent(v: AssemblerView, p: Seq<u8>, id: u32) -> bool {
    &&& v.active
    &&& v.current_id == id
    &&& v.total as nat == spec_num_chunks(p.len())
    &&& v.slots.len() == v.total as nat
    &&& v.received < v.total
    &&& v.received as nat == filled_count(v.slots)
    &&& forall|i: int|
        0 <= i < v.slots.len() ==> ((#[trigger] v.slots[i]) matches Some(d) ==> d
            == spec_chunk_piece(p, i))
}

/// A chunk that the split of payload `p` under id `id` can produce.
pub open spec fn chunk_of_payload(c: ChunkView, p: Seq<u8>, id: u32) -> bool {
    &&& c.frame_id == id
    &&& c.total_chunks as nat == spec_num_chunks(p.len())
    &&& (c.chunk_idx as nat) < spec_num_chunks(p.len())
    &&& c.payload == spec_chunk_piece(p, c.chunk_idx as int)
}

/// Starting fresh on a chunk of `p`: the step leaves a consistent
/// one-slot-filled assembly, or emits `p` whole when it is the only
/// chunk.
pub proof fn lemma_step_fresh(v: AssemblerView, p: Seq<u8>, id: u32, c: ChunkView, now: u64)
    requires
        0 < p.len(),
        spec_num_chunks(p.len()) <= u16::MAX,
        chunk_of_payload(c, p, id),
        !v.active || asm_is_newer(v, id) || asm_timed_out(v, now),
    ensures
        spec_num_chunks(p.len()) > 1 ==> {
            &&& asm_consistent(asm_step(v, c, now).0, p, id)
            &&& asm_step(v, c, now).0.received == 1
            &&& asm_step(v, c, now).0.slots[c.chunk_idx as int] is Some
            &&& asm_step(v, c, now).0.started_at_ms == now
            &&& asm_step(v, c, now).1 is None
        },
        spec_num_chunks(p.len()) == 1 ==> {
            &&& asm_step(v, c, now).1 == Some(p)
            &&& !asm_step(v, c, now).0.active
        },
{
    let n = spec_num_chunks(p.len());
    let v1 = asm_fresh(c.frame_id, c.total_chunks, now);
    assert(forall|i: int| 0 <= i < v1.slots.len() ==> v1.slots[i] is None);
    lemma_filled_count_zero(v1.slots);
    let slots2 = v1.slots.update(c.chunk_idx as int, Some(c.payload));
    lemma_filled_count_update(v1.slots, c.chunk_idx as int, c.payload);
    if n == 1 {
        assert(forall|i: int|
            0 <= i < slots2.len() ==> slots2[i] == Some(#[trigger] spec_chunk_piece(p, i)));
        lemma_concat_pieces(p, slots2, 0);
        assert(slots2.skip(0) =~= slots2);
        assert(p.skip(piece_start(p.len(), 0)) =~= p);
    }
}

/// Feeding a consistent assembly one more chunk of the same payload:
/// a duplicate changes nothing, a new index fills its slot, and the
/// last missing index completes the assembly and emits exactly the
/// original payload.
pub proof fn lemma_step_continue(v: AssemblerView, p: Seq<u8>, id: u32, c: ChunkView, now: u64)
    requires
        0 < p.len(),
        spec_num_chunks(p.len()) <= u16::MAX,
        asm_consistent(v, p, id),
        !asm_timed_out(v, now),
        chunk_of_payload(c, p, id),
    ensures
        v.slots[c.chunk_idx as int] is Some ==> asm_step(v, c, now) == (v, Option::<Seq<u8>>::None),
        v.slots[c.chunk_idx as int] is None && v.received + 1 < v.total ==> {
            &&& asm_consistent(asm_step(v, c, now).0, p, id)
            &&& asm_step(v, c, now).0.received == v.received + 1
            &&& asm_step(v, c, now).0.slots == v.slots.update(c.chunk_idx as int, Some(c.payload))
            &&& asm_step(v, c, now).0.started_at_ms == v.started_at_ms
            &&& asm_step(v, c, now).1 is None
        },
        v.slots[c.chunk_idx as int] is None && v.received + 1 == v.total ==> {
            &&& asm_step(v, c, now).1 == Some(p)
            &&& !asm_step(v, c, now).0.active
        },
{
    assert(!asm_is_newer(v, c.frame_id));
    if v.slots[c.chunk_idx as int] is None {
        let slots2 = v.slots.update(c.chunk_idx as int, Some(c.payload));
        lemma_filled_count_update(v.slots, c.chunk_idx as int, c.payload);
        if v.received + 1 == v.total {
            lemma_filled_count_full(slots2);
            assert(forall|i: int|
                0 <= i < slots2.len() ==> slots2[i] == Some(#[trigger] spec_chunk_piece(p, i)));
            lemma_concat_pieces(p, slots2, 0);
            assert(slots2.skip(0) =~= slots2);
            assert(p.skip(piece_start(p.len(), 0)) =~= p);
        }
    }
}

/// Staleness rejection: once an assembly is in progress for id `K`,
/// a chunk bearing an older id (and not a wraparound restart) is
/// discarded and does not affect the in-progress assembly.
pub proof fn lemma_staleness_rejected(v: AssemblerView, c: ChunkView, now: u64)
    requires
        v.active,
        !asm_timed_out(v, now),
        c.frame_id < v.current_id,
        !(c.frame_id == 0 && v.current_id > WRAP_RESTART_THRESHOLD),
    ensures
        asm_step(v, c, now).0 == v,
        asm_step(v, c, now).1 is None,
{
}

/// Timeout abandonment: once the in-progress assembly has timed out,
/// the next chunk is handled exactly as if no assembly were in
/// progress, so no partial state leaks into the fresh assembly.
pub proof fn lemma_timeout_discards(v: AssemblerView, c: ChunkView, now: u64)
    requires
        asm_timed_out(v, now),
        c.total_chunks > 0,
    ensures
        asm_step(v, c, now) == asm_step(
            AssemblerView {
                active: false,
                current_id: v.current_id,
                total: 0,
                slots: Seq::<Option<Seq<u8>>>::empty(),
                received: 0,
                started_at_ms: v.started_at_ms,
            },
            c,
            now,
        ),
{
}

/// One run of the assembler over a sequence of chunks: the final state
/// and everything emitted along the way.
pub open spec fn asm_run(v: AssemblerView, cs: Seq<ChunkView>, now: u64) -> (AssemblerView, Seq<
    Seq<u8>,
>)
    decreases cs.len(),
{
    if cs.len() == 0 {
        (v, Seq::<Seq<u8>>::empty())
    } else {
        let first = asm_step(v, cs[0], now);
        let rest = asm_run(first.0, cs.skip(1), now);
        (
            rest.0,
            (match first.1 {
                Some(out) => seq![out],
                None => Seq::<Seq<u8>>::empty(),
            }) + rest.1,
        )
    }
}

/// Helper for the reassembly law: delivering the missing chunks of a
/// consistent assembly, one index each, completes it exactly at the
/// last chunk and emits the payload once.
proof fn lemma_run_completes(v: AssemblerView, p: Seq<u8>, id: u32, cs: Seq<ChunkView>, now: u64)
    requires
        0 < p.len(),
        spec_num_chunks(p.len()) <= u16::MAX,
        asm_consistent(v, p, id),
        !asm_timed_out(v, now),
        forall|k: int| 0 <= k < cs.len() ==> chunk_of_payload(#[trigger] cs[k], p, id),
        forall|k: int| 0 <= k < cs.len() ==> v.slots[#[trigger] cs[k].chunk_idx as int] is None,
        forall|k1: int, k2: int|
            0 <= k1 < k2 < cs.len() ==> (#[trigger] cs[k1]).chunk_idx != (#[trigger] cs[k2]).chunk_idx,
        v.received + cs.len() == v.total,
    ensures
        asm_run(v, cs, now).1 == seq![p],
        forall|k: int| 0 <= k < cs.len() ==> #[trigger] asm_run(v, cs.take(k), now).1 =~= Seq::<
            Seq<u8>,
        >::empty(),
    decreases cs.len(),
{
    assert(chunk_of_payload(cs[0], p, id));
    assert(v.slots[cs[0].chunk_idx as int] is None);
    lemma_step_continue(v, p, id, cs[0], now);
    let first = asm_step(v, cs[0], now);
    if cs.len() == 1 {
        assert(v.received + 1 == v.total);
        assert(first.1 == Some(p));
        assert(cs.skip(1) =~= Seq::<ChunkView>::empty());
        assert(asm_run(first.0, cs.skip(1), now).1 == Seq::<Seq<u8>>::empty());
        assert(asm_run(v, cs, now).1 == seq![p] + asm_run(first.0, cs.skip(1), now).1);
        assert(asm_run(v, cs, now).1 =~= seq![p]);
        assert(cs.take(0) =~= Seq::<ChunkView>::empty());
        assert forall|k: int| 0 <= k < cs.len() implies #[trigger] asm_run(v, cs.take(k), now).1
            =~= Seq::<Seq<u8>>::empty() by {
            assert(k == 0);
            assert(cs.take(0) =~= Seq::<ChunkView>::empty());
        }
    } else {
        assert(v.received + 1 < v.total);
        let v2 = first.0;
        assert forall|k: int| 0 <= k < cs.skip(1).len() implies v2.slots[#[trigger] cs.skip(
            1,
        )[k].chunk_idx as int] is None by {
            assert(cs.skip(1)[k] == cs[k + 1]);
            assert(cs[k + 1].chunk_idx != cs[0].chunk_idx);
            assert(v.slots[cs[k + 1].chunk_idx as int] is None);
        }
        lemma_run_completes(v2, p, id, cs.skip(1), now);
        assert(asm_run(v, cs, now).1 =~= asm_run(v2, cs.skip(1), now).1);
        assert forall|k: int| 0 <= k < cs.len() implies #[trigger] asm_run(v, cs.take(k), now).1
            =~= Seq::<Seq<u8>>::empty() by {
            if k == 0 {
                assert(cs.take(0) =~= Seq::<ChunkView>::empty());
            } else {
                assert(cs.take(k)[0] == cs[0]);
                assert(cs.take(k).skip(1) =~= cs.skip(1).take(k - 1));
                assert(asm_run(v2, cs.skip(1).take(k - 1), now).1 =~= Seq::<Seq<u8>>::empty());
                assert(asm_run(v, cs.take(k), now).1 =~= asm_run(v2, cs.skip(1).take(k - 1), now).1);
            }
        }
    }
}

/// Reassembly correctness: a payload split into its chunks and
/// delivered in any order, each index exactly once, reassembles to
/// exactly the original bytes, emitted exactly once, at the moment the
/// last distinct index arrives.
pub proof fn lemma_reassembly_correct(
    v0: AssemblerView,
    p: Seq<u8>,
    id: u32,
    cs: Seq<ChunkView>,
    now: u64,
)
    requires
        0 < p.len(),
        spec_num_chunks(p.len()) <= u16::MAX,
        !v0.active || asm_is_newer(v0, id) || asm_timed_out(v0, now),
        cs.len() == spec_num_chunks(p.len()),
        forall|k: int| 0 <= k < cs.len() ==> chunk_of_payload(#[trigger] cs[k], p, id),
        forall|k1: int, k2: int|
            0 <= k1 < k2 < cs.len() ==> (#[trigger] cs[k1]).chunk_idx != (#[trigger] cs[k2]).chunk_idx,
    ensures
        asm_run(v0, cs, now).1 == seq![p],
        forall|k: int| 0 <= k < cs.len() ==> #[trigger] asm_run(v0, cs.take(k), now).1 =~= Seq::<
            Seq<u8>,
        >::empty(),
{
    assert(chunk_of_payload(cs[0], p, id));
    lemma_step_fresh(v0, p, id, cs[0], now);
    let first = asm_step(v0, cs[0], now);
    if cs.len() == 1 {
        assert(first.1 == Some(p));
        assert(cs.skip(1) =~= Seq::<ChunkView>::empty());
        assert(asm_run(first.0, cs.skip(1), now).1 == Seq::<Seq<u8>>::empty());
        assert(asm_run(v0, cs, now).1 == seq![p] + asm_run(first.0, cs.skip(1), now).1);
        assert(asm_run(v0, cs, now).1 =~= seq![p]);
        assert forall|k: int| 0 <= k < cs.len() implies #[trigger] asm_run(v0, cs.take(k), now).1
            =~= Seq::<Seq<u8>>::empty() by {
            assert(k == 0);
            assert(cs.take(0) =~= Seq::<ChunkView>::empty());
        }
    } else {
        let v2 = first.0;
        assert(v2.slots == Seq::new(spec_num_chunks(p.len()), |i: int| Option::<Seq<u8>>::None)
            .update(cs[0].chunk_idx as int, Some(cs[0].payload)));
        assert forall|k: int| 0 <= k < cs.skip(1).len() implies v2.slots[#[trigger] cs.skip(
            1,
        )[k].chunk_idx as int] is None by {
            assert(cs.skip(1)[k] == cs[k + 1]);
            assert(cs[k + 1].chunk_idx != cs[0].chunk_idx);
        }
        lemma_run_completes(v2, p, id, cs.skip(1), now);
        assert(asm_run(v0, cs, now).1 =~= asm_run(v2, cs.skip(1), now).1);
        assert forall|k: int| 0 <= k < cs.len() implies #[trigger] asm_run(v0, cs.take(k), now).1
            =~= Seq::<Seq<u8>>::empty() by {
            if k == 0 {
                assert(cs.take(0) =~= Seq::<ChunkView>::empty());
            } else {
                assert(cs.take(k)[0] == cs[0]);
                assert(cs.take(k).skip(1) =~= cs.skip(1).take(k - 1));
                assert(asm_run(v2, cs.skip(1).take(k - 1), now).1 =~= Seq::<Seq<u8>>::empty());
                assert(asm_run(v0, cs.take(k), now).1 =~= asm_run(
                    v2,
                    cs.skip(1).take(k - 1),
                    now,
                ).1);
            }
        }
    }
}

/// Concatenating one more slot extends the concatenation by that
/// slot's bytes.
pub proof fn lemma_concat_slots_take_step(slots: Seq<Option<Seq<u8>>>, i: int)
    requires
        0 <= i < slots.len(),
    ensures
        concat_slots(slots.take(i + 1)) == concat_slots(slots.take(i)) + (match slots[i] {
            Some(d) => d,
            None => Seq::<u8>::empty(),
        }),
    decreases i,
{
    if i == 0 {
        assert(slots.take(1)[0] == slots[0]);
        assert(slots.take(1).skip(1) =~= Seq::<Option<Seq<u8>>>::empty());
        assert(slots.take(0) =~= Seq::<Option<Seq<u8>>>::empty());
        assert(concat_slots(slots.take(1)) =~= concat_slots(slots.take(0)) + (match slots[0] {
            Some(d) => d,
            None => Seq::<u8>::empty(),
        }));
    } else {
        lemma_concat_slots_take_step(slots.skip(1), i - 1);
        assert(slots.take(i + 1)[0] == slots[0]);
        assert(slots.take(i)[0] == slots[0]);
        assert(slots.take(i + 1).skip(1) =~= slots.skip(1).take(i));
        assert(slots.take(i).skip(1) =~= slots.skip(1).take(i - 1));
        assert(slots.skip(1)[i - 1] == slots[i]);
        assert(concat_slots(slots.take(i + 1)) =~= concat_slots(slots.take(i)) + (match slots[i] {
            Some(d) => d,
            None => Seq::<u8>::empty(),
        }));
    }
}

} // verus!
