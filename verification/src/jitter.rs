//! Jitter buffer: a small ordered holding area for decoded units.
//!
//! Units arrive stamped with a frame or sequence id and are kept in
//! ascending id order. A unit at or behind the last released id is
//! dropped on arrival, as is a duplicate of a buffered id. One unit is
//! released per poll once the buffer has reached its target depth or
//! the oldest unit has waited at least the minimum hold delay; the
//! release watermark only ever moves forward.

use vstd::prelude::*;

verus! {

/// Target number of buffered units before release starts.
pub const JITTER_TARGET_DEPTH: usize = 2;

/// Minimum time a unit is held when the buffer is under its target
/// depth.
pub const JITTER_MIN_DELAY_MS: u64 = 20;

/// One decoded unit waiting in the buffer.
pub struct FrameUnit {
    /// Frame or sequence id of the unit.
    pub id: u32,
    /// Decoded bytes of the unit.
    pub payload: Vec<u8>,
    /// Pixel width for video units; 0 for audio.
    pub width: u32,
    /// Pixel height for video units; 0 for audio.
    pub height: u32,
}

/// Mathematical value of a `FrameUnit`.
pub struct UnitView {
    pub id: u32,
    pub payload: Seq<u8>,
    pub width: u32,
    pub height: u32,
}

impl View for FrameUnit {
    type V = UnitView;

    open spec fn view(&self) -> UnitView {
        UnitView { id: self.id, payload: self.payload@, width: self.width, height: self.height }
    }
}

/// Mathematical value of a `JitterBuffer`.
pub struct JitterView {
    pub entries: Seq<UnitView>,
    pub arrivals: Seq<u64>,
    pub target_depth: nat,
    pub min_delay_ms: u64,
    pub last_released_id: u32,
    pub released_any: bool,
}

/// Jitter buffer holding decoded units until their release time.
pub struct JitterBuffer {
    pub entries: Vec<FrameUnit>,
    pub arrivals: Vec<u64>,
    pub target_depth: usize,
    pub min_delay_ms: u64,
    pub last_released_id: u32,
    pub released_any: bool,
}

impl View for JitterBuffer {
    type V = JitterView;

    open spec fn view(&self) -> JitterView {
        JitterView {
            entries: self.entries@.map_values(|u: FrameUnit| u@),
            arrivals: self.arrivals@,
            target_depth: self.target_depth as nat,
            min_delay_ms: self.min_delay_ms,
            last_released_id: self.last_released_id,
            released_any: self.released_any,
        }
    }
}

/// Invariant of the buffer: one arrival stamp per unit, ids strictly
/// ascending, and everything buffered strictly ahead of the release
/// watermark once anything has been released.
pub open spec fn jb_wf(v: JitterView) -> bool {
    &&& v.entries.len() == v.arrivals.len()
    &&& 1 <= v.target_depth
    &&& v.target_depth <= 0x1000_0000
    &&& forall|i: int, j: int|
        0 <= i < j < v.entries.len() ==> (#[trigger] v.entries[i]).id < (
        #[trigger] v.entries[j]).id
    &&& v.released_any ==> forall|i: int|
        0 <= i < v.entries.len() ==> (#[trigger] v.entries[i]).id > v.last_released_id
}

/// Whether some buffered unit already carries this id.
pub open spec fn jb_has_id(entries: Seq<UnitView>, id: u32) -> bool {
    exists|i: int| 0 <= i < entries.len() && (#[trigger] entries[i]).id == id
}

/// The position a new id is inserted at to keep the ids ascending:
/// after every buffered id below it.
pub open spec fn insert_pos(entries: Seq<UnitView>, id: u32) -> int
    decreases entries.len(),
{
    if entries.len() == 0 {
        0
    } else if entries[0].id < id {
        1 + insert_pos(entries.skip(1), id)
    } else {
        0
    }
}

pub proof fn lemma_insert_pos_bounds(entries: Seq<UnitView>, id: u32)
    requires
        forall|i: int, j: int|
            0 <= i < j < entries.len() ==> (#[trigger] entries[i]).id < (
            #[trigger] entries[j]).id,
    ensures
        0 <= insert_pos(entries, id) <= entries.len(),
        forall|j: int| 0 <= j < insert_pos(entries, id) ==> (#[trigger] entries[j]).id < id,
        forall|j: int|
            insert_pos(entries, id) <= j < entries.len() ==> (#[trigger] entries[j]).id >= id,
    decreases entries.len(),
{
    if entries.len() > 0 {
        let tail = entries.skip(1);
        assert(forall|i: int, j: int|
            0 <= i < j < tail.len() ==> (#[trigger] tail[i]).id < (#[trigger] tail[j]).id);
        lemma_insert_pos_bounds(tail, id);
        if entries[0].id < id {
            assert forall|j: int| 0 <= j < insert_pos(entries, id) implies (
            #[trigger] entries[j]).id < id by {
                if j > 0 {
                    assert(tail[j - 1].id < id);
                }
            }
            assert forall|j: int|
                insert_pos(entries, id) <= j < entries.len() implies (#[trigger] entries[j]).id
                >= id by {
                assert(tail[j - 1].id >= id);
            }
        } else {
            assert forall|j: int| 0 <= j < entries.len() implies (#[trigger] entries[j]).id
                >= id by {
                if j > 0 {
                    assert(entries[0].id < entries[j].id);
                }
            }
        }
    }
}

/// What pushing one unit at one clock reading does to the buffer.
pub open spec fn jb_push(v: JitterView, u: UnitView, now: u64) -> JitterView {
    if v.released_any && u.id <= v.last_released_id {
        v
    } else if jb_has_id(v.entries, u.id) {
        v
    } else {
        let pos = insert_pos(v.entries, u.id);
        let e2 = v.entries.insert(pos, u);
        let a2 = v.arrivals.insert(pos, now);
        let cap = 2 * v.target_depth;
        let excess = if e2.len() > cap {
            e2.len() - cap
        } else {
            0
        };
        JitterView { entries: e2.skip(excess as int), arrivals: a2.skip(excess as int), ..v }
    }
}

/// What one poll at one clock reading does to the buffer, and what it
/// releases.
pub open spec fn jb_pop(v: JitterView, now: u64) -> (JitterView, Option<UnitView>) {
    if v.entries.len() == 0 {
        (v, None)
    } else if v.entries.len() >= v.target_depth || now >= v.arrivals[0] + v.min_delay_ms {
        (
            JitterView {
                entries: v.entries.skip(1),
                arrivals: v.arrivals.skip(1),
                last_released_id: v.entries[0].id,
                released_any: true,
                ..v
            },
            Some(v.entries[0]),
        )
    } else {
        (v, None)
    }
}

/// Pushing preserves the buffer invariant and never moves the release
/// watermark.
pub proof fn lemma_jb_push_wf(v: JitterView, u: UnitView, now: u64)
    requires
        jb_wf(v),
    ensures
        jb_wf(jb_push(v, u, now)),
        jb_push(v, u, now).last_released_id == v.last_released_id,
        jb_push(v, u, now).released_any == v.released_any,
        jb_push(v, u, now).target_depth == v.target_depth,
        jb_push(v, u, now).min_delay_ms == v.min_delay_ms,
{
    if v.released_any && u.id <= v.last_released_id {
    } else if jb_has_id(v.entries, u.id) {
    } else {
        lemma_insert_pos_bounds(v.entries, u.id);
        let pos = insert_pos(v.entries, u.id);
        let e2 = v.entries.insert(pos, u);
        let cap = 2 * v.target_depth;
        let excess = if e2.len() > cap {
            e2.len() - cap
        } else {
            0
        };
        let post = jb_push(v, u, now);
        assert(post.entries == e2.skip(excess as int));
        assert forall|x: int, y: int|
            0 <= x < y < e2.len() implies (#[trigger] e2[x]).id < (#[trigger] e2[y]).id by {
            if x < pos && y == pos {
                assert(e2[x] == v.entries[x]);
            } else if x == pos && y > pos {
                assert(e2[y] == v.entries[y - 1]);
                assert(v.entries[y - 1].id >= u.id);
                assert(v.entries[y - 1].id != u.id);
            } else if x < pos && y > pos {
                assert(e2[x] == v.entries[x]);
                assert(e2[y] == v.entries[y - 1]);
                if x < y - 1 {
                } else {
                    assert(x == y - 1);
                    assert(v.entries[x].id < u.id);
                    assert(v.entries[y - 1].id >= u.id);
                }
            } else if x < pos && y < pos {
                assert(e2[x] == v.entries[x]);
                assert(e2[y] == v.entries[y]);
            } else if x > pos && y > pos {
                assert(e2[x] == v.entries[x - 1]);
                assert(e2[y] == v.entries[y - 1]);
            }
        }
        assert forall|x: int, y: int|
            0 <= x < y < post.entries.len() implies (#[trigger] post.entries[x]).id < (
        #[trigger] post.entries[y]).id by {
            assert(post.entries[x] == e2[x + excess]);
            assert(post.entries[y] == e2[y + excess]);
        }
        if v.released_any {
            assert forall|x: int|
                0 <= x < post.entries.len() implies (#[trigger] post.entries[x]).id
                > v.last_released_id by {
                assert(post.entries[x] == e2[x + excess]);
                if x + excess < pos {
                    assert(e2[x + excess] == v.entries[x + excess]);
                } else if x + excess > pos {
                    assert(e2[x + excess] == v.entries[x + excess - 1]);
                }
            }
        }
    }
}

/// Polling preserves the buffer invariant; a released unit lies
/// strictly beyond the old watermark and becomes the new watermark.
pub proof fn lemma_jb_pop_wf(v: JitterView, now: u64)
    requires
        jb_wf(v),
    ensures
        jb_wf(jb_pop(v, now).0),
        jb_pop(v, now).0.target_depth == v.target_depth,
        jb_pop(v, now).0.min_delay_ms == v.min_delay_ms,
        match jb_pop(v, now).1 {
            Some(u) => {
                &&& (v.released_any ==> u.id > v.last_released_id)
                &&& jb_pop(v, now).0.last_released_id == u.id
                &&& jb_pop(v, now).0.released_any
            },
            None => jb_pop(v, now).0 == v,
        },
{
    let post = jb_pop(v, now).0;
    if v.entries.len() > 0 && (v.entries.len() >= v.target_depth || now >= v.arrivals[0]
        + v.min_delay_ms) {
        assert forall|x: int|
            0 <= x < post.entries.len() implies (#[trigger] post.entries[x]).id
            > post.last_released_id by {
            assert(post.entries[x] == v.entries[x + 1]);
            assert(v.entries[0].id < v.entries[x + 1].id);
        }
    }
}

/// One operation applied to the jitter buffer.
pub enum JitterOp {
    Push { unit: UnitView, now: u64 },
    Pop { now: u64 },
}

/// Run a sequence of pushes and polls; collect the released ids in
/// order.
pub open spec fn jb_run(v: JitterView, ops: Seq<JitterOp>) -> (JitterView, Seq<u32>)
    decreases ops.len(),
{
    if ops.len() == 0 {
        (v, Seq::<u32>::empty())
    } else {
        let stepped = jb_step_op(v, ops[0]);
        let rest = jb_run(stepped.0, ops.skip(1));
        (
            rest.0,
            (match stepped.1 {
                Some(id) => seq![id],
                None => Seq::<u32>::empty(),
            }) + rest.1,
        )
    }
}

/// One operation: the state after it and the id it released, if any.
pub open spec fn jb_step_op(v: JitterView, op: JitterOp) -> (JitterView, Option<u32>) {
    match op {
        JitterOp::Push { unit, now } => (jb_push(v, unit, now), None),
        JitterOp::Pop { now } => (
            jb_pop(v, now).0,
            match jb_pop(v, now).1 {
                Some(u) => Some(u.id),
                None => None,
            },
        ),
    }
}

/// Jitter-buffer monotonicity: for any sequence of pushes (in any
/// arrival order, with arbitrary duplicate or rewound ids) and polls,
/// the sequence of released ids is strictly increasing and never
/// revisits the release watermark or anything behind it.
pub proof fn lemma_jitter_monotone(v: JitterView, ops: Seq<JitterOp>)
    requires
        jb_wf(v),
    ensures
        forall|i: int|
            0 <= i < jb_run(v, ops).1.len() ==> (v.released_any ==> #[trigger] jb_run(
                v,
                ops,
            ).1[i] > v.last_released_id),
        forall|i: int, j: int|
            #![trigger jb_run(v, ops).1[i], jb_run(v, ops).1[j]]
            0 <= i < j < jb_run(v, ops).1.len() ==> jb_run(v, ops).1[i] < jb_run(v, ops).1[j],
    decreases ops.len(),
{
    if ops.len() > 0 {
        let stepped = jb_step_op(v, ops[0]);
        let v1 = stepped.0;
        match ops[0] {
            JitterOp::Push { unit, now } => {
                lemma_jb_push_wf(v, unit, now);
            }
            JitterOp::Pop { now } => {
                lemma_jb_pop_wf(v, now);
            }
        }
        lemma_jitter_monotone(v1, ops.skip(1));
        let rest = jb_run(v1, ops.skip(1));
        let full = jb_run(v, ops);
        match stepped.1 {
            Some(id) => {
                assert(v1.released_any && v1.last_released_id == id);
                assert(full.1 == seq![id] + rest.1);
                assert forall|i: int|
                    0 <= i < full.1.len() implies (v.released_any ==> #[trigger] full.1[i]
                    > v.last_released_id) by {
                    if i > 0 {
                        assert(full.1[i] == rest.1[i - 1]);
                        assert(rest.1[i - 1] > id);
                    }
                }
                assert forall|i: int, j: int|
                    #![trigger full.1[i], full.1[j]]
                    0 <= i < j < full.1.len() implies full.1[i] < full.1[j] by {
                    if i == 0 {
                        assert(full.1[j] == rest.1[j - 1]);
                        assert(rest.1[j - 1] > id);
                    } else {
                        assert(full.1[i] == rest.1[i - 1]);
                        assert(full.1[j] == rest.1[j - 1]);
                    }
                }
            }
            None => {
                assert(full.1 =~= rest.1);
                assert(v1.released_any == v.released_any && v1.last_released_id
                    == v.last_released_id);
            }
        }
    }
}

impl JitterBuffer {
    /// A fresh buffer with the given target depth and hold delay.
    pub fn new(target_depth: usize, min_delay_ms: u64) -> (r: JitterBuffer)
        requires
            1 <= target_depth <= 0x1000_0000,
        ensures
            jb_wf(r@),
            r@.entries.len() == 0,
            r@.target_depth == target_depth,
            r@.min_delay_ms == min_delay_ms,
            !r@.released_any,
            r@.last_released_id == 0,
    {
        let r = JitterBuffer {
            entries: Vec::new(),
            arrivals: Vec::new(),
            target_depth,
            min_delay_ms,
            last_released_id: 0,
            released_any: false,
        };
        proof {
            assert(r@.entries =~= Seq::<UnitView>::empty());
        }
        r
    }

    /// Number of units currently buffered.
    pub fn len(&self) -> (r: usize)
        ensures
            r == self@.entries.len(),
    {
        self.entries.len()
    }

    /// Whether the buffer has reached its target depth.
    pub fn is_ready(&self) -> (r: bool)
        ensures
            r == (self@.entries.len() >= self@.target_depth),
    {
        self.entries.len() >= self.target_depth
    }

    /// Insert a decoded unit stamped with the given arrival time.
    pub fn push(&mut self, unit: FrameUnit, now_ms: u64)
        requires
            jb_wf(old(self)@),
        ensures
            jb_wf(final(self)@),
            final(self)@ == jb_push(old(self)@, unit@, now_ms),
    {
        let ghost pre = self@;
        if self.released_any && unit.id <= self.last_released_id {
            return;
        }
        let mut i: usize = 0;
        while i < self.entries.len() && self.entries[i].id < unit.id
            invariant
                0 <= i <= self.entries@.len(),
                forall|j: int| 0 <= j < i ==> (#[trigger] self.entries@[j])@.id < unit.id,
                *self == *old(self),
            decreases self.entries@.len() - i,
        {
            i = i + 1;
        }
        proof {
            lemma_insert_pos_bounds(pre.entries, unit@.id);
            let pos = insert_pos(pre.entries, unit@.id);
            assert(i == pos) by {
                if i < pos {
                    assert(pre.entries[i as int].id >= unit@.id);
                    assert(pre.entries[i as int].id < unit@.id);
                }
                if pos < i {
                    assert(pre.entries[pos].id >= unit@.id);
                    assert(pre.entries[pos].id < unit@.id);
                }
            }
        }
        if i < self.entries.len() {
            if self.entries[i].id == unit.id {
                proof {
                    assert(pre.entries[i as int].id == unit@.id);
                    assert(jb_has_id(pre.entries, unit@.id));
                }
                return;
            }
        }
        proof {
            assert(!jb_has_id(pre.entries, unit@.id)) by {
                if jb_has_id(pre.entries, unit@.id) {
                    let k = choose|k: int|
                        0 <= k < pre.entries.len() && (#[trigger] pre.entries[k]).id == unit@.id;
                    assert(k < i ==> pre.entries[k].id < unit@.id);
                    assert(k >= i ==> pre.entries[k].id != unit@.id);
                }
            }
        }
        let ghost pos = insert_pos(pre.entries, unit@.id);
        let ghost e2 = pre.entries.insert(pos, unit@);
        let ghost a2 = pre.arrivals.insert(pos, now_ms);
        self.entries.insert(i, unit);
        self.arrivals.insert(i, now_ms);
        proof {
            assert(self@.entries =~= e2);
            assert(self@.arrivals =~= a2);
        }
        let cap: usize = 2 * self.target_depth;
        let inserted_len = self.entries.len();
        let excess: usize = if inserted_len > cap {
            inserted_len - cap
        } else {
            0
        };
        let mut t: usize = 0;
        while t < excess
            invariant
                t <= excess,
                excess <= e2.len(),
                self@.entries == e2.skip(t as int),
                self@.arrivals == a2.skip(t as int),
                e2.len() == a2.len(),
                self.target_depth == pre.target_depth,
                self.min_delay_ms == pre.min_delay_ms,
                self.last_released_id == pre.last_released_id,
                self.released_any == pre.released_any,
            decreases excess - t,
        {
            proof {
                assert(self@.entries.len() == e2.len() - t);
                assert(self.entries@.len() == self@.entries.len());
                assert(self.arrivals@.len() == self@.arrivals.len());
            }
            self.entries.remove(0);
            self.arrivals.remove(0);
            proof {
                assert(e2.skip(t as int).remove(0) =~= e2.skip(t + 1));
                assert(a2.skip(t as int).remove(0) =~= a2.skip(t + 1));
                assert(self@.entries =~= e2.skip(t as int).remove(0));
            }
            t = t + 1;
        }
        proof {
            let post = jb_push(pre, unit@, now_ms);
            assert(post.entries == e2.skip(excess as int));
            assert(final(self)@.entries == e2.skip(excess as int));
            assert(final(self)@ == post);
            lemma_jb_push_wf(pre, unit@, now_ms);
        }
    }

    /// Release the oldest buffered unit if the buffer is at its target
    /// depth or the unit has waited out the minimum hold delay. The
    /// release watermark advances to the released id.
    pub fn pop(&mut self, now_ms: u64) -> (r: Option<FrameUnit>)
        requires
            jb_wf(old(self)@),
        ensures
            jb_wf(final(self)@),
            final(self)@ == jb_pop(old(self)@, now_ms).0,
            match r {
                Some(u) => jb_pop(old(self)@, now_ms).1 == Some(u@),
                None => jb_pop(old(self)@, now_ms).1 is None,
            },
            match r {
                Some(u) => {
                    &&& (old(self)@.released_any ==> u@.id > old(self)@.last_released_id)
                    &&& final(self)@.last_released_id == u@.id
                    &&& final(self)@.released_any
                },
                None => final(self)@ == old(self)@,
            },
    {
        let ghost pre = self@;
        if self.entries.len() == 0 {
            return None;
        }
        let held_long_enough = now_ms >= self.arrivals[0] && now_ms - self.arrivals[0]
            >= self.min_delay_ms;
        if self.entries.len() >= self.target_depth || held_long_enough {
            let unit = self.entries.remove(0);
            self.arrivals.remove(0);
            self.last_released_id = unit.id;
            self.released_any = true;
            proof {
                assert(self@.entries =~= pre.entries.skip(1));
                assert(self@.arrivals =~= pre.arrivals.skip(1));
                assert(unit@ == pre.entries[0]);
                assert(jb_wf(self@)) by {
                    assert forall|x: int|
                        0 <= x < self@.entries.len() implies (#[trigger] self@.entries[x]).id
                        > self@.last_released_id by {
                        assert(self@.entries[x] == pre.entries[x + 1]);
                        assert(pre.entries[0].id < pre.entries[x + 1].id);
                    }
                }
            }
            Some(unit)
        } else {
            None
        }
    }
}

} // verus!
