//! The download session: a state machine that plans ranged requests over
//! `[0, total_length)` in windows, accepts chunk payloads in order, and
//! ends `Complete`, `Truncated`, or still `Downloading`.
//!
//! The session never performs a request itself: the embedding program asks
//! it for the next range, exchanges the request over its transport, runs
//! the response through the parser, and hands the accepted payload back.

use vstd::prelude::*;
use vstd::arithmetic::div_mod::{lemma_basic_div, lemma_div_plus_one};

verus! {

/// The smaller of two numbers.
pub open spec fn min2(a: int, b: int) -> int {
    if a <= b {
        a
    } else {
        b
    }
}

/// Where the chunk that starts at `cursor` ends: one window further, but
/// never past the total.
pub open spec fn chunk_end(cursor: int, window: int, total: int) -> int {
    min2(cursor + window, total)
}

/// The ranges a session issues from `cursor` on when every chunk arrives
/// in full: windows of at most `window` bytes, exclusive upper ends,
/// marching to `total`.
pub open spec fn schedule(total: int, window: int, cursor: int) -> Seq<(int, int)>
    decreases total - cursor,
{
    if window < 1 || cursor >= total {
        Seq::empty()
    } else {
        seq![(cursor, chunk_end(cursor, window, total))] + schedule(
            total,
            window,
            chunk_end(cursor, window, total),
        )
    }
}

/// The planned ranges partition `[cursor, total)`: each is non-empty and
/// in bounds, the first starts at `cursor`, consecutive ranges abut (no
/// gap and no overlap), and the last ends at `total`.
pub proof fn lemma_schedule_covers(total: int, window: int, cursor: int)
    requires
        0 <= cursor <= total,
        window >= 1,
    ensures
        forall|i: int|
            0 <= i < schedule(total, window, cursor).len() ==> cursor <= #[trigger] schedule(
                total,
                window,
                cursor,
            )[i].0 < schedule(total, window, cursor)[i].1 <= total,
        cursor < total ==> schedule(total, window, cursor).len() > 0,
        cursor < total ==> schedule(total, window, cursor)[0].0 == cursor,
        cursor < total ==> schedule(total, window, cursor).last().1 == total,
        cursor == total ==> schedule(total, window, cursor).len() == 0,
        forall|i: int|
            0 <= i < schedule(total, window, cursor).len() - 1 ==> #[trigger] schedule(
                total,
                window,
                cursor,
            )[i].1 == schedule(total, window, cursor)[i + 1].0,
    decreases total - cursor,
{
    if cursor < total {
        let e = chunk_end(cursor, window, total);
        let rs = schedule(total, window, cursor);
        let rest = schedule(total, window, e);
        lemma_schedule_covers(total, window, e);
        assert(rs == seq![(cursor, e)] + rest);
        assert(rs[0] == (cursor, e));
        if e < total {
            assert(rest.len() > 0);
            assert(rs.last() == rest.last());
        }
        assert forall|i: int| 0 <= i < rs.len() - 1 implies #[trigger] rs[i].1 == rs[i + 1].0 by {
            if i == 0 {
                assert(rs[1] == rest[0]);
                assert(rest[0].0 == e);
            } else {
                assert(rs[i] == rest[i - 1]);
                assert(rs[i + 1] == rest[i]);
            }
        }
    }
}

/// The session issues exactly as many requests as windows fit in what is
/// left: the count is `total - cursor` divided by `window`, rounded up.
pub proof fn lemma_schedule_count(total: int, window: int, cursor: int)
    requires
        0 <= cursor <= total,
        window >= 1,
    ensures
        schedule(total, window, cursor).len() == (total - cursor + window - 1) / window,
    decreases total - cursor,
{
    let r = total - cursor;
    if cursor >= total {
        lemma_basic_div(window - 1, window);
    } else {
        let e = chunk_end(cursor, window, total);
        lemma_schedule_count(total, window, e);
        lemma_div_plus_one(r - 1, window);
        if r <= window {
            assert(e == total);
            lemma_basic_div(r - 1, window);
        } else {
            assert(e == cursor + window);
            assert(total - e == r - window);
        }
    }
}

/// Where a session stands once construction has fixed the total length.
#[derive(Clone, Copy, Debug, PartialEq, Eq, Structural)]
pub enum SessionStatus {
    /// More ranged requests are owed.
    Downloading,
    /// Every byte of the resource has been accepted.
    Complete,
    /// The loop ended early and the buffer holds fewer bytes than the
    /// resource: reported, not fatal.
    Truncated,
}

/// A download session. The total length is established exactly once, at
/// construction, and never changes; the cursor is the next unfetched
/// offset and advances only by the number of bytes actually accepted; the
/// buffer grows only by appending accepted payloads and never beyond the
/// total length.
pub struct Session {
    /// The size of the resource, fixed at construction.
    pub total_length: usize,
    /// How many bytes each ranged request asks for; positive.
    pub window_size: usize,
    /// The next unfetched offset; always the buffer's length.
    pub cursor: usize,
    /// The payload accepted so far, in order.
    pub buffer: Vec<u8>,
    /// Whether a zero-length chunk ended the loop early.
    pub halted: bool,
}

impl Session {
    /// Well-formedness: the window is positive, the cursor counts exactly
    /// the buffered bytes, and the buffer never exceeds the total.
    pub open spec fn wf(&self) -> bool {
        &&& self.window_size >= 1
        &&& self.cursor == self.buffer@.len()
        &&& self.cursor <= self.total_length
    }

    /// Has the session stopped asking for ranges?
    pub open spec fn spec_done(&self) -> bool {
        self.cursor == self.total_length || self.halted
    }

    /// The session's terminal or running state.
    pub open spec fn spec_status(&self) -> SessionStatus {
        if self.cursor == self.total_length {
            SessionStatus::Complete
        } else if self.halted {
            SessionStatus::Truncated
        } else {
            SessionStatus::Downloading
        }
    }

    /// Open a session for a resource of `total_length` bytes, fetched in
    /// windows of `window_size` bytes.
    pub fn new(total_length: usize, window_size: usize) -> (r: Session)
        requires
            window_size >= 1,
        ensures
            r.wf(),
            r.total_length == total_length,
            r.window_size == window_size,
            r.cursor == 0,
            r.buffer@ == Seq::<u8>::empty(),
            !r.halted,
    {
        Session { total_length, window_size, cursor: 0, buffer: Vec::new(), halted: false }
    }

    /// Is the session done asking for ranges?
    pub fn done(&self) -> (r: bool)
        ensures
            r == self.spec_done(),
    {
        self.cursor == self.total_length || self.halted
    }

    /// The next range to request: it starts at the cursor and ends one
    /// window further, cut off at the total. Within a full session these
    /// are exactly the planned ranges of `schedule`.
    pub fn next_range(&self) -> (r: (usize, usize))
        requires
            self.wf(),
            !self.spec_done(),
        ensures
            r.0 == self.cursor,
            r.1 == chunk_end(self.cursor as int, self.window_size as int, self.total_length as int),
            r.0 < r.1 <= self.total_length,
    {
        let remaining = self.total_length - self.cursor;
        let len = if remaining < self.window_size {
            remaining
        } else {
            self.window_size
        };
        (self.cursor, self.cursor + len)
    }

    /// Accept a chunk payload: append at most the bytes still owed, in
    /// order, and advance the cursor by exactly the accepted count — never
    /// by the window or the requested range. A zero-length acceptance
    /// halts the session early.
    pub fn accept_chunk(&mut self, chunk: &[u8]) -> (accepted: usize)
        requires
            old(self).wf(),
            !old(self).spec_done(),
        ensures
            final(self).wf(),
            accepted == min2(chunk@.len() as int, old(self).total_length - old(self).cursor),
            final(self).total_length == old(self).total_length,
            final(self).window_size == old(self).window_size,
            final(self).cursor == old(self).cursor + accepted,
            final(self).buffer@ == old(self).buffer@ + chunk@.take(accepted as int),
            final(self).halted == (accepted == 0),
    {
        let remaining = self.total_length - self.cursor;
        let accepted = if chunk.len() <= remaining {
            chunk.len()
        } else {
            remaining
        };
        self.buffer.extend_from_slice(&chunk[0..accepted]);
        self.cursor = self.cursor + accepted;
        if accepted == 0 {
            self.halted = true;
        }
        proof {
            assert(chunk@.subrange(0, accepted as int) =~= chunk@.take(accepted as int));
        }
        accepted
    }

    /// Where the session stands: `Complete` exactly when every byte was
    /// accepted, `Truncated` when it halted early, `Downloading` otherwise.
    pub fn status(&self) -> (r: SessionStatus)
        ensures
            r == self.spec_status(),
    {
        if self.cursor == self.total_length {
            SessionStatus::Complete
        } else if self.halted {
            SessionStatus::Truncated
        } else {
            SessionStatus::Downloading
        }
    }

    /// The payload accepted so far.
    pub fn buffer(&self) -> (r: &Vec<u8>)
        ensures
            r@ == self.buffer@,
    {
        &self.buffer
    }

    /// Give the reassembled payload up, ending the session.
    pub fn into_buffer(self) -> (r: Vec<u8>)
        ensures
            r@ == self.buffer@,
    {
        self.buffer
    }
}

/// The ranges a full session over `total_length` bytes issues, window by
/// window, as values: the executable image of `schedule`.
pub fn planned_ranges(total_length: usize, window_size: usize) -> (r: Vec<(usize, usize)>)
    requires
        window_size >= 1,
    ensures
        r@.len() == schedule(total_length as int, window_size as int, 0).len(),
        forall|i: int|
            0 <= i < r@.len() ==> #[trigger] r@[i].0 == schedule(
                total_length as int,
                window_size as int,
                0,
            )[i].0 && r@[i].1 == schedule(total_length as int, window_size as int, 0)[i].1,
{
    let ghost t = total_length as int;
    let ghost w = window_size as int;
    let mut r: Vec<(usize, usize)> = Vec::new();
    let mut cursor: usize = 0;
    while cursor < total_length
        invariant
            window_size >= 1,
            t == total_length as int,
            w == window_size as int,
            0 <= cursor <= total_length,
            schedule(t, w, 0).len() == r@.len() + schedule(t, w, cursor as int).len(),
            forall|i: int|
                0 <= i < r@.len() ==> #[trigger] r@[i].0 == schedule(t, w, 0)[i].0 && r@[i].1
                    == schedule(t, w, 0)[i].1,
            forall|i: int|
                r@.len() <= i < schedule(t, w, 0).len() ==> #[trigger] schedule(t, w, 0)[i]
                    == schedule(t, w, cursor as int)[i - r@.len()],
        decreases total_length - cursor,
    {
        let remaining = total_length - cursor;
        let len = if remaining < window_size {
            remaining
        } else {
            window_size
        };
        let end = cursor + len;
        proof {
            assert(end == chunk_end(cursor as int, w, t));
            assert(schedule(t, w, cursor as int) == seq![(cursor as int, end as int)] + schedule(
                t,
                w,
                end as int,
            ));
            assert(schedule(t, w, 0)[r@.len() as int] == schedule(t, w, cursor as int)[0]);
        }
        r.push((cursor, end));
        cursor = end;
    }
    r
}

/// Does the half-open range `r` cover the offset `p`?
pub open spec fn range_covers(r: (int, int), p: int) -> bool {
    r.0 <= p < r.1
}

/// One loop step follows the plan: from any cursor the next planned range
/// is exactly what `next_range` yields, and after a full-length acceptance
/// the remaining plan is the rest of the schedule.
pub proof fn lemma_schedule_step(total: int, window: int, cursor: int)
    requires
        window >= 1,
        0 <= cursor < total,
    ensures
        schedule(total, window, cursor) == seq![(cursor, chunk_end(cursor, window, total))]
            + schedule(total, window, chunk_end(cursor, window, total)),
{
}

/// The planned ranges cover `[cursor, total)` with no gap and no overlap:
/// every offset in it lies in exactly one planned range.
pub proof fn lemma_schedule_partition(total: int, window: int, cursor: int, p: int)
    requires
        window >= 1,
        0 <= cursor <= p < total,
    ensures
        exists|i: int|
            0 <= i < schedule(total, window, cursor).len() && range_covers(
                #[trigger] schedule(total, window, cursor)[i],
                p,
            ),
        forall|i: int, j: int|
            0 <= i < schedule(total, window, cursor).len() && 0 <= j < schedule(
                total,
                window,
                cursor,
            ).len() && range_covers(#[trigger] schedule(total, window, cursor)[i], p)
                && range_covers(#[trigger] schedule(total, window, cursor)[j], p) ==> i == j,
    decreases total - cursor,
{
    let rs = schedule(total, window, cursor);
    let e = chunk_end(cursor, window, total);
    let rest = schedule(total, window, e);
    assert(rs == seq![(cursor, e)] + rest);
    assert(rs[0] == (cursor, e));
    lemma_schedule_covers(total, window, e);
    if p < e {
        assert(range_covers(rs[0], p));
        assert forall|j: int| 0 < j < rs.len() implies !range_covers(rs[j], p) by {
            assert(rs[j] == rest[j - 1]);
            assert(e <= rest[j - 1].0);
        }
    } else {
        lemma_schedule_partition(total, window, e, p);
        let i0 = choose|i: int|
            0 <= i < rest.len() && range_covers(#[trigger] rest[i], p);
        assert(rs[i0 + 1] == rest[i0]);
        assert(range_covers(rs[i0 + 1], p));
        assert forall|i: int, j: int|
            0 <= i < rs.len() && 0 <= j < rs.len() && range_covers(#[trigger] rs[i], p)
                && range_covers(#[trigger] rs[j], p) implies i == j by {
            assert(!range_covers(rs[0], p));
            assert(i > 0 && j > 0);
            assert(rs[i] == rest[i - 1] && rs[j] == rest[j - 1]);
        }
    }
}

} // verus!
