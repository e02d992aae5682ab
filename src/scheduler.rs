//! The streaming scheduler: owns the current colour of every channel,
//! merges updates, and emits at most one frame per interval, repeating the
//! last state when no updates arrive.
//!
//! The scheduler decides; its caller waits. The caller races "updates
//! arrived" against "deadline reached", hands the outcome in (`merge`, then
//! `poll` with the current time) and sends whatever frame `poll` returns.
use crate::models::LightState;
use crate::protocol::{create_message, frame_bytes, FrameSequence};
use std::collections::HashMap;
use vstd::prelude::*;

verus! {

broadcast use vstd::std_specs::hash::group_hash_axioms;

/// Shortest time between two frames, in milliseconds (at most 50 frames per
/// second).
pub const FRAME_INTERVAL_MS: u64 = 20;

/// `updates` merged into `m` in order: the last update of a channel wins.
pub open spec fn apply_updates(m: Map<u8, (u8, u8, u8)>, updates: Seq<LightState>) -> Map<
    u8,
    (u8, u8, u8),
>
    decreases updates.len(),
{
    if updates.len() == 0 {
        m
    } else {
        let u = updates.last();
        apply_updates(m, updates.drop_last()).insert(u.id, (u.r, u.g, u.b))
    }
}

/// The next wrapping sequence value.
pub open spec fn next_sequence(s: u8) -> u8 {
    if s == 255 {
        0
    } else {
        (s + 1) as u8
    }
}

/// The scheduler's state as a mathematical value.
pub struct SchedulerView {
    pub colours: Map<u8, (u8, u8, u8)>,
    pub last_ms: int,
    pub interval_ms: int,
    pub sequence: u8,
}

/// What the scheduler is told.
pub enum SchedulerEvent {
    /// A batch of colour updates arrived.
    Updates(Seq<LightState>),
    /// The clock reads this many milliseconds.
    Tick(int),
}

/// One step of the scheduler: the next state, and the frame sent, if any.
pub open spec fn step(v: SchedulerView, e: SchedulerEvent) -> (SchedulerView, Option<Seq<u8>>) {
    match e {
        SchedulerEvent::Updates(u) => (SchedulerView { colours: apply_updates(v.colours, u), ..v }, None),
        SchedulerEvent::Tick(now) => if now >= v.last_ms + v.interval_ms {
            if v.colours.dom().len() > 0 {
                (
                    SchedulerView { last_ms: now, sequence: next_sequence(v.sequence), ..v },
                    Some(frame_bytes(v.sequence, v.colours)),
                )
            } else {
                (SchedulerView { last_ms: now, ..v }, None)
            }
        } else {
            (v, None)
        },
    }
}

/// The frames a run of events sends, each with the time it was sent at.
pub open spec fn emissions(v: SchedulerView, events: Seq<SchedulerEvent>) -> Seq<(int, Seq<u8>)>
    decreases events.len(),
{
    if events.len() == 0 {
        seq![]
    } else {
        let (next, out) = step(v, events[0]);
        let rest = emissions(next, events.drop_first());
        match (events[0], out) {
            (SchedulerEvent::Tick(now), Some(f)) => seq![(now, f)] + rest,
            _ => rest,
        }
    }
}

pub struct StreamScheduler {
    pub current: HashMap<u8, (u8, u8, u8)>,
    pub last_frame_ms: u64,
    pub interval_ms: u64,
    pub sequence: FrameSequence,
}

impl StreamScheduler {
    pub open spec fn view(&self) -> SchedulerView {
        SchedulerView {
            colours: self.current@,
            last_ms: self.last_frame_ms as int,
            interval_ms: self.interval_ms as int,
            sequence: self.sequence.next,
        }
    }

    /// A scheduler with no channel state whose first frame is due one
    /// interval after `now_ms`.
    pub fn new(interval_ms: u64, now_ms: u64) -> (r: StreamScheduler)
        ensures
            r.view() == (SchedulerView {
                colours: Map::empty(),
                last_ms: now_ms as int,
                interval_ms: interval_ms as int,
                sequence: 0,
            }),
    {
        StreamScheduler {
            current: HashMap::new(),
            last_frame_ms: now_ms,
            interval_ms,
            sequence: FrameSequence::new(),
        }
    }

    /// When the next frame is due, in milliseconds (saturating).
    pub fn next_deadline(&self) -> (r: u64)
        ensures
            r == (if self.last_frame_ms + self.interval_ms > u64::MAX {
                u64::MAX as int
            } else {
                self.last_frame_ms + self.interval_ms
            }),
    {
        self.last_frame_ms.saturating_add(self.interval_ms)
    }

    /// Merges a batch of updates; the deadline is left as it is.
    pub fn merge(&mut self, updates: &[LightState])
        ensures
            final(self).view() == step(old(self).view(), SchedulerEvent::Updates(updates@)).0,
    {
        let mut i: usize = 0;
        while i < updates.len()
            invariant
                i <= updates@.len(),
                self.current@ == apply_updates(old(self).current@, updates@.subrange(0, i as int)),
                self.last_frame_ms == old(self).last_frame_ms,
                self.interval_ms == old(self).interval_ms,
                self.sequence == old(self).sequence,
            decreases updates@.len() - i,
        {
            let u = updates[i];
            self.current.insert(u.id, (u.r, u.g, u.b));
            assert(updates@.subrange(0, i + 1).drop_last() =~= updates@.subrange(0, i as int));
            i = i + 1;
        }
        assert(updates@.subrange(0, updates@.len() as int) =~= updates@);
    }

    /// Tells the scheduler the time. When a frame is due, the deadline moves
    /// to one interval after `now_ms`, and the current state goes out as a
    /// frame unless no channel has a colour yet.
    pub fn poll(&mut self, now_ms: u64) -> (r: Option<Vec<u8>>)
        ensures
            final(self).view() == step(old(self).view(), SchedulerEvent::Tick(now_ms as int)).0,
            match r {
                Some(f) => step(old(self).view(), SchedulerEvent::Tick(now_ms as int)).1 == Some(f@),
                None => step(old(self).view(), SchedulerEvent::Tick(now_ms as int)).1 is None,
            },
    {
        if now_ms >= self.last_frame_ms && now_ms - self.last_frame_ms >= self.interval_ms {
            let out = if !self.current.is_empty() {
                assert(self.current@.dom().len() > 0) by {
                    vstd::set_lib::lemma_set_empty_equivalency_len(self.current@.dom());
                }
                Some(create_message(&mut self.sequence, "", &self.current))
            } else {
                assert(self.current@.dom() =~= Set::empty());
                None
            };
            self.last_frame_ms = now_ms;
            out
        } else {
            None
        }
    }
}

/// Cadence: in any run of events, from any state with a non-negative
/// interval, the first frame goes out no earlier than one interval after
/// the last one, and any two frames lie at least one interval apart,
/// however densely updates arrive.
pub proof fn lemma_cadence(v: SchedulerView, events: Seq<SchedulerEvent>)
    requires
        v.interval_ms >= 0,
    ensures
        forall|i: int|
            0 <= i < emissions(v, events).len() ==> #[trigger] emissions(v, events)[i].0 >= v.last_ms
                + v.interval_ms,
        forall|i: int, j: int|
            #![trigger emissions(v, events)[i], emissions(v, events)[j]]
            0 <= i < j < emissions(v, events).len() ==> emissions(v, events)[j].0 >= emissions(
                v,
                events,
            )[i].0 + v.interval_ms,
    decreases events.len(),
{
    if events.len() > 0 {
        let (next, out) = step(v, events[0]);
        lemma_cadence(next, events.drop_first());
        let rest = emissions(next, events.drop_first());
        let all = emissions(v, events);
        match (events[0], out) {
            (SchedulerEvent::Tick(now), Some(f)) => {
                assert(all == seq![(now, f)] + rest);
                assert(next.last_ms == now);
                assert forall|i: int, j: int|
                    #![trigger all[i], all[j]]
                    0 <= i < j < all.len() implies all[j].0 >= all[i].0 + v.interval_ms by {
                    assert(all[j] == rest[j - 1]);
                    if i > 0 {
                        assert(all[i] == rest[i - 1]);
                    }
                }
            },
            _ => {
                assert(all == rest);
            },
        }
    }
}

/// The ticks at every interval after `v.last_ms`, `k` of them.
pub open spec fn ticks_at_interval(v: SchedulerView, k: nat) -> Seq<SchedulerEvent> {
    Seq::new(k, |i: int| SchedulerEvent::Tick(v.last_ms + (i + 1) * v.interval_ms))
}

/// Keep-alive: once some channel has a colour, every tick that comes one
/// interval after the previous frame sends the unchanged state again, with
/// the sequence advancing by one per frame.
pub proof fn lemma_keep_alive(v: SchedulerView, k: nat)
    requires
        v.colours.dom().len() > 0,
        v.interval_ms >= 0,
    ensures
        emissions(v, ticks_at_interval(v, k)).len() == k,
        forall|i: int|
            0 <= i < k ==> #[trigger] emissions(v, ticks_at_interval(v, k))[i] == (
                v.last_ms + (i + 1) * v.interval_ms,
                frame_bytes(((v.sequence + i) % 256) as u8, v.colours),
            ),
    decreases k,
{
    if k > 0 {
        let events = ticks_at_interval(v, k);
        let now = v.last_ms + v.interval_ms;
        let next = SchedulerView { last_ms: now, sequence: next_sequence(v.sequence), ..v };
        assert(step(v, events[0]) == (next, Some(frame_bytes(v.sequence, v.colours))));
        assert(events.drop_first() =~= ticks_at_interval(next, (k - 1) as nat)) by {
            assert forall|i: int| 0 <= i < k - 1 implies events.drop_first()[i] == ticks_at_interval(
                next,
                (k - 1) as nat,
            )[i] by {
                assert(now + (i + 1) * v.interval_ms == v.last_ms + (i + 2) * v.interval_ms) by (nonlinear_arith)
                    requires now == v.last_ms + v.interval_ms;
            }
        }
        lemma_keep_alive(next, (k - 1) as nat);
        let all = emissions(v, events);
        let rest = emissions(next, ticks_at_interval(next, (k - 1) as nat));
        assert(all == seq![(now, frame_bytes(v.sequence, v.colours))] + rest);
        assert forall|i: int| 0 <= i < k implies #[trigger] all[i] == (
            v.last_ms + (i + 1) * v.interval_ms,
            frame_bytes(((v.sequence + i) % 256) as u8, v.colours),
        ) by {
            if i > 0 {
                assert(all[i] == rest[i - 1]);
                assert(now + i * v.interval_ms == v.last_ms + (i + 1) * v.interval_ms) by (nonlinear_arith)
                    requires now == v.last_ms + v.interval_ms;
                assert(((next.sequence + (i - 1)) % 256) as u8 == ((v.sequence + i) % 256) as u8);
            } else {
                assert(((v.sequence + 0) % 256) as u8 == v.sequence);
            }
        }
    }
}

/// Channel ids of `updates` are pairwise distinct.
pub open spec fn unique_ids(updates: Seq<LightState>) -> bool {
    forall|i: int, j: int| 0 <= i < j < updates.len() ==> updates[i].id != updates[j].id
}

proof fn lemma_apply_unique(m: Map<u8, (u8, u8, u8)>, u: Seq<LightState>)
    requires
        unique_ids(u),
    ensures
        forall|i: int|
            0 <= i < u.len() ==> #[trigger] apply_updates(m, u).contains_key(u[i].id) && apply_updates(
                m,
                u,
            )[u[i].id] == (u[i].r, u[i].g, u[i].b),
        forall|k: u8|
            (forall|i: int| 0 <= i < u.len() ==> #[trigger] u[i].id != k) ==> (#[trigger] apply_updates(
                m,
                u,
            ).contains_key(k) == m.contains_key(k) && (m.contains_key(k) ==> apply_updates(m, u)[k]
                == m[k])),
    decreases u.len(),
{
    if u.len() > 0 {
        let p = u.drop_last();
        let last = u[u.len() - 1];
        assert(unique_ids(p));
        lemma_apply_unique(m, p);
        assert(apply_updates(m, u) == apply_updates(m, p).insert(last.id, (last.r, last.g, last.b)));
        assert forall|i: int| 0 <= i < u.len() implies #[trigger] apply_updates(m, u).contains_key(u[i].id)
            && apply_updates(m, u)[u[i].id] == (u[i].r, u[i].g, u[i].b) by {
            if i < u.len() - 1 {
                assert(p[i] == u[i]);
                assert(u[i].id != u.last().id);
            }
        }
        assert forall|k: u8|
            (forall|i: int| 0 <= i < u.len() ==> #[trigger] u[i].id != k) implies (#[trigger] apply_updates(
            m,
            u,
        ).contains_key(k) == m.contains_key(k) && (m.contains_key(k) ==> apply_updates(m, u)[k]
            == m[k])) by {
            assert(u[u.len() - 1].id != k);
            assert forall|i: int| 0 <= i < p.len() implies #[trigger] p[i].id != k by {
                assert(p[i] == u[i]);
            }
        }
    }
}

/// Insertion order does not matter: two batches of updates with distinct
/// ids and the same elements, merged in their different orders, give the
/// same colours, and so byte-identical frames.
pub proof fn lemma_update_order_irrelevant(
    m: Map<u8, (u8, u8, u8)>,
    a: Seq<LightState>,
    b: Seq<LightState>,
    sequence: u8,
)
    requires
        unique_ids(a),
        unique_ids(b),
        forall|x: LightState| a.contains(x) <==> b.contains(x),
    ensures
        apply_updates(m, a) == apply_updates(m, b),
        frame_bytes(sequence, apply_updates(m, a)) == frame_bytes(sequence, apply_updates(m, b)),
{
    lemma_apply_unique(m, a);
    lemma_apply_unique(m, b);
    let ma = apply_updates(m, a);
    let mb = apply_updates(m, b);
    assert forall|k: u8| #[trigger] ma.contains_key(k) == mb.contains_key(k) && (ma.contains_key(k) ==> ma[k] == mb[k]) by {
        if exists|i: int| 0 <= i < a.len() && a[i].id == k {
            let i = choose|i: int| 0 <= i < a.len() && a[i].id == k;
            assert(a.contains(a[i]));
            assert(b.contains(a[i]));
            let j = choose|j: int| 0 <= j < b.len() && b[j] == a[i];
            assert(mb.contains_key(b[j].id));
        } else if exists|j: int| 0 <= j < b.len() && b[j].id == k {
            let j = choose|j: int| 0 <= j < b.len() && b[j].id == k;
            assert(b.contains(b[j]));
            assert(a.contains(b[j]));
            let i = choose|i: int| 0 <= i < a.len() && a[i] == b[j];
            assert(a[i].id == k);
        } else {
            assert(forall|i: int| 0 <= i < a.len() ==> #[trigger] a[i].id != k);
            assert(forall|j: int| 0 <= j < b.len() ==> #[trigger] b[j].id != k);
        }
    }
    assert(ma =~= mb);
}

} // verus!
