//! The binary wire frame: a fixed 16-byte header followed by one 7-byte
//! entry per channel, in ascending channel order.
use std::collections::HashMap;
use vstd::prelude::*;

verus! {

broadcast use vstd::std_specs::hash::group_hash_axioms;

/// Length of the frame header in bytes.
pub const HEADER_LEN: usize = 16;

/// Length of one channel entry in bytes.
pub const ENTRY_LEN: usize = 7;

/// The protocol magic, ASCII "HueStream".
pub open spec fn magic() -> Seq<u8> {
    seq![72u8, 117u8, 101u8, 83u8, 116u8, 114u8, 101u8, 97u8, 109u8]
}

/// Header: magic, version 2.0, sequence, two reserved zeros, RGB colour
/// space, one reserved zero.
pub open spec fn header_bytes(sequence: u8) -> Seq<u8> {
    magic() + seq![2u8, 0u8, sequence, 0u8, 0u8, 0u8, 0u8]
}

/// An 8-bit colour value widened to 16 bits.
pub open spec fn widen(v: u8) -> nat {
    (v as nat) * 257
}

/// A 16-bit value as two big-endian bytes.
pub open spec fn be16(w: nat) -> Seq<u8> {
    seq![(w / 256) as u8, (w % 256) as u8]
}

/// One channel entry: the id, then red, green and blue widened to 16 bits.
pub open spec fn entry_bytes(id: u8, c: (u8, u8, u8)) -> Seq<u8> {
    seq![id] + be16(widen(c.0)) + be16(widen(c.1)) + be16(widen(c.2))
}

/// The ids of `m` that are below `n`, in ascending order.
pub open spec fn ids_below(m: Map<u8, (u8, u8, u8)>, n: nat) -> Seq<u8>
    decreases n,
{
    if n == 0 {
        seq![]
    } else {
        let k = (n - 1) as u8;
        ids_below(m, (n - 1) as nat) + if m.contains_key(k) {
            seq![k]
        } else {
            seq![]
        }
    }
}

/// The entries of the channels of `m` whose id is below `n`, ascending by id.
pub open spec fn entries_below(m: Map<u8, (u8, u8, u8)>, n: nat) -> Seq<u8>
    decreases n,
{
    if n == 0 {
        seq![]
    } else {
        let k = (n - 1) as u8;
        entries_below(m, (n - 1) as nat) + if m.contains_key(k) {
            entry_bytes(k, m[k])
        } else {
            seq![]
        }
    }
}

/// All channel ids of `m`, ascending.
pub open spec fn channel_order(m: Map<u8, (u8, u8, u8)>) -> Seq<u8> {
    ids_below(m, 256)
}

/// The complete frame for the colours `m`, tagged with `sequence`.
pub open spec fn frame_bytes(sequence: u8, m: Map<u8, (u8, u8, u8)>) -> Seq<u8> {
    header_bytes(sequence) + entries_below(m, 256)
}

/// The process-wide frame sequence counter: 8 bits, wrapping.
pub struct FrameSequence {
    pub next: u8,
}

impl FrameSequence {
    pub fn new() -> (r: FrameSequence)
        ensures
            r.next == 0,
    {
        FrameSequence { next: 0 }
    }

    /// Hands out the current value and advances, wrapping after 255.
    pub fn advance(&mut self) -> (r: u8)
        ensures
            r == old(self).next,
            final(self).next == (if old(self).next == 255 { 0 } else { (old(self).next + 1) as u8 }),
    {
        let r = self.next;
        self.next = if r == 255 { 0 } else { r + 1 };
        r
    }
}

fn push_be16(buf: &mut Vec<u8>, v: u8)
    ensures
        final(buf)@ == old(buf)@ + be16(widen(v)),
{
    let w: u16 = (v as u16) * 257;
    let hi: u8 = (w / 256) as u8;
    let lo: u8 = (w % 256) as u8;
    buf.push(hi);
    buf.push(lo);
    assert(final(buf)@ =~= old(buf)@ + be16(widen(v)));
}

/// Serialises `lights` into a frame carrying `sequence`.
pub fn encode_frame(sequence: u8, lights: &HashMap<u8, (u8, u8, u8)>) -> (r: Vec<u8>)
    ensures
        r@ == frame_bytes(sequence, lights@),
{
    let mut buffer: Vec<u8> = Vec::new();
    buffer.push(72u8);
    buffer.push(117u8);
    buffer.push(101u8);
    buffer.push(83u8);
    buffer.push(116u8);
    buffer.push(114u8);
    buffer.push(101u8);
    buffer.push(97u8);
    buffer.push(109u8);
    buffer.push(2u8);
    buffer.push(0u8);
    buffer.push(sequence);
    buffer.push(0u8);
    buffer.push(0u8);
    buffer.push(0u8);
    buffer.push(0u8);
    assert(buffer@ =~= header_bytes(sequence));
    let mut id: u16 = 0;
    while id < 256
        invariant
            id <= 256,
            buffer@ == header_bytes(sequence) + entries_below(lights@, id as nat),
        decreases 256 - id,
    {
        let k: u8 = id as u8;
        let ghost before = buffer@;
        match lights.get(&k) {
            Some(c) => {
                buffer.push(k);
                push_be16(&mut buffer, c.0);
                push_be16(&mut buffer, c.1);
                push_be16(&mut buffer, c.2);
                assert(buffer@ =~= before + entry_bytes(k, lights@[k]));
            },
            None => {},
        }
        assert(buffer@ =~= header_bytes(sequence) + entries_below(lights@, (id + 1) as nat));
        id = id + 1;
    }
    buffer
}

/// Serialises `lights` into the next frame, consuming one value of
/// `sequence`. The area id is not part of the wire format.
pub fn create_message(
    sequence: &mut FrameSequence,
    _area_id: &str,
    lights: &HashMap<u8, (u8, u8, u8)>,
) -> (r: Vec<u8>)
    ensures
        r@ == frame_bytes(old(sequence).next, lights@),
        final(sequence).next == (if old(sequence).next == 255 { 0 } else { (old(sequence).next + 1) as u8 }),
{
    let seq_id = sequence.advance();
    encode_frame(seq_id, lights)
}

proof fn lemma_entries_below(m: Map<u8, (u8, u8, u8)>, n: nat)
    requires
        n <= 256,
    ensures
        entries_below(m, n).len() == 7 * ids_below(m, n).len(),
        forall|i: int|
            0 <= i < ids_below(m, n).len() ==> #[trigger] entries_below(m, n).subrange(
                7 * i,
                7 * i + 7,
            ) == entry_bytes(ids_below(m, n)[i], m[ids_below(m, n)[i]]),
        forall|i: int| 0 <= i < ids_below(m, n).len() ==> (#[trigger] ids_below(m, n)[i] as nat) < n,
        forall|i: int, j: int|
            0 <= i < j < ids_below(m, n).len() ==> ids_below(m, n)[i] < ids_below(m, n)[j],
        forall|k: u8|
            (m.contains_key(k) && (k as nat) < n) <==> #[trigger] ids_below(m, n).contains(k),
    decreases n,
{
    if n > 0 {
        let p = (n - 1) as nat;
        let k = p as u8;
        lemma_entries_below(m, p);
        let ids = ids_below(m, n);
        let prev = ids_below(m, p);
        let e = entries_below(m, n);
        let pe = entries_below(m, p);
        assert forall|i: int| 0 <= i < ids.len() implies #[trigger] e.subrange(7 * i, 7 * i + 7)
            == entry_bytes(ids[i], m[ids[i]]) by {
            if i < prev.len() {
                assert(ids[i] == prev[i]);
                assert(e.subrange(7 * i, 7 * i + 7) =~= pe.subrange(7 * i, 7 * i + 7));
            } else {
                assert(ids[i] == k);
                assert(e.subrange(7 * i, 7 * i + 7) =~= entry_bytes(k, m[k]));
            }
        }
        assert forall|j: u8| (m.contains_key(j) && (j as nat) < n) <==> #[trigger] ids.contains(j) by {
            if m.contains_key(j) && (j as nat) < n {
                if (j as nat) < p {
                    assert(prev.contains(j));
                    let w = choose|w: int| 0 <= w < prev.len() && prev[w] == j;
                    assert(ids[w] == j);
                } else {
                    assert(ids[prev.len() as int] == j);
                }
            }
            if ids.contains(j) {
                let w = choose|w: int| 0 <= w < ids.len() && ids[w] == j;
                if w < prev.len() {
                    assert(prev[w] == j);
                    assert(prev.contains(j));
                }
            }
        }
    }
}

/// Frame layout: the 16-byte header comes first, then exactly one entry per
/// channel of the map, ids strictly ascending, each entry holding that
/// channel's colour. The frame depends on the map alone, never on the order
/// in which its channels were inserted.
pub proof fn lemma_frame_layout(sequence: u8, m: Map<u8, (u8, u8, u8)>)
    ensures
        ({
            let f = frame_bytes(sequence, m);
            let ids = channel_order(m);
            &&& f.len() == HEADER_LEN + ENTRY_LEN * ids.len()
            &&& f.subrange(0, 16) == header_bytes(sequence)
            &&& forall|i: int|
                0 <= i < ids.len() ==> #[trigger] f.subrange(16 + 7 * i, 16 + 7 * i + 7)
                    == entry_bytes(ids[i], m[ids[i]])
            &&& forall|i: int, j: int| 0 <= i < j < ids.len() ==> ids[i] < ids[j]
            &&& forall|k: u8| m.contains_key(k) <==> #[trigger] ids.contains(k)
        }),
{
    lemma_entries_below(m, 256);
    let f = frame_bytes(sequence, m);
    let ids = channel_order(m);
    let e = entries_below(m, 256);
    assert(f.subrange(0, 16) =~= header_bytes(sequence));
    assert forall|i: int| 0 <= i < ids.len() implies #[trigger] f.subrange(16 + 7 * i, 16 + 7 * i + 7)
        == entry_bytes(ids[i], m[ids[i]]) by {
        assert(f.subrange(16 + 7 * i, 16 + 7 * i + 7) =~= e.subrange(7 * i, 7 * i + 7));
    }
}

/// Scaling is exact: each colour value v goes out as the 16-bit big-endian
/// value v * 257, so 0 becomes 0 and 255 becomes 65535.
pub proof fn lemma_colour_scaling(v: u8)
    ensures
        be16(widen(v)).len() == 2,
        (be16(widen(v))[0] as nat) * 256 + (be16(widen(v))[1] as nat) == (v as nat) * 257,
        be16(widen(v))[0] == v,
        be16(widen(v))[1] == v,
        widen(0) == 0,
        widen(255) == 65535,
{
    assert(((v as nat) * 257) / 256 == v as nat) by (nonlinear_arith);
    assert(((v as nat) * 257) % 256 == v as nat) by (nonlinear_arith);
}

/// Two frames of the same colours differ in the sequence byte alone: equal
/// colours and equal sequence give equal bytes, and any two sequence values
/// give frames of equal length that agree everywhere but at offset 11.
pub proof fn lemma_sequence_only_difference(s1: u8, s2: u8, m: Map<u8, (u8, u8, u8)>)
    ensures
        frame_bytes(s1, m).len() == frame_bytes(s2, m).len(),
        frame_bytes(s1, m)[11] == s1,
        frame_bytes(s2, m)[11] == s2,
        forall|i: int|
            0 <= i < frame_bytes(s1, m).len() && i != 11 ==> #[trigger] frame_bytes(s1, m)[i]
                == frame_bytes(s2, m)[i],
        s1 == s2 ==> frame_bytes(s1, m) == frame_bytes(s2, m),
{
}

} // verus!
