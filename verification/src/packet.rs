//! The packet framer: cutting a byte buffer into ordered packets, putting the
//! packets back together, and the binary wire frame of one packet.

use crate::endian::{le_bytes, le_value, push_le, read_le};
use vstd::prelude::*;

verus! {

/// Longer buffers are split into several packets; this is the largest payload
/// of one packet, in bytes.
pub const MAX_PACKET_SIZE: usize = 128;

/// Size of the frame header: two 8-byte little-endian words.
pub const HEADER_BYTES: usize = 16;

/// One piece of a byte buffer, with its position among the pieces.
#[derive(Clone, Debug)]
pub struct Packet {
    pub order: u64,
    pub data: Vec<u8>,
}

/// The mathematical content of a packet.
pub struct PacketView {
    pub order: nat,
    pub data: Seq<u8>,
}

impl View for Packet {
    type V = PacketView;

    open spec fn view(&self) -> PacketView {
        PacketView { order: self.order as nat, data: self.data@ }
    }
}

/// Why a wire frame could not be decoded.
#[derive(Clone, Copy, Debug, PartialEq, Eq)]
pub enum DecodeError {
    /// The buffer is shorter than the header plus the payload length that the
    /// header declares.
    MalformedFrame,
}

/// The contents of a sequence of packets.
pub open spec fn views(ps: Seq<Packet>) -> Seq<PacketView> {
    ps.map_values(|p: Packet| p@)
}

/// Number of packets that a buffer of `len` bytes is cut into.
pub open spec fn chunk_count(len: nat) -> nat {
    (len + 127) / 128
}

/// Where chunk `i` of a buffer of `len` bytes ends.
pub open spec fn chunk_end(i: int, len: nat) -> int {
    if 128 * (i + 1) <= len {
        128 * (i + 1)
    } else {
        len as int
    }
}

/// The packets of a buffer: consecutive, non-overlapping pieces of at most
/// 128 bytes, numbered from zero in buffer order.
pub open spec fn chunk(bytes: Seq<u8>) -> Seq<PacketView> {
    Seq::new(
        chunk_count(bytes.len()),
        |i: int|
            PacketView { order: i as nat, data: bytes.subrange(128 * i, chunk_end(i, bytes.len())) },
    )
}

/// The wire frame of a packet: `order`, then the payload length, each as an
/// 8-byte little-endian word, then the payload.
pub open spec fn frame_of(p: PacketView) -> Seq<u8> {
    le_bytes(p.order as u64) + le_bytes(p.data.len() as u64) + p.data
}

/// The payload length that a frame's header declares.
pub open spec fn declared_len(frame: Seq<u8>) -> int
    recommends
        frame.len() >= 16,
{
    le_value(frame.subrange(8, 16))
}

/// A frame is well formed when it holds a whole header and at least as many
/// payload bytes as the header declares.
pub open spec fn well_framed(frame: Seq<u8>) -> bool {
    frame.len() >= 16 && 16 + declared_len(frame) <= frame.len()
}

/// The packet that a well-formed frame carries.
pub open spec fn parse(frame: Seq<u8>) -> PacketView
    recommends
        well_framed(frame),
{
    PacketView {
        order: le_value(frame.subrange(0, 8)) as nat,
        data: frame.subrange(16, 16 + declared_len(frame)),
    }
}

/// `sorted` with `p` put behind the last packet whose `order` is not greater.
pub open spec fn insert_by_order(sorted: Seq<PacketView>, p: PacketView) -> Seq<PacketView>
    decreases sorted.len(),
{
    if sorted.len() == 0 || sorted.last().order <= p.order {
        sorted.push(p)
    } else {
        insert_by_order(sorted.drop_last(), p).push(sorted.last())
    }
}

/// The packets by ascending `order`; packets of equal `order` keep the
/// relative position they had in `ps`.
pub open spec fn sort_by_order(ps: Seq<PacketView>) -> Seq<PacketView>
    decreases ps.len(),
{
    if ps.len() == 0 {
        Seq::empty()
    } else {
        insert_by_order(sort_by_order(ps.drop_last()), ps.last())
    }
}

/// The payloads of the packets, one after the other.
pub open spec fn concat_data(ps: Seq<PacketView>) -> Seq<u8>
    decreases ps.len(),
{
    if ps.len() == 0 {
        Seq::empty()
    } else {
        concat_data(ps.drop_last()) + ps.last().data
    }
}

/// The buffer that a set of packets stands for: the payloads by ascending
/// `order`. Gaps and duplicates are neither detected nor repaired.
pub open spec fn reassemble(ps: Seq<PacketView>) -> Seq<u8> {
    concat_data(sort_by_order(ps))
}

/// The packets of `ps` at the positions `idx`, in the order of `idx`.
pub open spec fn picks(ps: Seq<PacketView>, idx: Seq<usize>) -> Seq<PacketView> {
    Seq::new(idx.len(), |j: int| ps[idx[j] as int])
}

/// Inserting by order is inserting at the position behind which every packet
/// has a greater `order` and before which the nearest one has not.
proof fn lemma_insert_position(sorted: Seq<PacketView>, p: PacketView, pos: int)
    requires
        0 <= pos <= sorted.len(),
        forall|j: int| pos <= j < sorted.len() ==> sorted[j].order > p.order,
        pos == 0 || sorted[pos - 1].order <= p.order,
    ensures
        insert_by_order(sorted, p) == sorted.insert(pos, p),
    decreases sorted.len() - pos,
{
    if pos == sorted.len() {
        assert(sorted.push(p) =~= sorted.insert(pos, p));
    } else {
        lemma_insert_position(sorted.drop_last(), p, pos);
        assert(sorted.drop_last().insert(pos, p).push(sorted.last()) =~= sorted.insert(pos, p));
    }
}

/// How many bytes a frame still lacks when `received` are its first bytes:
/// the rest of the header while that is incomplete, then the rest of the
/// payload that the header declares.
pub open spec fn frame_deficit(received: Seq<u8>) -> int {
    if received.len() < 16 {
        16 - received.len()
    } else if 16 + declared_len(received) <= received.len() {
        0
    } else {
        16 + declared_len(received) - received.len()
    }
}

/// Copies `src[from..to]` to the end of `out`.
fn append_range(out: &mut Vec<u8>, src: &[u8], from: usize, to: usize)
    requires
        from <= to <= src@.len(),
    ensures
        final(out)@ == old(out)@ + src@.subrange(from as int, to as int),
{
    let mut i: usize = from;
    while i < to
        invariant
            from <= i <= to <= src@.len(),
            out@ == old(out)@ + src@.subrange(from as int, i as int),
        decreases to - i,
    {
        out.push(src[i]);
        i = i + 1;
        assert(out@ =~= old(out)@ + src@.subrange(from as int, i as int));
    }
}

impl Packet {
    /// A packet that holds a copy of `data`.
    pub fn new(order: u64, data: &[u8]) -> (p: Packet)
        ensures
            p@ == (PacketView { order: order as nat, data: data@ }),
    {
        let mut copy: Vec<u8> = Vec::new();
        append_range(&mut copy, data, 0, data.len());
        assert(data@.subrange(0, data@.len() as int) =~= data@);
        Packet { order, data: copy }
    }

    /// Splits a buffer into packets.
    pub fn new_packets(v: &[u8]) -> (packets: Vec<Packet>)
        ensures
            views(packets@) == chunk(v@),
    {
        let mut packets: Vec<Packet> = Vec::new();
        let mut start: usize = 0;
        while start < v.len()
            invariant
                start <= v@.len(),
                start == 128 * packets@.len() || start == v@.len(),
                packets@.len() == chunk_count(start as nat),
                forall|k: int| 0 <= k < packets@.len() ==> (#[trigger] packets@[k])@ == chunk(v@)[k],
            decreases v@.len() - start,
        {
            let end: usize = if v.len() - start > MAX_PACKET_SIZE {
                start + MAX_PACKET_SIZE
            } else {
                v.len()
            };
            let mut data: Vec<u8> = Vec::new();
            append_range(&mut data, v, start, end);
            let order: u64 = packets.len() as u64;
            packets.push(Packet { order, data });
            start = end;
        }
        assert(views(packets@) =~= chunk(v@));
        packets
    }

    /// Puts the packets back together: their payloads by ascending `order`,
    /// packets of equal `order` in the order given.
    pub fn unpack(vp: &[Packet]) -> (bytes: Vec<u8>)
        ensures
            bytes@ == reassemble(views(vp@)),
    {
        let ghost all = views(vp@);
        let mut ranked: Vec<usize> = Vec::new();
        let mut k: usize = 0;
        while k < vp.len()
            invariant
                k <= vp@.len(),
                all == views(vp@),
                ranked@.len() == k,
                forall|j: int| 0 <= j < ranked@.len() ==> (#[trigger] ranked@[j]) < vp@.len(),
                picks(all, ranked@) == sort_by_order(all.take(k as int)),
            decreases vp@.len() - k,
        {
            let ghost before = ranked@;
            let mut pos: usize = ranked.len();
            while pos > 0 && vp[ranked[pos - 1]].order > vp[k].order
                invariant
                    pos <= ranked@.len(),
                    k < vp@.len(),
                    all == views(vp@),
                    forall|j: int| 0 <= j < ranked@.len() ==> (#[trigger] ranked@[j]) < vp@.len(),
                    forall|j: int|
                        pos <= j < ranked@.len() ==> picks(all, ranked@)[j].order > all[k as int].order,
                decreases pos,
            {
                pos = pos - 1;
            }
            ranked.insert(pos, k);
            proof {
                lemma_insert_position(picks(all, before), all[k as int], pos as int);
                assert(picks(all, ranked@) =~= picks(all, before).insert(pos as int, all[k as int]));
                assert(all.take(k + 1).drop_last() =~= all.take(k as int));
            }
            k = k + 1;
        }
        assert(all.take(k as int) =~= all);
        let ghost sorted = picks(all, ranked@);
        let mut bytes: Vec<u8> = Vec::new();
        let mut i: usize = 0;
        while i < ranked.len()
            invariant
                i <= ranked@.len(),
                all == views(vp@),
                sorted == picks(all, ranked@),
                forall|j: int| 0 <= j < ranked@.len() ==> (#[trigger] ranked@[j]) < vp@.len(),
                bytes@ == concat_data(sorted.take(i as int)),
            decreases ranked@.len() - i,
        {
            let packet = &vp[ranked[i]];
            append_range(&mut bytes, packet.data.as_slice(), 0, packet.data.len());
            proof {
                assert(packet.data@.subrange(0, packet.data@.len() as int) =~= packet.data@);
                assert(sorted.take(i + 1).drop_last() =~= sorted.take(i as int));
            }
            i = i + 1;
        }
        assert(sorted.take(i as int) =~= sorted);
        bytes
    }

    /// The wire frame of this packet.
    pub fn seal_one(&self) -> (frame: Vec<u8>)
        ensures
            frame@ == frame_of(self@),
    {
        let mut frame: Vec<u8> = Vec::new();
        push_le(&mut frame, self.order);
        push_le(&mut frame, self.data.len() as u64);
        append_range(&mut frame, self.data.as_slice(), 0, self.data.len());
        assert(self.data@.subrange(0, self.data@.len() as int) =~= self.data@);
        frame
    }

    /// The wire frames of the packets, in the same order.
    pub fn seal(s: &[Packet]) -> (frames: Vec<Vec<u8>>)
        ensures
            frames@.len() == s@.len(),
            forall|i: int| 0 <= i < s@.len() ==> (#[trigger] frames@[i])@ == frame_of(s@[i]@),
    {
        let mut frames: Vec<Vec<u8>> = Vec::new();
        let mut i: usize = 0;
        while i < s.len()
            invariant
                i <= s@.len(),
                frames@.len() == i,
                forall|k: int| 0 <= k < i ==> (#[trigger] frames@[k])@ == frame_of(s@[k]@),
            decreases s@.len() - i,
        {
            frames.push(s[i].seal_one());
            i = i + 1;
        }
        frames
    }

    /// Decodes one wire frame. Bytes after the declared payload are ignored.
    pub fn unseal_one(v: &[u8]) -> (r: Result<Packet, DecodeError>)
        ensures
            r is Ok <==> well_framed(v@),
            r is Ok ==> r->Ok_0@ == parse(v@),
            r is Err ==> r->Err_0 == DecodeError::MalformedFrame,
    {
        if v.len() < HEADER_BYTES {
            return Err(DecodeError::MalformedFrame);
        }
        let order: u64 = read_le(v, 0);
        let len: u64 = read_le(v, 8);
        if len > (v.len() - HEADER_BYTES) as u64 {
            return Err(DecodeError::MalformedFrame);
        }
        let mut data: Vec<u8> = Vec::new();
        append_range(&mut data, v, HEADER_BYTES, HEADER_BYTES + len as usize);
        Ok(Packet { order, data })
    }

    /// How many bytes are still to come of the frame whose first bytes are
    /// `received`; nothing is to come exactly when the frame is well formed.
    /// A number that does not fit is given as `u64::MAX`.
    pub fn missing_bytes(received: &[u8]) -> (missing: u64)
        ensures
            missing == if frame_deficit(received@) <= u64::MAX {
                frame_deficit(received@)
            } else {
                u64::MAX as int
            },
            missing == 0 <==> well_framed(received@),
    {
        if received.len() < HEADER_BYTES {
            return (HEADER_BYTES - received.len()) as u64;
        }
        let len: u64 = read_le(received, 8);
        let held: u64 = (received.len() - HEADER_BYTES) as u64;
        if len <= held {
            0
        } else {
            len - held
        }
    }

    /// Decodes the wire frames, in the same order; fails if any of them is
    /// malformed.
    pub fn unseal(v: &[Vec<u8>]) -> (r: Result<Vec<Packet>, DecodeError>)
        ensures
            r is Ok <==> forall|i: int| 0 <= i < v@.len() ==> well_framed(#[trigger] v@[i]@),
            r is Ok ==> r->Ok_0@.len() == v@.len() && forall|i: int|
                0 <= i < v@.len() ==> (#[trigger] r->Ok_0@[i])@ == parse(v@[i]@),
            r is Err ==> r->Err_0 == DecodeError::MalformedFrame,
    {
        let mut packets: Vec<Packet> = Vec::new();
        let mut i: usize = 0;
        while i < v.len()
            invariant
                i <= v@.len(),
                packets@.len() == i,
                forall|k: int| 0 <= k < i ==> well_framed(#[trigger] v@[k]@),
                forall|k: int| 0 <= k < i ==> (#[trigger] packets@[k])@ == parse(v@[k]@),
            decreases v@.len() - i,
        {
            match Packet::unseal_one(v[i].as_slice()) {
                Ok(p) => {
                    packets.push(p);
                },
                Err(e) => {
                    return Err(e);
                },
            }
            i = i + 1;
        }
        Ok(packets)
    }
}

} // verus!
