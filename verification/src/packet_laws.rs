//! What holds of the packet framer as a whole: cutting and putting together
//! are inverse, framing and parsing are inverse, and reassembly does not
//! depend on the order in which distinct-numbered packets arrive.

use crate::endian::{le_bytes, lemma_le_bytes_of_value, lemma_le_value_of_bytes};
use crate::packet::{
    chunk, chunk_count, concat_data, declared_len, frame_of, insert_by_order, parse, reassemble,
    sort_by_order, well_framed, PacketView,
};
use vstd::multiset::group_multiset_axioms;
use vstd::prelude::*;
use vstd::seq_lib::{
    group_to_multiset_ensures, to_multiset_build, to_multiset_contains, to_multiset_insert,
    to_multiset_len, to_multiset_remove,
};

verus! {

/// No packet is numbered below one that comes before it.
pub open spec fn ascending(ps: Seq<PacketView>) -> bool {
    forall|i: int, j: int| 0 <= i < j < ps.len() ==> ps[i].order <= ps[j].order
}

/// No two packets carry the same `order`.
pub open spec fn distinct_orders(ps: Seq<PacketView>) -> bool {
    forall|i: int, j: int| 0 <= i < j < ps.len() ==> ps[i].order != ps[j].order
}

/// A packet whose fields fit the two words of the frame header.
pub open spec fn fits_header(p: PacketView) -> bool {
    p.order <= u64::MAX && p.data.len() <= u64::MAX
}

/// Where `insert_by_order` puts a packet: behind every packet that is not
/// numbered above it, before every packet that is.
proof fn lemma_insert_at(sorted: Seq<PacketView>, p: PacketView) -> (pos: int)
    ensures
        0 <= pos <= sorted.len(),
        insert_by_order(sorted, p) == sorted.insert(pos, p),
        forall|j: int| pos <= j < sorted.len() ==> sorted[j].order > p.order,
        pos == 0 || sorted[pos - 1].order <= p.order,
    decreases sorted.len(),
{
    if sorted.len() == 0 || sorted.last().order <= p.order {
        assert(sorted.push(p) =~= sorted.insert(sorted.len() as int, p));
        sorted.len() as int
    } else {
        let front = sorted.drop_last();
        let pos = lemma_insert_at(front, p);
        assert(front.insert(pos, p).push(sorted.last()) =~= sorted.insert(pos, p));
        assert forall|j: int| pos <= j < sorted.len() implies sorted[j].order > p.order by {
            if j < front.len() {
                assert(front[j] == sorted[j]);
            }
        }
        assert(pos > 0 ==> front[pos - 1] == sorted[pos - 1]);
        pos
    }
}

/// Sorting rearranges: it neither drops nor invents nor repeats a packet.
pub proof fn lemma_sort_permutes(ps: Seq<PacketView>)
    ensures
        sort_by_order(ps).to_multiset() == ps.to_multiset(),
        sort_by_order(ps).len() == ps.len(),
    decreases ps.len(),
{
    broadcast use group_to_multiset_ensures;

    if ps.len() == 0 {
        assert(ps =~= Seq::empty());
    } else {
        lemma_sort_permutes(ps.drop_last());
        let pos = lemma_insert_at(sort_by_order(ps.drop_last()), ps.last());
        assert(ps.drop_last().push(ps.last()) =~= ps);
    }
}

/// Sorting puts the packets in ascending order.
pub proof fn lemma_sort_ascends(ps: Seq<PacketView>)
    ensures
        ascending(sort_by_order(ps)),
    decreases ps.len(),
{
    if ps.len() > 0 {
        lemma_sort_ascends(ps.drop_last());
        let pos = lemma_insert_at(sort_by_order(ps.drop_last()), ps.last());
    }
}

/// Packets that are in ascending order already stay as they are.
pub proof fn lemma_sort_keeps_ascending(ps: Seq<PacketView>)
    requires
        ascending(ps),
    ensures
        sort_by_order(ps) == ps,
    decreases ps.len(),
{
    if ps.len() == 0 {
        assert(ps =~= Seq::empty());
    } else {
        lemma_sort_keeps_ascending(ps.drop_last());
        assert(ps.drop_last().push(ps.last()) =~= ps);
    }
}

/// The payloads of the first `k` chunks of a buffer make up its first
/// `128 * k` bytes, or all of it.
proof fn lemma_concat_chunks(bytes: Seq<u8>, k: int)
    requires
        0 <= k <= chunk_count(bytes.len()),
    ensures
        concat_data(chunk(bytes).take(k)) == bytes.take(
            if 128 * k <= bytes.len() {
                128 * k
            } else {
                bytes.len() as int
            },
        ),
    decreases k,
{
    let head = chunk(bytes).take(k);
    if k == 0 {
        assert(concat_data(head) =~= bytes.take(0));
    } else {
        lemma_concat_chunks(bytes, k - 1);
        assert(head.drop_last() =~= chunk(bytes).take(k - 1));
        assert(head.last() == chunk(bytes)[k - 1]);
        let end = if 128 * k <= bytes.len() {
            128 * k
        } else {
            bytes.len() as int
        };
        assert(bytes.take(128 * (k - 1)) + bytes.subrange(128 * (k - 1), end) =~= bytes.take(end));
    }
}

/// Cutting a buffer into packets and putting them back together gives the
/// buffer back, whatever its length.
pub proof fn lemma_chunk_round_trip(bytes: Seq<u8>)
    ensures
        reassemble(chunk(bytes)) == bytes,
{
    let ps = chunk(bytes);
    lemma_sort_keeps_ascending(ps);
    lemma_concat_chunks(bytes, ps.len() as int);
    assert(ps.take(ps.len() as int) =~= ps);
    assert(bytes.take(bytes.len() as int) =~= bytes);
}

/// The frame of a packet is well formed, and parsing it gives the packet back.
pub proof fn lemma_parse_of_frame(p: PacketView)
    requires
        fits_header(p),
    ensures
        well_framed(frame_of(p)),
        frame_of(p).len() == 16 + p.data.len(),
        parse(frame_of(p)) == p,
{
    let frame = frame_of(p);
    lemma_le_value_of_bytes(p.order as u64);
    lemma_le_value_of_bytes(p.data.len() as u64);
    assert(frame.subrange(0, 8) =~= le_bytes(p.order as u64));
    assert(frame.subrange(8, 16) =~= le_bytes(p.data.len() as u64));
    assert(frame.subrange(16, 16 + p.data.len() as int) =~= p.data);
}

/// Framing the packet of a well-formed frame gives the frame back, without
/// whatever stood behind its payload.
pub proof fn lemma_frame_of_parse(frame: Seq<u8>)
    requires
        well_framed(frame),
    ensures
        fits_header(parse(frame)),
        frame_of(parse(frame)) == frame.take(16 + declared_len(frame)),
{
    let order = frame.subrange(0, 8);
    let len = frame.subrange(8, 16);
    lemma_le_bytes_of_value(order);
    lemma_le_bytes_of_value(len);
    assert(frame_of(parse(frame)) =~= frame.take(16 + declared_len(frame)));
}

/// Framing every packet and parsing every frame gives the packets back, in
/// the same order, so the decoded frames reassemble to what the packets do.
pub proof fn lemma_wire_round_trip(ps: Seq<PacketView>)
    requires
        forall|i: int| 0 <= i < ps.len() ==> fits_header(#[trigger] ps[i]),
    ensures
        forall|i: int| 0 <= i < ps.len() ==> well_framed(frame_of(#[trigger] ps[i])),
        ps.map_values(|p: PacketView| parse(frame_of(p))) == ps,
        reassemble(ps.map_values(|p: PacketView| parse(frame_of(p)))) == reassemble(ps),
{
    assert forall|i: int| 0 <= i < ps.len() implies well_framed(frame_of(#[trigger] ps[i]))
        && parse(frame_of(ps[i])) == ps[i] by {
        lemma_parse_of_frame(ps[i]);
    }
    assert(ps.map_values(|p: PacketView| parse(frame_of(p))) =~= ps);
}

/// Rearranged packets with distinct numbers still have distinct numbers.
proof fn lemma_distinct_orders_of_permutation(p: Seq<PacketView>, q: Seq<PacketView>)
    requires
        distinct_orders(p),
        p.to_multiset() == q.to_multiset(),
    ensures
        distinct_orders(q),
{
    broadcast use group_to_multiset_ensures;

    assert(p.no_duplicates());
    p.lemma_multiset_has_no_duplicates();
    q.lemma_multiset_has_no_duplicates_conv();
    assert forall|i: int, j: int| 0 <= i < j < q.len() implies q[i].order != q[j].order by {
        assert(q.contains(q[i]));
        assert(q.contains(q[j]));
        to_multiset_contains(q, q[i]);
        to_multiset_contains(q, q[j]);
        to_multiset_contains(p, q[i]);
        to_multiset_contains(p, q[j]);
        let a = choose|a: int| 0 <= a < p.len() && p[a] == q[i];
        let b = choose|b: int| 0 <= b < p.len() && p[b] == q[j];
        assert(q[i] != q[j]);
        assert(a != b);
    }
}

/// Two ascending arrangements of the same distinct-numbered packets are equal.
proof fn lemma_ascending_unique(x: Seq<PacketView>, y: Seq<PacketView>)
    requires
        ascending(x),
        ascending(y),
        distinct_orders(x),
        x.to_multiset() == y.to_multiset(),
    ensures
        x == y,
    decreases x.len(),
{
    broadcast use group_to_multiset_ensures;
    broadcast use group_multiset_axioms;

    to_multiset_len(x);
    to_multiset_len(y);
    if x.len() == 0 {
        assert(x =~= y);
    } else {
        let n = x.len() as int;
        assert(x.contains(x[n - 1]));
        assert(y.contains(y[n - 1]));
        to_multiset_contains(x, x[n - 1]);
        to_multiset_contains(y, x[n - 1]);
        to_multiset_contains(x, y[n - 1]);
        to_multiset_contains(y, y[n - 1]);
        let i = choose|i: int| 0 <= i < n && x[i] == y[n - 1];
        let j = choose|j: int| 0 <= j < n && y[j] == x[n - 1];
        assert(i == n - 1);
        assert(x.remove(n - 1) =~= x.drop_last());
        assert(y.remove(n - 1) =~= y.drop_last());
        to_multiset_remove(x, n - 1);
        to_multiset_remove(y, n - 1);
        assert(x.drop_last().to_multiset() == y.drop_last().to_multiset());
        lemma_ascending_unique(x.drop_last(), y.drop_last());
        assert(x =~= x.drop_last().push(x[n - 1]));
        assert(y =~= y.drop_last().push(y[n - 1]));
    }
}

/// Packets with distinct numbers reassemble to the same buffer in whatever
/// order they arrive.
pub proof fn lemma_reassemble_any_arrival_order(sent: Seq<PacketView>, arrived: Seq<PacketView>)
    requires
        distinct_orders(sent),
        arrived.to_multiset() == sent.to_multiset(),
    ensures
        sort_by_order(arrived) == sort_by_order(sent),
        reassemble(arrived) == reassemble(sent),
{
    lemma_sort_permutes(sent);
    lemma_sort_permutes(arrived);
    lemma_sort_ascends(sent);
    lemma_sort_ascends(arrived);
    lemma_distinct_orders_of_permutation(sent, sort_by_order(sent));
    lemma_ascending_unique(sort_by_order(sent), sort_by_order(arrived));
}

/// Sequences that hold the same elements equally often still do so after
/// each element has been replaced by its image.
proof fn lemma_map_of_permutation<A, B>(a: Seq<A>, b: Seq<A>, f: spec_fn(A) -> B)
    requires
        a.to_multiset() == b.to_multiset(),
    ensures
        a.map_values(f).to_multiset() == b.map_values(f).to_multiset(),
    decreases a.len(),
{
    broadcast use group_to_multiset_ensures;
    broadcast use group_multiset_axioms;

    to_multiset_len(a);
    to_multiset_len(b);
    if a.len() == 0 {
        assert(a.map_values(f) =~= b.map_values(f));
    } else {
        let n = a.len() as int;
        let x = a[n - 1];
        assert(a.contains(x));
        to_multiset_contains(a, x);
        to_multiset_contains(b, x);
        let j = choose|j: int| 0 <= j < b.len() && b[j] == x;
        let a1 = a.remove(n - 1);
        let b1 = b.remove(j);
        to_multiset_remove(a, n - 1);
        to_multiset_remove(b, j);
        lemma_map_of_permutation(a1, b1, f);
        assert(a.map_values(f) =~= a1.map_values(f).push(f(x)));
        assert(b.map_values(f) =~= b1.map_values(f).insert(j, f(x)));
        to_multiset_build(a1.map_values(f), f(x));
        to_multiset_insert(b1.map_values(f), j, f(x));
    }
}

/// The frames of distinct-numbered packets, fed to the decoder in whatever
/// order, are all well formed and reassemble to what the packets do.
pub proof fn lemma_wire_round_trip_any_order(sent: Seq<PacketView>, frames: Seq<Seq<u8>>)
    requires
        forall|i: int| 0 <= i < sent.len() ==> fits_header(#[trigger] sent[i]),
        distinct_orders(sent),
        frames.to_multiset() == sent.map_values(|p: PacketView| frame_of(p)).to_multiset(),
    ensures
        forall|i: int| 0 <= i < frames.len() ==> well_framed(#[trigger] frames[i]),
        reassemble(frames.map_values(|f: Seq<u8>| parse(f))) == reassemble(sent),
{
    let framed = sent.map_values(|p: PacketView| frame_of(p));
    let arrived = frames.map_values(|f: Seq<u8>| parse(f));
    assert forall|i: int| 0 <= i < frames.len() implies well_framed(#[trigger] frames[i]) by {
        assert(frames.contains(frames[i]));
        to_multiset_contains(frames, frames[i]);
        to_multiset_contains(framed, frames[i]);
        let j = choose|j: int| 0 <= j < framed.len() && framed[j] == frames[i];
        lemma_parse_of_frame(sent[j]);
    }
    lemma_map_of_permutation(frames, framed, |f: Seq<u8>| parse(f));
    assert forall|i: int| 0 <= i < sent.len() implies framed.map_values(|f: Seq<u8>| parse(f))[i]
        == sent[i] by {
        lemma_parse_of_frame(sent[i]);
    }
    assert(framed.map_values(|f: Seq<u8>| parse(f)) =~= sent);
    lemma_reassemble_any_arrival_order(sent, arrived);
}

} // verus!
