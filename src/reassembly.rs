//! What the receiver rebuilds from the sender's datagrams.

use vstd::prelude::*;
use crate::protocol::{FragmentPlan, HEADER_SIZE, spec_sender_key};
use crate::server::{
    fragment, fragment_end, frames, packet_of, lemma_packet_is_fragment, lemma_sender_key,
    lemma_aligned_start,
};
use crate::client::{ClientView, place};

verus! {

/// The receiver after storing datagrams `0 .. k` of `raw`, in order.
pub open spec fn store_all(v: ClientView, raw: Seq<u8>, capacity: int, k: nat) -> ClientView
    decreases k,
{
    if k == 0 {
        v
    } else {
        store_all(v, raw, capacity, (k - 1) as nat).stored(packet_of(raw, k - 1, capacity))
    }
}

/// A receiver that matches a sender's plan: same chunk count, same sample
/// bytes per datagram and same block size.
pub open spec fn matches_plan(v: ClientView, plan: FragmentPlan) -> bool {
    &&& v.num_chunks == plan.chunks_per_block
    &&& v.payload_size == plan.payload_bytes()
    &&& v.block_bytes() == plan.block_bytes
}

/// Round trip: a channel buffer filled from `block`, with the channel's
/// counter at `start`, and then stored datagram by datagram into a primed
/// receiver of matching size gives back `block` exactly, in the row that
/// the sequence codes name, provided that row lies inside the ring.
pub proof fn lemma_round_trip(
    v: ClientView,
    plan: FragmentPlan,
    block: Seq<u8>,
    channel: int,
    start: int,
)
    requires
        plan.wf(),
        block.len() == plan.block_bytes,
        v.primed(),
        matches_plan(v, plan),
        0 <= channel < v.buffers.len(),
        channel < 256,
        0 <= start < spec_sender_key(plan.chunks_per_block as int),
        start % (plan.chunks_per_block as int) == 0,
        start / (plan.chunks_per_block as int) < v.rows,
    ensures
        ({
            let n = plan.chunks_per_block as int;
            let raw = frames(block, channel, start, n, plan.payload_bytes(), n as nat);
            let w = store_all(v, raw, plan.payload_capacity as int, n as nat);
            let at = (start / n) * plan.block_bytes;
            w.buffers[channel].subrange(at, at + plan.block_bytes) == block
        }),
{
    let n = plan.chunks_per_block as int;
    lemma_sender_key(n);
    lemma_aligned_start(start, spec_sender_key(n), n);
    lemma_stored_prefix(v, plan, block, channel, start, n as nat);
    let raw = frames(block, channel, start, n, plan.payload_bytes(), n as nat);
    let w = store_all(v, raw, plan.payload_capacity as int, n as nat);
    let at = (start / n) * plan.block_bytes;
    assert(fragment_end(n - 1, plan.payload_bytes(), block.len() as int) == block.len()) by (
    nonlinear_arith)
        requires
            block.len() <= n * plan.payload_bytes(),
            fragment_end(n - 1, plan.payload_bytes(), block.len() as int) == (if n
                * plan.payload_bytes() < block.len() {
                n * plan.payload_bytes()
            } else {
                block.len() as int
            }),
    ;
    assert(block.subrange(0, block.len() as int) =~= block);
}

/// After the first `k` datagrams the row holds the block up to the end of
/// fragment `k - 1`; every store succeeds and keeps the receiver primed.
proof fn lemma_stored_prefix(
    v: ClientView,
    plan: FragmentPlan,
    block: Seq<u8>,
    channel: int,
    start: int,
    k: nat,
)
    requires
        plan.wf(),
        block.len() == plan.block_bytes,
        v.primed(),
        matches_plan(v, plan),
        0 <= channel < v.buffers.len(),
        channel < 256,
        0 <= start,
        start + plan.chunks_per_block <= 256,
        start % (plan.chunks_per_block as int) == 0,
        start / (plan.chunks_per_block as int) < v.rows,
        k <= plan.chunks_per_block,
    ensures
        ({
            let n = plan.chunks_per_block as int;
            let p = plan.payload_bytes();
            let raw = frames(block, channel, start, n, p, n as nat);
            let w = store_all(v, raw, plan.payload_capacity as int, k);
            let at = (start / n) * plan.block_bytes;
            let done = if k == 0 {
                0
            } else {
                fragment_end(k - 1, p, block.len() as int)
            };
            &&& w.primed()
            &&& matches_plan(w, plan)
            &&& w.rows == v.rows
            &&& w.buffers.len() == v.buffers.len()
            &&& 0 <= done <= block.len()
            &&& w.buffers[channel].subrange(at, at + done) == block.subrange(0, done)
        }),
    decreases k,
{
    let n = plan.chunks_per_block as int;
    let p = plan.payload_bytes();
    let cap = plan.payload_capacity as int;
    let bb = plan.block_bytes as int;
    let raw = frames(block, channel, start, n, p, n as nat);
    let row = start / n;
    let at = row * bb;
    assert(0 <= at && at + bb <= v.rows * bb) by (nonlinear_arith)
        requires
            0 <= row < v.rows,
            bb >= 0,
            at == row * bb,
    ;
    if k == 0 {
        assert(v.buffers[channel].subrange(at, at) =~= block.subrange(0, 0));
    } else {
        let i = k - 1;
        lemma_stored_prefix(v, plan, block, channel, start, (k - 1) as nat);
        let u = store_all(v, raw, cap, (k - 1) as nat);
        let d = packet_of(raw, i, cap);
        lemma_packet_is_fragment(block, channel, start, n, p, i);
        let frag = fragment(block, channel, start + i, n, p, i);
        assert(d == frag);
        let from = i * p;
        let to = fragment_end(i, p, block.len() as int);
        assert(0 <= from <= (n - 1) * p) by (nonlinear_arith)
            requires
                from == i * p,
                0 <= i < n,
                p >= 0,
        ;
        assert((i + 1) * p == from + p) by (nonlinear_arith)
            requires
                from == i * p,
        ;
        assert(from <= to <= bb);
        // The header of datagram `i`.
        assert(d[0] == channel);
        assert(d[1] == start + i);
        assert(d[3] == n);
        vstd::arithmetic::div_mod::lemma_fundamental_div_mod(start, n);
        vstd::arithmetic::div_mod::lemma_fundamental_div_mod_converse(start + i, n, row, i);
        assert(d.len() == HEADER_SIZE + to - from);
        assert(u.header_fits(d));
        assert(u.offset_of(d) == at + from);
        let data = d.subrange(HEADER_SIZE as int, d.len() as int);
        assert(data =~= block.subrange(from, to));
        let ring = u.buffers[channel];
        let ring2 = place(ring, data, at + from);
        let w = u.stored(d);
        assert(w.buffers[channel] == ring2);
        let done0 = if k == 1 {
            0
        } else {
            fragment_end(k - 2, p, block.len() as int)
        };
        if k > 1 {
            assert(done0 == from);
        } else {
            assert(from == 0) by (nonlinear_arith)
                requires
                    from == i * p,
                    i == 0,
            ;
        }
        assert(ring2.subrange(at, at + to) =~= block.subrange(0, to)) by {
            assert(ring.subrange(at, at + from) == block.subrange(0, from));
            assert forall|x: int| 0 <= x < to implies ring2.subrange(at, at + to)[x] == block.subrange(
                0,
                to,
            )[x] by {
                if x < from {
                    assert(ring2[at + x] == ring[at + x]);
                    assert(ring.subrange(at, at + from)[x] == ring[at + x]);
                } else {
                    assert(ring2[at + x] == data[x - from]);
                }
            }
        }
    }
}

} // verus!
