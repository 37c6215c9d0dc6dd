//! The sending side: splits each channel's sample block into header-prefixed
//! datagrams laid out back to back in one buffer per channel.

use vstd::prelude::*;
use crate::protocol::{
    FragmentPlan, HEADER_SIZE, zeroed, plan_fits, header_bytes, spec_sender_key, cycle_step,
    cycle_after, lemma_cycle_after,
};

verus! {

/// Sample-rate code written into every header.
pub const SAMPLE_RATE_CODE: u8 = 0;

/// Index one past the last block byte carried by fragment `i`.
pub open spec fn fragment_end(i: int, payload: int, block_len: int) -> int {
    if (i + 1) * payload < block_len {
        (i + 1) * payload
    } else {
        block_len
    }
}

/// Fragment `i` of a block: its header, then its share of the block.
pub open spec fn fragment(
    block: Seq<u8>,
    channel: int,
    sequence: int,
    chunks: int,
    payload: int,
    i: int,
) -> Seq<u8> {
    header_bytes(channel, sequence, SAMPLE_RATE_CODE, chunks) + block.subrange(
        i * payload,
        fragment_end(i, payload, block.len() as int),
    )
}

/// The first `k` fragments of a block back to back, fragment `i` carrying
/// sequence code `start + i`.
pub open spec fn frames(
    block: Seq<u8>,
    channel: int,
    start: int,
    chunks: int,
    payload: int,
    k: nat,
) -> Seq<u8>
    decreases k,
{
    if k == 0 {
        Seq::empty()
    } else {
        frames(block, channel, start, chunks, payload, (k - 1) as nat) + fragment(
            block,
            channel,
            start + k - 1,
            chunks,
            payload,
            k - 1,
        )
    }
}

/// Datagram `i` of a channel buffer cut in windows of `capacity` bytes.
pub open spec fn packet_of(raw: Seq<u8>, i: int, capacity: int) -> Seq<u8> {
    let end = if (i + 1) * capacity < raw.len() {
        (i + 1) * capacity
    } else {
        raw.len() as int
    };
    raw.subrange(i * capacity, end)
}

/// The sender's state as the contracts see it.
pub struct ServerView {
    pub sample_rate: int,
    pub plan: FragmentPlan,
    pub key: int,
    pub send_address: Seq<char>,
    /// One datagram buffer per channel.
    pub buffers: Seq<Seq<u8>>,
    /// Per channel, the sequence code of the next header.
    pub counts: Seq<int>,
}

impl ServerView {
    /// Buffers and counters exist for every channel, each buffer has the
    /// plan's size and each counter stands at the start of a block.
    pub open spec fn wf(&self) -> bool {
        &&& self.plan.wf()
        &&& self.key == spec_sender_key(self.plan.chunks_per_block as int)
        &&& self.buffers.len() == self.counts.len()
        &&& forall|c: int|
            0 <= c < self.buffers.len() ==> #[trigger] self.buffers[c].len()
                == self.plan.raw_buffer_size
        &&& forall|c: int|
            0 <= c < self.counts.len() ==> 0 <= #[trigger] self.counts[c] < self.key
                && self.counts[c] % (self.plan.chunks_per_block as int) == 0
    }
}

/// Sender of fixed-size sample blocks, one datagram buffer per channel.
pub struct Server {
    sample_rate: usize,
    plan: FragmentPlan,
    key: usize,
    send_address: String,
    buffers: Vec<Vec<u8>>,
    count: Vec<usize>,
}

impl View for Server {
    type V = ServerView;

    closed spec fn view(&self) -> ServerView {
        ServerView {
            sample_rate: self.sample_rate as int,
            plan: self.plan,
            key: self.key as int,
            send_address: self.send_address@,
            buffers: Seq::new(self.buffers@.len(), |c: int| self.buffers@[c]@),
            counts: Seq::new(self.count@.len(), |c: int| self.count@[c] as int),
        }
    }
}

impl Server {
    /// The invariant every `Server` keeps.
    pub open spec fn wf(&self) -> bool {
        self@.wf()
    }

    /// Counters exist for every channel and each is below the key: what a
    /// header needs, also in the middle of a block.
    spec fn header_ready(&self) -> bool {
        &&& self@.plan.wf()
        &&& self@.key == spec_sender_key(self@.plan.chunks_per_block as int)
        &&& self@.buffers.len() == self@.counts.len()
        &&& forall|c: int|
            0 <= c < self@.counts.len() ==> 0 <= #[trigger] self@.counts[c] < self@.key
    }

    /// A server for blocks of `jack_buf_size` samples on `num_channels`
    /// channels over a path of `network_mtu` bytes, sending to `send_address`.
    /// Every buffer starts zeroed and every sequence counter at zero.
    pub fn new(
        jack_buf_size: usize,
        sample_rate: usize,
        num_channels: usize,
        network_mtu: usize,
        send_address: &str,
    ) -> (r: Server)
        requires
            plan_fits(jack_buf_size as int, network_mtu as int),
        ensures
            r.wf(),
            r@.plan.is_plan_for(jack_buf_size as int, network_mtu as int),
            r@.key == spec_sender_key(r@.plan.chunks_per_block as int),
            r@.sample_rate == sample_rate,
            r@.send_address == send_address@,
            r@.buffers == Seq::new(
                num_channels as nat,
                |c: int| Seq::new(r@.plan.raw_buffer_size as nat, |k: int| 0u8),
            ),
            r@.counts == Seq::new(num_channels as nat, |c: int| 0int),
    {
        let plan = match FragmentPlan::new(jack_buf_size, network_mtu) {
            Some(plan) => plan,
            None => {
                proof {
                    assert(false);
                }
                FragmentPlan {
                    block_bytes: 0,
                    chunks_per_block: 1,
                    payload_capacity: 0,
                    raw_buffer_size: 0,
                }
            },
        };
        let chunks = plan.chunks_per_block;
        proof {
            lemma_sender_key(chunks as int);
        }
        let key = (256 / chunks) * chunks;
        let mut buffers: Vec<Vec<u8>> = Vec::new();
        let mut count: Vec<usize> = Vec::new();
        let mut c: usize = 0;
        while c < num_channels
            invariant
                c <= num_channels,
                buffers@.len() == c,
                count@.len() == c,
                forall|j: int|
                    0 <= j < c ==> #[trigger] buffers@[j]@ == Seq::new(
                        plan.raw_buffer_size as nat,
                        |k: int| 0u8,
                    ),
                forall|j: int| 0 <= j < c ==> #[trigger] count@[j] == 0,
            decreases num_channels - c,
        {
            buffers.push(zeroed(plan.raw_buffer_size));
            count.push(0);
            c = c + 1;
        }
        let r = Server {
            sample_rate,
            plan,
            key,
            send_address: send_address.to_owned(),
            buffers,
            count,
        };
        assert(r@.buffers =~= Seq::new(
            num_channels as nat,
            |c: int| Seq::new(r@.plan.raw_buffer_size as nat, |k: int| 0u8),
        ));
        assert(r@.counts =~= Seq::new(num_channels as nat, |c: int| 0int));
        r
    }

    /// The next header of channel `channel_idx`; its counter steps on,
    /// wrapping at the key.
    fn generate_header(&mut self, channel_idx: usize) -> (r: [u8; 4])
        requires
            old(self).header_ready(),
            channel_idx < old(self)@.counts.len(),
        ensures
            final(self).header_ready(),
            r@ == header_bytes(
                channel_idx as int,
                old(self)@.counts[channel_idx as int],
                SAMPLE_RATE_CODE,
                old(self)@.plan.chunks_per_block as int,
            ),
            final(self)@ == (ServerView {
                counts: old(self)@.counts.update(
                    channel_idx as int,
                    cycle_step(old(self)@.counts[channel_idx as int], old(self)@.key),
                ),
                ..old(self)@
            }),
    {
        proof {
            lemma_sender_key(self.plan.chunks_per_block as int);
        }
        let channel_num = (channel_idx % 256) as u8;
        let encoded_idx = self.count[channel_idx] as u8;
        let num_chunks = self.plan.chunks_per_block as u8;
        self.count[channel_idx] = (self.count[channel_idx] + 1) % self.key;
        let r = [channel_num, encoded_idx, SAMPLE_RATE_CODE, num_chunks];
        assert(r@ =~= header_bytes(
            channel_idx as int,
            old(self)@.counts[channel_idx as int],
            SAMPLE_RATE_CODE,
            old(self)@.plan.chunks_per_block as int,
        ));
        assert(self@.counts =~= old(self)@.counts.update(
            channel_idx as int,
            cycle_step(old(self)@.counts[channel_idx as int], old(self)@.key),
        ));
        assert(self@.buffers =~= old(self)@.buffers);
        r
    }

    /// Lays the block of channel `channel_idx` out as its datagrams: fragment
    /// `i` is a header with the channel's next sequence code followed by the
    /// `i`-th share of the block. The channel's counter moves on by one block.
    pub fn fill_buffer(&mut self, jack_buf: &[u8], channel_idx: usize)
        requires
            old(self).wf(),
            channel_idx < old(self)@.buffers.len(),
            jack_buf@.len() == old(self)@.plan.block_bytes,
        ensures
            final(self).wf(),
            final(self)@ == (ServerView {
                buffers: old(self)@.buffers.update(
                    channel_idx as int,
                    frames(
                        jack_buf@,
                        channel_idx as int,
                        old(self)@.counts[channel_idx as int],
                        old(self)@.plan.chunks_per_block as int,
                        old(self)@.plan.payload_bytes(),
                        old(self)@.plan.chunks_per_block as nat,
                    ),
                ),
                counts: old(self)@.counts.update(
                    channel_idx as int,
                    (old(self)@.counts[channel_idx as int] + old(self)@.plan.chunks_per_block)
                        % old(self)@.key,
                ),
                ..old(self)@
            }),
    {
        let ghost s0 = self@;
        let ghost c = channel_idx as int;
        let ghost start = s0.counts[c];
        let ghost block = jack_buf@;
        let chunks = self.plan.chunks_per_block;
        let payload = self.plan.payload_capacity - HEADER_SIZE;
        let block_len = jack_buf.len();
        proof {
            lemma_sender_key(chunks as int);
            lemma_aligned_start(start, s0.key, chunks as int);
            vstd::arithmetic::div_mod::lemma_small_mod(start as nat, s0.key as nat);
            assert(s0.counts.update(c, (start + 0) % s0.key) =~= s0.counts);
        }
        let mut out: Vec<u8> = Vec::new();
        let mut i: usize = 0;
        while i < chunks
            invariant
                s0.wf(),
                self.header_ready(),
                c == channel_idx,
                c < s0.buffers.len(),
                block.len() == s0.plan.block_bytes,
                jack_buf@ == block,
                block_len == block.len(),
                chunks == s0.plan.chunks_per_block,
                payload == s0.plan.payload_bytes(),
                start == s0.counts[c],
                start + chunks <= s0.key,
                i <= chunks,
                self@ == (ServerView { counts: s0.counts.update(c, (start + i) % s0.key), ..s0 }),
                1 <= chunks <= s0.key,
                0 <= start,
                out@ == frames(block, c, start, chunks as int, payload as int, i as nat),
            decreases chunks - i,
        {
            proof {
                vstd::arithmetic::div_mod::lemma_small_mod((start + i) as nat, s0.key as nat);
                assert forall|k: int| 0 <= k < self@.counts.len() implies 0 <= #[trigger] self@.counts[k]
                    < self@.key by {
                    if k != c {
                        assert(self@.counts[k] == s0.counts[k]);
                    }
                }
            }
            let header = self.generate_header(channel_idx);
            out.push(header[0]);
            out.push(header[1]);
            out.push(header[2]);
            out.push(header[3]);
            assert(out@ =~= frames(block, c, start, chunks as int, payload as int, i as nat)
                + header@);
            assert(i * payload <= (chunks - 1) * payload) by (nonlinear_arith)
                requires
                    i < chunks,
                    payload >= 0,
            ;
            let from = i * payload;
            let to = if block_len - from < payload {
                block_len
            } else {
                from + payload
            };
            assert((i + 1) * payload == i * payload + payload) by (nonlinear_arith);
            assert(to == fragment_end(i as int, payload as int, block.len() as int));
            let mut j: usize = from;
            while j < to
                invariant
                    from <= j <= to <= block_len,
                    jack_buf@ == block,
                    block_len == block.len(),
                    out@ == frames(block, c, start, chunks as int, payload as int, i as nat)
                        + header@ + block.subrange(from as int, j as int),
                decreases to - j,
            {
                out.push(jack_buf[j]);
                j = j + 1;
                assert(out@ =~= frames(block, c, start, chunks as int, payload as int, i as nat)
                    + header@ + block.subrange(from as int, j as int));
            }
            assert(out@ =~= frames(
                block,
                c,
                start,
                chunks as int,
                payload as int,
                (i + 1) as nat,
            ));
            i = i + 1;
            assert(self@.counts =~= s0.counts.update(c, (start + i) % s0.key));
        }
        proof {
            lemma_frames_len(block, c, start, chunks as int, payload as int, chunks as nat);
        }
        self.buffers[channel_idx] = out;
        assert(self@.counts == s0.counts.update(c, (start + chunks) % s0.key));
        assert(self@.buffers =~= s0.buffers.update(
            c,
            frames(block, c, start, chunks as int, payload as int, chunks as nat),
        ));
        proof {
            if start + chunks < s0.key {
                vstd::arithmetic::div_mod::lemma_small_mod(
                    (start + chunks) as nat,
                    s0.key as nat,
                );
            } else {
                vstd::arithmetic::div_mod::lemma_fundamental_div_mod_converse(
                    start + chunks,
                    s0.key,
                    1,
                    0,
                );
            }
            assert(self@.counts[c] % (chunks as int) == 0) by {
                if start + chunks < s0.key {
                    vstd::arithmetic::div_mod::lemma_fundamental_div_mod(start, chunks as int);
                    assert(start + chunks == (start / (chunks as int) + 1) * chunks) by (
                    nonlinear_arith)
                        requires
                            start == chunks * (start / (chunks as int)),
                    ;
                    vstd::arithmetic::div_mod::lemma_fundamental_div_mod_converse(
                        start + chunks,
                        chunks as int,
                        start / (chunks as int) + 1,
                        0,
                    );
                } else {
                    vstd::arithmetic::div_mod::lemma_small_mod(0, chunks as nat);
                }
            }
            assert forall|k: int| 0 <= k < self@.counts.len() implies 0 <= #[trigger] self@.counts[k]
                < self@.key && self@.counts[k] % (self@.plan.chunks_per_block as int) == 0 by {
                if k != c {
                    assert(self@.counts[k] == s0.counts[k]);
                }
            }
            assert forall|k: int| 0 <= k < self@.buffers.len() implies #[trigger] self@.buffers[k].len()
                == self@.plan.raw_buffer_size by {
                if k != c {
                    assert(self@.buffers[k] == s0.buffers[k]);
                }
            }
        }
    }

    /// Datagram `i` of channel `channel_idx`: the `i`-th window of
    /// `payload_capacity` bytes of its buffer, the last one possibly shorter.
    pub fn packet(&self, channel_idx: usize, i: usize) -> (r: &[u8])
        requires
            self.wf(),
            channel_idx < self@.buffers.len(),
            i < self@.plan.chunks_per_block,
        ensures
            r@ == packet_of(
                self@.buffers[channel_idx as int],
                i as int,
                self@.plan.payload_capacity as int,
            ),
    {
        let cap = self.plan.payload_capacity;
        let raw = self.buffers[channel_idx].as_slice();
        assert(raw@ == self@.buffers[channel_idx as int]);
        proof {
            lemma_window_start(i as int, self.plan);
        }
        let from = i * cap;
        let to = if raw.len() - from < cap {
            raw.len()
        } else {
            from + cap
        };
        assert((i + 1) * cap == i * cap + cap) by (nonlinear_arith);
        &raw[from..to]
    }

    /// Number of datagrams each channel's block is sent in.
    pub fn packets_per_channel(&self) -> (r: usize)
        ensures
            r == self@.plan.chunks_per_block,
    {
        self.plan.chunks_per_block
    }

    /// Number of channels.
    pub fn num_channels(&self) -> (r: usize)
        ensures
            r == self@.buffers.len(),
    {
        self.buffers.len()
    }

    /// Bytes of a full datagram, header included.
    pub fn get_payload_size(&self) -> (r: usize)
        ensures
            r == self@.plan.payload_capacity,
    {
        self.plan.payload_capacity
    }

    /// Wraparound modulus of the sequence codes.
    pub fn get_key(&self) -> (r: usize)
        ensures
            r == self@.key,
    {
        self.key
    }

    /// Address the datagrams are meant for.
    pub fn get_send_address(&self) -> (r: String)
        ensures
            r@ == self@.send_address,
    {
        self.send_address.clone()
    }

    /// Sample rate the server was configured with.
    pub fn get_sample_rate(&self) -> (r: usize)
        ensures
            r == self@.sample_rate,
    {
        self.sample_rate
    }

    /// All datagrams of channel `channel_idx` back to back.
    pub fn read_buffer(&self, channel_idx: usize) -> (r: &[u8])
        requires
            channel_idx < self@.buffers.len(),
        ensures
            r@ == self@.buffers[channel_idx as int],
    {
        self.buffers[channel_idx].as_slice()
    }
}

/// Datagram `i` of a plan starts inside the channel buffer.
proof fn lemma_window_start(i: int, plan: FragmentPlan)
    requires
        plan.wf(),
        0 <= i < plan.chunks_per_block,
    ensures
        0 <= i * plan.payload_capacity < plan.raw_buffer_size,
{
    let n = plan.chunks_per_block as int;
    let cap = plan.payload_capacity as int;
    let p = plan.payload_bytes();
    assert(0 <= i * cap <= (n - 1) * cap) by (nonlinear_arith)
        requires
            0 <= i < n,
            cap >= 0,
    ;
    assert((n - 1) * cap == (n - 1) * p + HEADER_SIZE * (n - 1)) by (nonlinear_arith)
        requires
            cap == p + HEADER_SIZE,
    ;
}

/// Each datagram of a filled buffer is exactly one fragment of the block.
pub proof fn lemma_packet_is_fragment(
    block: Seq<u8>,
    channel: int,
    start: int,
    chunks: int,
    payload: int,
    i: int,
)
    requires
        0 <= i < chunks,
        payload >= 0,
        (chunks - 1) * payload < block.len(),
        block.len() <= chunks * payload,
    ensures
        packet_of(frames(block, channel, start, chunks, payload, chunks as nat), i, payload
            + HEADER_SIZE) == fragment(block, channel, start + i, chunks, payload, i),
{
    let cap = payload + HEADER_SIZE;
    let all = frames(block, channel, start, chunks, payload, chunks as nat);
    let before = frames(block, channel, start, chunks, payload, i as nat);
    let upto = frames(block, channel, start, chunks, payload, (i + 1) as nat);
    lemma_frames_prefix(block, channel, start, chunks, payload, chunks as nat, (i + 1) as nat);
    lemma_frames_len(block, channel, start, chunks, payload, chunks as nat);
    lemma_frames_len(block, channel, start, chunks, payload, (i + 1) as nat);
    assert(i * payload <= (chunks - 1) * payload) by (nonlinear_arith)
        requires
            i < chunks,
            payload >= 0,
    ;
    assert(i * cap == HEADER_SIZE * i + i * payload) by (nonlinear_arith)
        requires
            cap == payload + HEADER_SIZE,
    ;
    assert((i + 1) * cap == HEADER_SIZE * (i + 1) + (i + 1) * payload) by (nonlinear_arith)
        requires
            cap == payload + HEADER_SIZE,
    ;
    if i > 0 {
        lemma_frames_len(block, channel, start, chunks, payload, i as nat);
        assert(before.len() == i * cap);
    } else {
        assert(i * cap == 0) by (nonlinear_arith)
            requires
                i == 0,
        ;
    }
    if i + 1 < chunks {
        assert((i + 1) * payload <= (chunks - 1) * payload) by (nonlinear_arith)
            requires
                i + 1 < chunks,
                payload >= 0,
        ;
    } else {
        assert((i + 1) * payload >= block.len());
    }
    let frag = fragment(block, channel, start + i, chunks, payload, i);
    assert(upto == before + frag);
    assert(all.subrange(0, upto.len() as int) == upto);
    assert(upto.subrange(i * cap, upto.len() as int) =~= frag);
    assert(all.subrange(i * cap, upto.len() as int) =~= upto.subrange(i * cap, upto.len() as int));
    assert(all.subrange(i * cap, upto.len() as int) =~= fragment(
        block,
        channel,
        start + i,
        chunks,
        payload,
        i,
    ));
}

/// The first `j` fragments are a prefix of the first `k`.
pub proof fn lemma_frames_prefix(
    block: Seq<u8>,
    channel: int,
    start: int,
    chunks: int,
    payload: int,
    k: nat,
    j: nat,
)
    requires
        j <= k,
    ensures
        frames(block, channel, start, chunks, payload, j).len() <= frames(
            block,
            channel,
            start,
            chunks,
            payload,
            k,
        ).len(),
        frames(block, channel, start, chunks, payload, k).subrange(
            0,
            frames(block, channel, start, chunks, payload, j).len() as int,
        ) == frames(block, channel, start, chunks, payload, j),
    decreases k,
{
    let fk = frames(block, channel, start, chunks, payload, k);
    let fj = frames(block, channel, start, chunks, payload, j);
    if j == k {
        assert(fk.subrange(0, fj.len() as int) =~= fj);
    } else {
        let fk1 = frames(block, channel, start, chunks, payload, (k - 1) as nat);
        lemma_frames_prefix(block, channel, start, chunks, payload, (k - 1) as nat, j);
        assert(fk.subrange(0, fj.len() as int) =~= fk1.subrange(0, fj.len() as int));
    }
}

/// The sequence codes of one channel step by one modulo the key: after `k`
/// headers from code `c` the code is `(c + k) % key`, it rises by one until
/// it wraps, and from zero it first comes back to zero after exactly `key`
/// headers.
pub proof fn lemma_sequence_codes_cycle(key: int, c: int, k: nat)
    requires
        1 <= key,
        0 <= c < key,
    ensures
        cycle_after(c, key, k) == (c + k) % key,
        c + k < key ==> cycle_after(c, key, k) == c + k,
        cycle_after(0, key, key as nat) == 0,
        0 < k < key ==> cycle_after(0, key, k) != 0,
{
    lemma_cycle_after(c, key, k);
    lemma_cycle_after(0, key, key as nat);
    lemma_cycle_after(0, key, k);
    vstd::arithmetic::div_mod::lemma_fundamental_div_mod_converse(key, key, 1, 0);
    if c + k < key {
        vstd::arithmetic::div_mod::lemma_small_mod((c + k) as nat, key as nat);
    }
    if 0 < k < key {
        vstd::arithmetic::div_mod::lemma_small_mod(k, key as nat);
    }
}

/// A counter that stands at the start of a block leaves room below the key
/// for a whole block.
pub proof fn lemma_aligned_start(start: int, key: int, chunks: int)
    requires
        1 <= chunks,
        0 <= start < key,
        start % chunks == 0,
        key % chunks == 0,
    ensures
        start + chunks <= key,
{
    vstd::arithmetic::div_mod::lemma_fundamental_div_mod(start, chunks);
    vstd::arithmetic::div_mod::lemma_fundamental_div_mod(key, chunks);
    let a = start / chunks;
    let b = key / chunks;
    assert(a < b) by (nonlinear_arith)
        requires
            start == chunks * a,
            key == chunks * b,
            start < key,
            chunks >= 1,
    ;
    assert(start + chunks <= key) by (nonlinear_arith)
        requires
            start == chunks * a,
            key == chunks * b,
            a + 1 <= b,
            chunks >= 1,
    ;
}

/// A block's first `k` fragments take four header bytes each and the block
/// up to the end of fragment `k - 1`.
pub proof fn lemma_frames_len(
    block: Seq<u8>,
    channel: int,
    start: int,
    chunks: int,
    payload: int,
    k: nat,
)
    requires
        1 <= k <= chunks,
        payload >= 0,
        (chunks - 1) * payload < block.len(),
        block.len() <= chunks * payload,
    ensures
        frames(block, channel, start, chunks, payload, k).len() == HEADER_SIZE * k + fragment_end(
            k - 1,
            payload,
            block.len() as int,
        ),
        k == chunks ==> frames(block, channel, start, chunks, payload, k).len() == HEADER_SIZE * k
            + block.len(),
    decreases k,
{
    let len = block.len() as int;
    assert((k - 1) * payload <= (chunks - 1) * payload) by (nonlinear_arith)
        requires
            k <= chunks,
            payload >= 0,
    ;
    assert(0 <= (k - 1) * payload) by (nonlinear_arith)
        requires
            k >= 1,
            payload >= 0,
    ;
    assert(k * payload >= (k - 1) * payload) by (nonlinear_arith)
        requires
            payload >= 0,
    ;
    assert(fragment_end(k - 1, payload, len) >= (k - 1) * payload);
    let frag = fragment(block, channel, start + k - 1, chunks, payload, k - 1);
    assert(frag.len() == HEADER_SIZE + fragment_end(k - 1, payload, len) - (k - 1) * payload);
    assert(frames(block, channel, start, chunks, payload, k) == frames(
        block,
        channel,
        start,
        chunks,
        payload,
        (k - 1) as nat,
    ) + frag);
    if k > 1 {
        lemma_frames_len(block, channel, start, chunks, payload, (k - 1) as nat);
        assert(fragment_end(k - 2, payload, len) == (k - 1) * payload);
        assert(frames(block, channel, start, chunks, payload, (k - 1) as nat).len() == HEADER_SIZE
            * (k - 1) + (k - 1) * payload);
    } else {
        assert(frames(block, channel, start, chunks, payload, (k - 1) as nat).len() == 0);
        assert((k - 1) * payload == 0) by (nonlinear_arith)
            requires
                k == 1,
        ;
    }
    assert(frames(block, channel, start, chunks, payload, k).len() == frames(
        block,
        channel,
        start,
        chunks,
        payload,
        (k - 1) as nat,
    ).len() + frag.len());
    assert(frames(block, channel, start, chunks, payload, k).len() == HEADER_SIZE * k
        + fragment_end(k - 1, payload, len));
    if k == chunks {
        assert(fragment_end(k - 1, payload, len) == len) by (nonlinear_arith)
            requires
                k == chunks,
                len <= chunks * payload,
                fragment_end(k - 1, payload, len) == (if k * payload < len {
                    k * payload
                } else {
                    len
                }),
        ;
    }
}

/// The sender's key is a positive multiple of the chunk count, at most 256.
pub proof fn lemma_sender_key(chunks: int)
    requires
        1 <= chunks <= 256,
    ensures
        chunks <= spec_sender_key(chunks) <= 256,
        spec_sender_key(chunks) % chunks == 0,
        spec_sender_key(chunks) / chunks == 256int / chunks,
{
    let q = 256int / chunks;
    vstd::arithmetic::div_mod::lemma_fundamental_div_mod(256int, chunks);
    assert(q >= 1) by (nonlinear_arith)
        requires
            256 == chunks * q + 256int % chunks,
            0 <= 256int % chunks < chunks,
            1 <= chunks <= 256,
    ;
    assert(q * chunks >= chunks) by (nonlinear_arith)
        requires
            q >= 1,
            chunks >= 1,
    ;
    vstd::arithmetic::div_mod::lemma_fundamental_div_mod_converse(q * chunks, chunks, q, 0);
}

} // verus!
