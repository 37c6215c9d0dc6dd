//! The receiving side: learns the session's parameters from traffic, places
//! each datagram's payload at its row and column in a ring of reassembled
//! blocks, and hands the rows out in order.

use vstd::prelude::*;
use crate::protocol::{
    HEADER_SIZE, SAMPLE_BYTES, two_to, floor_log2, ceil_log2, log2_floor, log2_ceil, power_of_two,
    lemma_two_to_monotone, lemma_two_to_adds, lemma_floor_log2_bounds, lemma_ceil_log2_bounds,
    cycle_step, cycle_after, lemma_cycle_after, zeroed,
};

verus! {

/// Wraparound modulus the receiver assumes for `chunks` fragments per block:
/// `chunks` times the power of two that brings it up to at most 256.
pub open spec fn spec_receiver_key(chunks: int) -> int {
    chunks * two_to((8 - ceil_log2(chunks as nat)) as nat)
}

/// Rows of the ring: how many blocks fit before the sequence code wraps.
pub open spec fn spec_rows(chunks: int) -> int {
    spec_receiver_key(chunks) / chunks
}

/// Samples per block: the largest power of two whose bytes fit in the
/// payload bytes of `chunks` datagrams of `payload_size` bytes.
pub open spec fn spec_block_samples(payload_size: int, chunks: int) -> int {
    two_to(floor_log2((payload_size * chunks / SAMPLE_BYTES as int) as nat)) as int
}

/// Bytes of the ring for these session parameters.
pub open spec fn spec_ring_size(payload_size: int, chunks: int) -> int {
    spec_rows(chunks) * (spec_block_samples(payload_size, chunks) * SAMPLE_BYTES)
}

/// Whether a receiver can be primed with these parameters: the chunk count
/// is between 1 and 256, the datagrams carry at least one sample, and the
/// ring is addressable.
pub open spec fn prime_fits(payload_size: int, chunks: int) -> bool {
    &&& 1 <= chunks <= 256
    &&& payload_size * chunks >= SAMPLE_BYTES
    &&& payload_size * chunks <= usize::MAX
    &&& spec_ring_size(payload_size, chunks) <= usize::MAX
}

/// Why a datagram was not placed in the ring.
#[derive(Clone, Copy, Debug, PartialEq, Eq, Structural)]
pub enum PacketError {
    /// The datagram is shorter than a header.
    ShortRead,
    /// The header names an unknown channel, another chunk count than the
    /// session's, or a row or column outside the ring.
    MalformedHeader,
}

/// The receiver's state as the contracts see it.
pub struct ClientView {
    pub sample_rate: int,
    pub key: int,
    pub rows: int,
    /// Samples per block.
    pub audio_buf_size: int,
    /// Sample bytes carried by a full datagram.
    pub payload_size: int,
    pub num_chunks: int,
    pub server_address: Seq<char>,
    /// One ring of `rows` blocks per stream.
    pub buffers: Seq<Seq<u8>>,
    /// Per stream, the row handed out next.
    pub row_counts: Seq<int>,
}

impl ClientView {
    /// Bytes of one block.
    pub open spec fn block_bytes(&self) -> int {
        self.audio_buf_size * SAMPLE_BYTES
    }

    /// The state after priming: the session parameters are set and every
    /// ring holds `rows` blocks, each cursor inside its ring.
    pub open spec fn primed(&self) -> bool {
        &&& 1 <= self.num_chunks <= 256
        &&& 1 <= self.rows
        &&& self.payload_size * self.num_chunks <= usize::MAX
        &&& self.block_bytes() >= 1
        &&& self.rows * self.block_bytes() <= usize::MAX
        &&& self.buffers.len() == self.row_counts.len()
        &&& forall|c: int|
            0 <= c < self.buffers.len() ==> #[trigger] self.buffers[c].len() == self.rows
                * self.block_bytes()
        &&& forall|c: int| 0 <= c < self.row_counts.len() ==> 0 <= #[trigger] self.row_counts[c] < self.rows
    }

    /// Whether the header of `d` can be placed: it names a ring, carries the
    /// session's chunk count, and its row and column lie inside the ring
    /// with the payload ending inside the row.
    pub open spec fn header_fits(&self, d: Seq<u8>) -> bool {
        &&& d[0] < self.buffers.len()
        &&& d[3] == self.num_chunks
        &&& d[1] / d[3] < self.rows
        &&& (d[1] % d[3]) * self.payload_size + (d.len() - HEADER_SIZE) <= self.block_bytes()
    }

    /// Where in its ring the payload of `d` starts.
    pub open spec fn offset_of(&self, d: Seq<u8>) -> int {
        (d[1] / d[3]) * self.block_bytes() + (d[1] % d[3]) * self.payload_size
    }

    /// What storing `d` yields.
    pub open spec fn store_result(&self, d: Seq<u8>) -> Result<(), PacketError> {
        if d.len() < HEADER_SIZE {
            Err(PacketError::ShortRead)
        } else if !self.header_fits(d) {
            Err(PacketError::MalformedHeader)
        } else {
            Ok(())
        }
    }

    /// The state after storing `d`: its payload placed at its offset in the
    /// ring it names where the header fits, no change otherwise.
    pub open spec fn stored(&self, d: Seq<u8>) -> ClientView {
        if self.store_result(d) is Ok {
            ClientView {
                buffers: self.buffers.update(
                    d[0] as int,
                    place(
                        self.buffers[d[0] as int],
                        d.subrange(HEADER_SIZE as int, d.len() as int),
                        self.offset_of(d),
                    ),
                ),
                ..*self
            }
        } else {
            *self
        }
    }
}

/// `ring` with `data` written over it from index `at` on.
pub open spec fn place(ring: Seq<u8>, data: Seq<u8>, at: int) -> Seq<u8> {
    Seq::new(
        ring.len(),
        |k: int|
            if at <= k < at + data.len() {
                data[k - at]
            } else {
                ring[k]
            },
    )
}

/// Receiver of fixed-size sample blocks.
pub struct Client {
    sample_rate: usize,
    key: usize,
    rows: usize,
    audio_buf_size: usize,
    payload_size: usize,
    num_chunks: usize,
    server_address: String,
    buffer: Vec<Vec<u8>>,
    row_count: Vec<usize>,
}

impl View for Client {
    type V = ClientView;

    closed spec fn view(&self) -> ClientView {
        ClientView {
            sample_rate: self.sample_rate as int,
            key: self.key as int,
            rows: self.rows as int,
            audio_buf_size: self.audio_buf_size as int,
            payload_size: self.payload_size as int,
            num_chunks: self.num_chunks as int,
            server_address: self.server_address@,
            buffers: Seq::new(self.buffer@.len(), |c: int| self.buffer@[c]@),
            row_counts: Seq::new(self.row_count@.len(), |c: int| self.row_count@[c] as int),
        }
    }
}

impl Client {
    /// A receiver for the sender at `server_address`, not yet primed.
    pub fn new(server_address: &str) -> (r: Client)
        ensures
            r@ == (ClientView {
                sample_rate: 0,
                key: 0,
                rows: 0,
                audio_buf_size: 0,
                payload_size: 0,
                num_chunks: 0,
                server_address: server_address@,
                buffers: Seq::empty(),
                row_counts: Seq::empty(),
            }),
    {
        let r = Client {
            sample_rate: 0,
            key: 0,
            rows: 0,
            audio_buf_size: 0,
            payload_size: 0,
            num_chunks: 0,
            server_address: server_address.to_owned(),
            buffer: Vec::new(),
            row_count: Vec::new(),
        };
        assert(r@.buffers =~= Seq::empty());
        assert(r@.row_counts =~= Seq::empty());
        r
    }
}

impl Client {
    /// Sets the session parameters learned from traffic: `payload_size`
    /// sample bytes per full datagram, `num_chunks` datagrams per block and
    /// the sender's sample-rate code. Allocates one zeroed ring of `rows`
    /// blocks and puts its cursor on row zero.
    pub fn prime(&mut self, payload_size: usize, num_chunks: usize, sample_rate: u8)
        requires
            prime_fits(payload_size as int, num_chunks as int),
        ensures
            final(self)@.primed(),
            final(self)@ == (ClientView {
                sample_rate: sample_rate as int,
                key: spec_receiver_key(num_chunks as int),
                rows: spec_rows(num_chunks as int),
                audio_buf_size: spec_block_samples(payload_size as int, num_chunks as int),
                payload_size: payload_size as int,
                num_chunks: num_chunks as int,
                server_address: old(self)@.server_address,
                buffers: seq![
                    Seq::new(
                        spec_ring_size(payload_size as int, num_chunks as int) as nat,
                        |k: int| 0u8,
                    ),
                ],
                row_counts: seq![0int],
            }),
    {
        let cl = log2_ceil(num_chunks);
        proof {
            lemma_receiver_key(num_chunks as int);
        }
        let rows = power_of_two(8 - cl);
        let key = num_chunks * rows;
        let pn = payload_size * num_chunks;
        let fl = log2_floor(pn / SAMPLE_BYTES);
        proof {
            lemma_floor_log2_bounds((pn / SAMPLE_BYTES) as nat);
        }
        let audio_buf_size = power_of_two(fl);
        let ring = rows * (audio_buf_size * SAMPLE_BYTES);
        self.sample_rate = sample_rate as usize;
        self.key = key;
        self.rows = rows;
        self.audio_buf_size = audio_buf_size;
        self.payload_size = payload_size;
        self.num_chunks = num_chunks;
        let mut buffer: Vec<Vec<u8>> = Vec::new();
        buffer.push(zeroed(ring));
        let mut row_count: Vec<usize> = Vec::new();
        row_count.push(0);
        self.buffer = buffer;
        self.row_count = row_count;
        assert(self@.buffers =~= seq![
            Seq::new(
                spec_ring_size(payload_size as int, num_chunks as int) as nat,
                |k: int| 0u8,
            ),
        ]);
        assert(self@.row_counts =~= seq![0int]);
    }
}

impl Client {
    /// The next row of stream `channel_num`: the block under its cursor.
    /// The cursor moves on by one row, wrapping after the last.
    pub fn get_next_row(&mut self, channel_num: usize) -> (r: &[u8])
        requires
            old(self)@.primed(),
            channel_num < old(self)@.buffers.len(),
        ensures
            final(self)@.primed(),
            r@ == old(self)@.buffers[channel_num as int].subrange(
                old(self)@.row_counts[channel_num as int] * old(self)@.block_bytes(),
                (old(self)@.row_counts[channel_num as int] + 1) * old(self)@.block_bytes(),
            ),
            final(self)@ == (ClientView {
                row_counts: old(self)@.row_counts.update(
                    channel_num as int,
                    cycle_step(old(self)@.row_counts[channel_num as int], old(self)@.rows),
                ),
                ..old(self)@
            }),
    {
        let ghost v0 = self@;
        let row = self.row_count[channel_num];
        proof {
            lemma_block_bytes_fit(v0);
        }
        let block_bytes = self.audio_buf_size * SAMPLE_BYTES;
        assert(row < self.rows && self.buffer@[channel_num as int]@ == v0.buffers[channel_num as int]);
        assert((row + 1) * block_bytes <= self.rows * block_bytes) by (nonlinear_arith)
            requires
                row < self.rows,
                block_bytes >= 0,
        ;
        assert((row + 1) * block_bytes == row * block_bytes + block_bytes) by (nonlinear_arith);
        let start_idx = row * block_bytes;
        let end_idx = start_idx + block_bytes;
        self.row_count[channel_num] = (row + 1) % self.rows;
        assert(self@.row_counts =~= v0.row_counts.update(
            channel_num as int,
            cycle_step(v0.row_counts[channel_num as int], v0.rows),
        ));
        assert(self@.buffers =~= v0.buffers);
        proof {
            assert forall|c: int| 0 <= c < self@.row_counts.len() implies 0
                <= #[trigger] self@.row_counts[c] < self@.rows by {
                if c != channel_num {
                    assert(self@.row_counts[c] == v0.row_counts[c]);
                }
            }
        }
        &self.buffer[channel_num].as_slice()[start_idx..end_idx]
    }

    /// Places the payload of `datagram` at the row and column its header
    /// names in the ring of the channel it names. A datagram shorter than
    /// a header, or whose header does not fit the session, is dropped and
    /// reported; nothing changes then.
    pub fn store_packet(&mut self, datagram: &[u8]) -> (r: Result<(), PacketError>)
        requires
            old(self)@.primed(),
        ensures
            final(self)@.primed(),
            r == old(self)@.store_result(datagram@),
            final(self)@ == old(self)@.stored(datagram@),
    {
        let ghost v0 = self@;
        let ghost d = datagram@;
        if datagram.len() < HEADER_SIZE {
            return Err(PacketError::ShortRead);
        }
        let channel = datagram[0] as usize;
        let sequence = datagram[1] as usize;
        let chunks = datagram[3] as usize;
        let len = datagram.len() - HEADER_SIZE;
        proof {
            lemma_block_bytes_fit(v0);
        }
        let block_bytes = self.audio_buf_size * SAMPLE_BYTES;
        if channel >= self.buffer.len() || chunks != self.num_chunks {
            return Err(PacketError::MalformedHeader);
        }
        let row = sequence / chunks;
        let column = sequence % chunks;
        if row >= self.rows {
            return Err(PacketError::MalformedHeader);
        }
        assert(column * self.payload_size <= self.payload_size * self.num_chunks) by (
        nonlinear_arith)
            requires
                column < chunks,
                chunks == self.num_chunks,
        ;
        let column_start = column * self.payload_size;
        if column_start > block_bytes || len > block_bytes - column_start {
            return Err(PacketError::MalformedHeader);
        }
        assert(row * block_bytes + block_bytes <= self.rows * block_bytes) by (nonlinear_arith)
            requires
                row < self.rows,
                block_bytes >= 0,
        ;
        let offset = row * block_bytes + column_start;
        assert(offset == v0.offset_of(d));
        let ghost data = d.subrange(HEADER_SIZE as int, d.len() as int);
        let ghost ring0 = v0.buffers[channel as int];
        assert(place(ring0, data.subrange(0, 0), offset as int) =~= ring0);
        assert(v0.buffers.update(channel as int, ring0) =~= v0.buffers);
        let mut j: usize = 0;
        while j < len
            invariant
                v0.primed(),
                d == datagram@,
                data == d.subrange(HEADER_SIZE as int, d.len() as int),
                len == data.len(),
                len + HEADER_SIZE == d.len(),
                len + HEADER_SIZE == datagram.len(),
                channel < v0.buffers.len(),
                self.buffer@.len() == v0.buffers.len(),
                self.buffer@[channel as int]@.len() == ring0.len(),
                ring0 == v0.buffers[channel as int],
                offset + len <= ring0.len(),
                j <= len,
                self@ == (ClientView {
                    buffers: v0.buffers.update(
                        channel as int,
                        place(ring0, data.subrange(0, j as int), offset as int),
                    ),
                    ..v0
                }),
            decreases len - j,
        {
            let ghost prev = self@.buffers;
            assert(self.buffer@[channel as int]@ == prev[channel as int]);
            self.buffer[channel][offset + j] = datagram[HEADER_SIZE + j];
            assert(data[j as int] == datagram@[HEADER_SIZE + j]);
            assert(self@.buffers =~= prev.update(
                channel as int,
                prev[channel as int].update(offset + j, data[j as int]),
            ));
            j = j + 1;
            assert(place(ring0, data.subrange(0, j as int), offset as int) =~= place(
                ring0,
                data.subrange(0, (j - 1) as int),
                offset as int,
            ).update((offset + j - 1) as int, data[j - 1]));
            assert(self@.buffers =~= v0.buffers.update(
                channel as int,
                place(ring0, data.subrange(0, j as int), offset as int),
            ));
        }
        assert(data.subrange(0, len as int) =~= data);
        Ok(())
    }
}

/// Whether the probe takes `d` as the datagram to learn the session from:
/// a whole header with a nonzero chunk count that is not the last fragment
/// of its block, unless blocks are sent whole.
pub open spec fn probe_accepts(d: Seq<u8>) -> bool {
    &&& d.len() >= HEADER_SIZE
    &&& d[3] != 0
    &&& (d[1] % d[3] != d[3] - 1 || d[3] == 1)
}

/// What a datagram tells of the session, if the probe takes it: the
/// payload bytes it carries, the chunk count and the sample-rate code.
pub fn packet_info(datagram: &[u8]) -> (r: Option<(usize, usize, u8)>)
    ensures
        r is Some <==> probe_accepts(datagram@),
        r matches Some(info) ==> info == (
            (datagram@.len() - HEADER_SIZE) as usize,
            datagram@[3] as usize,
            datagram@[2],
        ),
{
    if datagram.len() < HEADER_SIZE || datagram[3] == 0 {
        return None;
    }
    let chunks = datagram[3];
    if datagram[1] % chunks != chunks - 1 || chunks == 1 {
        Some((datagram.len() - HEADER_SIZE, chunks as usize, datagram[2]))
    } else {
        None
    }
}

/// Whether `prime` may be called with these parameters.
pub fn can_prime(payload_size: usize, num_chunks: usize) -> (r: bool)
    ensures
        r == prime_fits(payload_size as int, num_chunks as int),
{
    if num_chunks < 1 || num_chunks > 256 || payload_size > usize::MAX / num_chunks {
        proof {
            if 1 <= num_chunks <= 256 {
                assert(payload_size * num_chunks > usize::MAX) by (nonlinear_arith)
                    requires
                        payload_size > (usize::MAX as int) / (num_chunks as int),
                        num_chunks >= 1,
                ;
            }
        }
        return false;
    }
    assert(payload_size * num_chunks <= usize::MAX) by (nonlinear_arith)
        requires
            payload_size <= (usize::MAX as int) / (num_chunks as int),
            num_chunks >= 1,
    ;
    let pn = payload_size * num_chunks;
    if pn < SAMPLE_BYTES {
        return false;
    }
    proof {
        lemma_receiver_key(num_chunks as int);
        lemma_floor_log2_bounds((pn / SAMPLE_BYTES) as nat);
    }
    let rows = power_of_two(8 - log2_ceil(num_chunks));
    let audio_buf_size = power_of_two(log2_floor(pn / SAMPLE_BYTES));
    let block_bytes = audio_buf_size * SAMPLE_BYTES;
    let r = block_bytes <= usize::MAX / rows;
    proof {
        if r {
            assert(rows * block_bytes <= usize::MAX) by (nonlinear_arith)
                requires
                    block_bytes <= (usize::MAX as int) / (rows as int),
                    rows >= 1,
            ;
        } else {
            assert(rows * block_bytes > usize::MAX) by (nonlinear_arith)
                requires
                    block_bytes > (usize::MAX as int) / (rows as int),
                    rows >= 1,
            ;
        }
    }
    r
}

/// Handing out rows steps the cursor by one modulo the row count: after
/// `k` rows from `c` it stands at `(c + k) % rows`, so after exactly `rows`
/// calls it is back where it started, at zero for a freshly primed receiver.
pub proof fn lemma_rows_cycle(rows: int, c: int, k: nat)
    requires
        1 <= rows,
        0 <= c < rows,
    ensures
        cycle_after(c, rows, k) == (c + k) % rows,
        cycle_after(c, rows, rows as nat) == c,
        cycle_after(0, rows, rows as nat) == 0,
{
    lemma_cycle_after(c, rows, k);
    lemma_cycle_after(c, rows, rows as nat);
    lemma_cycle_after(0, rows, rows as nat);
    vstd::arithmetic::div_mod::lemma_fundamental_div_mod_converse(c + rows, rows, 1, c);
    vstd::arithmetic::div_mod::lemma_fundamental_div_mod_converse(rows, rows, 1, 0);
}

/// A primed receiver's block size is a positive machine integer.
proof fn lemma_block_bytes_fit(v: ClientView)
    requires
        v.primed(),
    ensures
        1 <= v.block_bytes() <= usize::MAX,
{
    assert(v.block_bytes() <= v.rows * v.block_bytes()) by (nonlinear_arith)
        requires
            v.rows >= 1,
            v.block_bytes() >= 1,
    ;
}

impl Client {
    /// Sample-rate code learned when priming.
    pub fn get_sample_rate(&self) -> (r: usize)
        ensures
            r == self@.sample_rate,
    {
        self.sample_rate
    }

    /// Samples per block.
    pub fn get_audio_buf_size(&self) -> (r: usize)
        ensures
            r == self@.audio_buf_size,
    {
        self.audio_buf_size
    }

    /// Address of the sender this receiver listens for.
    pub fn get_server_address(&self) -> (r: String)
        ensures
            r@ == self@.server_address,
    {
        self.server_address.clone()
    }

    /// Wraparound modulus of the sequence codes assumed when priming.
    pub fn get_key(&self) -> (r: usize)
        ensures
            r == self@.key,
    {
        self.key
    }

    /// Rows of each ring.
    pub fn get_rows(&self) -> (r: usize)
        ensures
            r == self@.rows,
    {
        self.rows
    }

    /// Sample bytes carried by a full datagram.
    pub fn get_payload_size(&self) -> (r: usize)
        ensures
            r == self@.payload_size,
    {
        self.payload_size
    }

    /// Number of rings.
    pub fn num_channels(&self) -> (r: usize)
        ensures
            r == self@.buffers.len(),
    {
        self.buffer.len()
    }

    /// Bytes of the ring of stream `channel_num`.
    pub fn get_buffer_len(&self, channel_num: usize) -> (r: usize)
        requires
            channel_num < self@.buffers.len(),
        ensures
            r == self@.buffers[channel_num as int].len(),
    {
        self.buffer[channel_num].len()
    }

    /// Row of stream `channel_num` that is handed out next.
    pub fn get_row_count(&self, channel_num: usize) -> (r: usize)
        requires
            channel_num < self@.row_counts.len(),
        ensures
            r == self@.row_counts[channel_num as int],
    {
        self.row_count[channel_num]
    }

    /// The whole ring of stream `channel_num`.
    pub fn read_buffer(&self, channel_num: usize) -> (r: &[u8])
        requires
            channel_num < self@.buffers.len(),
        ensures
            r@ == self@.buffers[channel_num as int],
    {
        self.buffer[channel_num].as_slice()
    }
}

/// For 1 to 256 chunks the receiver's key is a multiple of the chunk count
/// between the chunk count and 256, with a power of two as quotient.
pub proof fn lemma_receiver_key(chunks: int)
    requires
        1 <= chunks <= 256,
    ensures
        ceil_log2(chunks as nat) <= 8,
        spec_rows(chunks) == two_to((8 - ceil_log2(chunks as nat)) as nat),
        1 <= spec_rows(chunks) <= 256,
        chunks <= spec_receiver_key(chunks) <= 256,
{
    let cl = ceil_log2(chunks as nat);
    lemma_ceil_log2_bounds(chunks as nat);
    reveal_with_fuel(two_to, 9);
    assert(two_to(8) == 256);
    if cl > 8 {
        lemma_two_to_monotone(8, (cl - 1) as nat);
        assert(false);
    }
    let e = (8 - cl) as nat;
    let r = two_to(e);
    lemma_two_to_adds(cl, e);
    lemma_two_to_monotone(0, e);
    lemma_two_to_monotone(e, 8);
    assert(chunks * r <= 256) by (nonlinear_arith)
        requires
            chunks <= two_to(cl),
            two_to(cl) * r == 256,
            r >= 1,
    ;
    assert(chunks * r >= chunks) by (nonlinear_arith)
        requires
            chunks >= 1,
            r >= 1,
    ;
    vstd::arithmetic::div_mod::lemma_fundamental_div_mod_converse(chunks * r, chunks, r as int, 0);
}

} // verus!
