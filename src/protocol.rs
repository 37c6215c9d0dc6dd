//! Wire-level rules shared by the sender and the receiver: the fragmentation
//! plan derived from a block size and an MTU, the header layout, and the
//! integer logarithms used when a receiver primes itself.

use vstd::prelude::*;

verus! {

/// Bytes of the header that starts every datagram.
pub const HEADER_SIZE: usize = 4;

/// Bytes of an MTU kept back for IP and UDP framing.
pub const RESERVED_OVERHEAD: usize = 100;

/// Bytes in one 32-bit sample.
pub const SAMPLE_BYTES: usize = 4;

/// Largest number of fragments a block may be split into: the chunk count
/// travels in one byte and must not be zero.
pub const MAX_CHUNKS: usize = 255;

/// Integer division rounded up.
pub open spec fn ceil_div(a: int, b: int) -> int {
    if a % b == 0 {
        a / b
    } else {
        a / b + 1
    }
}

/// Number of fragments a block of `block_sample_count` samples is split into
/// for a path of the given MTU.
pub open spec fn spec_chunks_per_block(block_sample_count: int, mtu: int) -> int {
    ceil_div(SAMPLE_BYTES * block_sample_count, mtu - RESERVED_OVERHEAD)
}

/// Bytes of one datagram: header plus an even share of the block.
pub open spec fn spec_payload_capacity(block_sample_count: int, chunks: int) -> int {
    ceil_div(SAMPLE_BYTES * block_sample_count, chunks) + HEADER_SIZE
}

/// Bytes needed per channel to hold every header and every sample byte of a block.
pub open spec fn spec_raw_buffer_size(block_sample_count: int, chunks: int) -> int {
    chunks * HEADER_SIZE + SAMPLE_BYTES * block_sample_count
}

/// Whether a plan exists for these values: the MTU leaves room past the
/// reserved overhead, the block is not empty, its chunk count fits a header
/// byte and the per-channel buffer is addressable.
pub open spec fn plan_fits(block_sample_count: int, mtu: int) -> bool {
    &&& mtu > RESERVED_OVERHEAD
    &&& block_sample_count > 0
    &&& SAMPLE_BYTES * block_sample_count <= usize::MAX
    &&& spec_chunks_per_block(block_sample_count, mtu) <= MAX_CHUNKS
    &&& spec_raw_buffer_size(
        block_sample_count,
        spec_chunks_per_block(block_sample_count, mtu),
    ) <= usize::MAX
}

/// `ceil_div` on machine integers.
pub fn div_ceil(a: usize, b: usize) -> (r: usize)
    requires
        b > 0,
    ensures
        r == ceil_div(a as int, b as int),
{
    if a % b == 0 {
        a / b
    } else {
        assert(b >= 2);
        assert(a / b <= a / 2) by (nonlinear_arith)
            requires
                b >= 2,
                a >= 0,
        ;
        a / b + 1
    }
}

/// How one block of one channel is laid out in datagrams.
#[derive(Clone, Copy, Debug, PartialEq, Eq)]
pub struct FragmentPlan {
    /// Bytes of sample data in one block.
    pub block_bytes: usize,
    /// Number of datagrams one block is split into.
    pub chunks_per_block: usize,
    /// Bytes of a full datagram, header included.
    pub payload_capacity: usize,
    /// Bytes of all datagrams of one block together.
    pub raw_buffer_size: usize,
}

impl FragmentPlan {
    /// Sample bytes carried by a full datagram.
    pub open spec fn payload_bytes(&self) -> int {
        self.payload_capacity - HEADER_SIZE
    }

    /// The layout facts every plan keeps: each of the `chunks_per_block`
    /// datagrams carries a header and at least one sample byte, and together
    /// they carry exactly the block.
    pub open spec fn wf(&self) -> bool {
        &&& 1 <= self.chunks_per_block <= MAX_CHUNKS
        &&& self.block_bytes > 0
        &&& self.payload_capacity == ceil_div(
            self.block_bytes as int,
            self.chunks_per_block as int,
        ) + HEADER_SIZE
        &&& self.raw_buffer_size == self.chunks_per_block * HEADER_SIZE + self.block_bytes
        &&& (self.chunks_per_block - 1) * self.payload_bytes() < self.block_bytes
        &&& self.block_bytes <= self.chunks_per_block * self.payload_bytes()
    }

    /// The plan for blocks of `block_sample_count` samples over the given MTU.
    pub open spec fn is_plan_for(&self, block_sample_count: int, mtu: int) -> bool {
        let chunks = spec_chunks_per_block(block_sample_count, mtu);
        &&& self.block_bytes == SAMPLE_BYTES * block_sample_count
        &&& self.chunks_per_block == chunks
        &&& self.payload_capacity == spec_payload_capacity(block_sample_count, chunks)
        &&& self.raw_buffer_size == spec_raw_buffer_size(block_sample_count, chunks)
    }

    /// Computes the plan, or `None` where `plan_fits` does not hold.
    pub fn new(block_sample_count: usize, mtu: usize) -> (r: Option<FragmentPlan>)
        ensures
            r is Some <==> plan_fits(block_sample_count as int, mtu as int),
            r matches Some(plan) ==> plan.is_plan_for(block_sample_count as int, mtu as int)
                && plan.wf(),
    {
        if mtu <= RESERVED_OVERHEAD || block_sample_count == 0 || block_sample_count > usize::MAX
            / SAMPLE_BYTES {
            return None;
        }
        let block_bytes = SAMPLE_BYTES * block_sample_count;
        let chunks = div_ceil(block_bytes, mtu - RESERVED_OVERHEAD);
        if chunks > MAX_CHUNKS || block_bytes > usize::MAX - chunks * HEADER_SIZE {
            return None;
        }
        proof {
            lemma_ceil_div_bounds(block_bytes as int, (mtu - RESERVED_OVERHEAD) as int);
            lemma_plan_layout(block_bytes as int, (mtu - RESERVED_OVERHEAD) as int);
        }
        let payload_capacity = div_ceil(block_bytes, chunks) + HEADER_SIZE;
        Some(
            FragmentPlan {
                block_bytes,
                chunks_per_block: chunks,
                payload_capacity,
                raw_buffer_size: chunks * HEADER_SIZE + block_bytes,
            },
        )
    }
}

/// Wraparound modulus of the sender's sequence codes: the largest multiple
/// of `chunks` that does not exceed 256.
pub open spec fn spec_sender_key(chunks: int) -> int {
    (256int / chunks) * chunks
}

/// The four header bytes: channel, sequence code, sample-rate code, chunk count.
pub open spec fn header_bytes(channel: int, sequence: int, sample_rate_code: u8, chunks: int) -> Seq<
    u8,
> {
    seq![(channel % 256) as u8, sequence as u8, sample_rate_code, chunks as u8]
}

/// One step of a counter that wraps around at `modulus`.
pub open spec fn cycle_step(c: int, modulus: int) -> int {
    (c + 1) % modulus
}

/// The counter after `k` steps from `c`.
pub open spec fn cycle_after(c: int, modulus: int, k: nat) -> int
    decreases k,
{
    if k == 0 {
        c
    } else {
        cycle_step(cycle_after(c, modulus, (k - 1) as nat), modulus)
    }
}

/// After `k` steps a wrapping counter stands at `(c + k) % modulus`.
pub proof fn lemma_cycle_after(c: int, modulus: int, k: nat)
    requires
        0 <= c < modulus,
    ensures
        cycle_after(c, modulus, k) == (c + k) % modulus,
    decreases k,
{
    if k == 0 {
        vstd::arithmetic::div_mod::lemma_fundamental_div_mod_converse(c, modulus, 0, c);
    } else {
        lemma_cycle_after(c, modulus, (k - 1) as nat);
        let x = c + k - 1;
        let q = x / modulus;
        let r = x % modulus;
        vstd::arithmetic::div_mod::lemma_fundamental_div_mod(x, modulus);
        if r + 1 < modulus {
            vstd::arithmetic::div_mod::lemma_fundamental_div_mod_converse(
                r + 1,
                modulus,
                0,
                r + 1,
            );
            vstd::arithmetic::div_mod::lemma_fundamental_div_mod_converse(
                x + 1,
                modulus,
                q,
                r + 1,
            );
        } else {
            vstd::arithmetic::div_mod::lemma_fundamental_div_mod_converse(r + 1, modulus, 1, 0);
            assert(x + 1 == (q + 1) * modulus) by (nonlinear_arith)
                requires
                    x == modulus * q + r,
                    r + 1 == modulus,
            ;
            vstd::arithmetic::div_mod::lemma_fundamental_div_mod_converse(
                x + 1,
                modulus,
                q + 1,
                0,
            );
        }
    }
}

/// `2` to the power `e`.
pub open spec fn two_to(e: nat) -> nat
    decreases e,
{
    if e == 0 {
        1
    } else {
        2 * two_to((e - 1) as nat)
    }
}

/// `floor(log2(x))` for `x >= 1`.
pub open spec fn floor_log2(x: nat) -> nat
    decreases x,
{
    if x <= 1 {
        0
    } else {
        1 + floor_log2(x / 2)
    }
}

/// `ceil(log2(x))` for `x >= 1`.
pub open spec fn ceil_log2(x: nat) -> nat
    decreases x,
{
    if x <= 1 {
        0
    } else {
        1 + ceil_log2(((x + 1) / 2) as nat)
    }
}

/// `floor_log2` on machine integers.
pub fn log2_floor(x: usize) -> (r: usize)
    requires
        x >= 1,
    ensures
        r == floor_log2(x as nat),
        r < x,
    decreases x,
{
    if x <= 1 {
        0
    } else {
        1 + log2_floor(x / 2)
    }
}

/// `ceil_log2` on machine integers.
pub fn log2_ceil(x: usize) -> (r: usize)
    requires
        x >= 1,
    ensures
        r == ceil_log2(x as nat),
        r < x,
    decreases x,
{
    if x <= 1 {
        0
    } else {
        1 + log2_ceil(x / 2 + x % 2)
    }
}

/// `two_to` on machine integers.
pub fn power_of_two(e: usize) -> (r: usize)
    requires
        two_to(e as nat) <= usize::MAX,
    ensures
        r == two_to(e as nat),
{
    let mut r: usize = 1;
    let mut i: usize = 0;
    while i < e
        invariant
            i <= e,
            r == two_to(i as nat),
            two_to(e as nat) <= usize::MAX,
        decreases e - i,
    {
        proof {
            lemma_two_to_monotone((i + 1) as nat, e as nat);
        }
        r = r * 2;
        i = i + 1;
    }
    r
}

/// `two_to` is monotone.
pub proof fn lemma_two_to_monotone(a: nat, b: nat)
    requires
        a <= b,
    ensures
        1 <= two_to(a) <= two_to(b),
    decreases b,
{
    if b > 0 {
        if a < b {
            lemma_two_to_monotone(a, (b - 1) as nat);
        } else {
            lemma_two_to_monotone(0, (b - 1) as nat);
        }
    }
}

/// `two_to(a + b) == two_to(a) * two_to(b)`.
pub proof fn lemma_two_to_adds(a: nat, b: nat)
    ensures
        two_to(a + b) == two_to(a) * two_to(b),
    decreases a,
{
    if a > 0 {
        let a1 = (a - 1) as nat;
        lemma_two_to_adds(a1, b);
        assert(two_to(a + b) == 2 * two_to(a1 + b));
        assert(two_to(a) == 2 * two_to(a1));
        assert(2 * (two_to(a1) * two_to(b)) == (2 * two_to(a1)) * two_to(b)) by (nonlinear_arith);
    } else {
        assert(two_to(a) == 1);
        assert(two_to(a + b) == two_to(b));
    }
}

/// `two_to(floor_log2(x))` is the largest power of two not above `x`.
pub proof fn lemma_floor_log2_bounds(x: nat)
    requires
        x >= 1,
    ensures
        two_to(floor_log2(x)) <= x < 2 * two_to(floor_log2(x)),
    decreases x,
{
    if x > 1 {
        lemma_floor_log2_bounds(x / 2);
    }
}

/// `two_to(ceil_log2(x))` is the least power of two not below `x`.
pub proof fn lemma_ceil_log2_bounds(x: nat)
    requires
        x >= 1,
    ensures
        x <= two_to(ceil_log2(x)),
        x >= 2 ==> two_to((ceil_log2(x) - 1) as nat) < x,
    decreases x,
{
    if x > 1 {
        let h = ((x + 1) / 2) as nat;
        lemma_ceil_log2_bounds(h);
    }
}

/// A buffer of `len` zero bytes.
pub(crate) fn zeroed(len: usize) -> (r: Vec<u8>)
    ensures
        r@ == Seq::new(len as nat, |k: int| 0u8),
{
    let mut r: Vec<u8> = Vec::new();
    let mut i: usize = 0;
    while i < len
        invariant
            i <= len,
            r@ == Seq::new(i as nat, |k: int| 0u8),
        decreases len - i,
    {
        r.push(0);
        i = i + 1;
        assert(r@ =~= Seq::new(i as nat, |k: int| 0u8));
    }
    r
}

/// `ceil_div(a, b)` is the least `q` with `b * q >= a`.
pub proof fn lemma_ceil_div_bounds(a: int, b: int)
    requires
        a >= 0,
        b > 0,
    ensures
        b * ceil_div(a, b) >= a,
        b * (ceil_div(a, b) - 1) < a,
        a > 0 ==> ceil_div(a, b) >= 1,
        ceil_div(a, b) <= a || a == 0,
{
    let q = a / b;
    let r = a % b;
    assert(a == b * q + r && 0 <= r < b) by {
        vstd::arithmetic::div_mod::lemma_fundamental_div_mod(a, b);
    }
    assert(q >= 0) by (nonlinear_arith)
        requires
            a == b * q + r,
            0 <= r < b,
            a >= 0,
    ;
    if r == 0 {
        assert(b * (q - 1) < a) by (nonlinear_arith)
            requires
                a == b * q,
                b > 0,
        ;
        assert(q <= a && (a > 0 ==> q >= 1)) by (nonlinear_arith)
            requires
                a == b * q,
                b > 0,
                q >= 0,
        ;
    } else {
        assert(b * (q + 1) >= a) by (nonlinear_arith)
            requires
                a == b * q + r,
                0 <= r < b,
        ;
        assert(q + 1 <= a) by (nonlinear_arith)
            requires
                a == b * q + r,
                0 < r < b,
                q >= 0,
        ;
    }
}

/// Splitting `block_bytes` into `n = ceil(block_bytes / room)` datagrams of
/// `ceil(block_bytes / n)` sample bytes never leaves a datagram empty.
pub proof fn lemma_plan_layout(block_bytes: int, room: int)
    requires
        block_bytes > 0,
        room > 0,
    ensures
        ({
            let n = ceil_div(block_bytes, room);
            let p = ceil_div(block_bytes, n);
            &&& n >= 1
            &&& p <= room
            &&& (n - 1) * p < block_bytes
            &&& block_bytes <= n * p
        }),
{
    let n = ceil_div(block_bytes, room);
    lemma_ceil_div_bounds(block_bytes, room);
    let p = ceil_div(block_bytes, n);
    lemma_ceil_div_bounds(block_bytes, n);
    assert(p <= room) by (nonlinear_arith)
        requires
            n * (p - 1) < block_bytes,
            block_bytes <= room * n,
            n >= 1,
    ;
    assert((n - 1) * p < block_bytes) by (nonlinear_arith)
        requires
            room * (n - 1) < block_bytes,
            p <= room,
            n >= 1,
            p >= 0,
    ;
}

/// For every block size and MTU above the reserved overhead, the datagrams
/// of a plan have room for every sample byte and every header.
pub proof fn lemma_plan_covers_block(block_sample_count: int, mtu: int)
    requires
        block_sample_count >= 0,
        mtu > RESERVED_OVERHEAD,
    ensures
        spec_chunks_per_block(block_sample_count, mtu) * spec_payload_capacity(
            block_sample_count,
            spec_chunks_per_block(block_sample_count, mtu),
        ) >= SAMPLE_BYTES * block_sample_count + HEADER_SIZE * spec_chunks_per_block(
            block_sample_count,
            mtu,
        ),
{
    let bytes = SAMPLE_BYTES * block_sample_count;
    let n = spec_chunks_per_block(block_sample_count, mtu);
    let p = ceil_div(bytes, n);
    if bytes == 0 {
        vstd::arithmetic::div_mod::lemma_small_mod(0, (mtu - RESERVED_OVERHEAD) as nat);
        vstd::arithmetic::div_mod::lemma_fundamental_div_mod_converse(
            0,
            mtu - RESERVED_OVERHEAD,
            0,
            0,
        );
        assert(n == 0);
        assert(n * (p + HEADER_SIZE) == 0);
    } else {
        lemma_plan_layout(bytes, mtu - RESERVED_OVERHEAD);
        assert(n * (p + HEADER_SIZE) == n * p + HEADER_SIZE * n) by (nonlinear_arith);
    }
}

} // verus!
