//! SHA-1 (FIPS 180-4), one-shot and incremental, for non-security purposes
//! such as name-based UUIDs.
use vstd::prelude::*;
use crate::bytes::{be32, be32_bytes};

verus! {

/// Number of 32-bit words of chaining state.
pub const SHA1_STATE_CNT: usize = 5;

/// Size of a message block in bytes.
pub const SHA1_BLOCK_SIZE: usize = 64;

/// Size of a digest in bytes.
pub const SHA1_DIGEST_SIZE: usize = 20;

/// Number of rounds of the compression function.
pub const SHA1_ITERS: usize = 80;

/// Left rotation by one bit.
pub open spec fn rotl1(x: u32) -> u32 {
    (x << 1u32) | (x >> 31u32)
}

/// Left rotation by five bits.
pub open spec fn rotl5(x: u32) -> u32 {
    (x << 5u32) | (x >> 27u32)
}

/// Left rotation by thirty bits.
pub open spec fn rotl30(x: u32) -> u32 {
    (x << 30u32) | (x >> 2u32)
}

/// Word `i` of the message schedule of a 64-byte block.
pub open spec fn schedule(block: Seq<u8>, i: int) -> u32
    decreases i,
{
    if i < 16 {
        be32(block, 4 * i) as u32
    } else {
        rotl1(
            schedule(block, i - 3) ^ schedule(block, i - 8) ^ schedule(block, i - 14) ^ schedule(
                block,
                i - 16,
            ),
        )
    }
}

/// The round function `f` and constant `k` of round `i`.
pub open spec fn round_fk(i: int, b: u32, c: u32, d: u32) -> (u32, u32) {
    if i < 20 {
        ((b & c) ^ ((!b) & d), 0x5a827999u32)
    } else if i < 40 {
        (b ^ c ^ d, 0x6ed9eba1u32)
    } else if i < 60 {
        ((b & c) ^ (b & d) ^ (c & d), 0x8f1bbcdcu32)
    } else {
        (b ^ c ^ d, 0xca62c1d6u32)
    }
}

/// The working variables `(a, b, c, d, e)` after round `i`.
pub open spec fn round(v: (u32, u32, u32, u32, u32), block: Seq<u8>, i: int) -> (
    u32,
    u32,
    u32,
    u32,
    u32,
) {
    let (a, b, c, d, e) = v;
    let (f, k) = round_fk(i, b, c, d);
    let t = rotl5(a).wrapping_add(f).wrapping_add(e).wrapping_add(k).wrapping_add(
        schedule(block, i),
    );
    (t, a, rotl30(b), c, d)
}

/// The working variables after the first `n` rounds.
pub open spec fn rounds(v: (u32, u32, u32, u32, u32), block: Seq<u8>, n: int) -> (
    u32,
    u32,
    u32,
    u32,
    u32,
)
    decreases n,
{
    if n <= 0 {
        v
    } else {
        round(rounds(v, block, n - 1), block, n - 1)
    }
}

/// The SHA-1 compression function applied to the chaining state `h`.
#[verifier::opaque]
pub open spec fn compress(h: Seq<u32>, block: Seq<u8>) -> Seq<u32> {
    let r = rounds((h[0], h[1], h[2], h[3], h[4]), block, 80);
    seq![
        h[0].wrapping_add(r.0),
        h[1].wrapping_add(r.1),
        h[2].wrapping_add(r.2),
        h[3].wrapping_add(r.3),
        h[4].wrapping_add(r.4),
    ]
}

/// The initial chaining state.
pub open spec fn sha1_init() -> Seq<u32> {
    seq![0x67452301u32, 0xefcdab89u32, 0x98badcfeu32, 0x10325476u32, 0xc3d2e1f0u32]
}

/// Chaining state after compressing the first `n` 64-byte blocks of `data`.
pub open spec fn hash_blocks(data: Seq<u8>, n: int) -> Seq<u32>
    decreases n,
{
    if n <= 0 {
        sha1_init()
    } else {
        compress(hash_blocks(data, n - 1), data.subrange(64 * (n - 1), 64 * n))
    }
}

/// Number of zero bytes between the `0x80` marker and the length field.
pub open spec fn pad_zeros(len: nat) -> nat {
    if len % 64 < 56 {
        (55 - len % 64) as nat
    } else {
        (119 - len % 64) as nat
    }
}

/// The big-endian bytes of a 64-bit value.
pub open spec fn be64_bytes(x: int) -> Seq<u8> {
    be32_bytes(x / 4294967296) + be32_bytes(x % 4294967296)
}

/// The padded message: the data, `0x80`, zeros, and the bit length.
pub open spec fn sha1_pad(data: Seq<u8>) -> Seq<u8> {
    data + seq![0x80u8] + Seq::new(pad_zeros(data.len()), |_i: int| 0u8) + be64_bytes(
        (data.len() * 8) as int,
    )
}

/// The 20 digest bytes of a final chaining state.
pub open spec fn state_bytes(h: Seq<u32>) -> Seq<u8> {
    be32_bytes(h[0] as int) + be32_bytes(h[1] as int) + be32_bytes(h[2] as int) + be32_bytes(
        h[3] as int,
    ) + be32_bytes(h[4] as int)
}

/// The SHA-1 digest of `data`.
pub open spec fn sha1_spec(data: Seq<u8>) -> Seq<u8> {
    let p = sha1_pad(data);
    state_bytes(hash_blocks(p, (p.len() / 64) as int))
}

/// Hashing in pieces gives the digest of the whole: a context that has
/// absorbed `a` and then `b` (with `update`) holds `a + b`, so its digest
/// is the one-shot digest (`sha1`) of `a + b`, however the data was split.
pub proof fn lemma_incremental_digest(first: Sha1Ctx, second: Sha1Ctx, a: Seq<u8>, b: Seq<u8>)
    requires
        first@ == a,
        second@ == first@ + b,
    ensures
        second@ == a + b,
        sha1_spec(second@) == sha1_spec(a + b),
{
}

/// `hash_blocks` only reads the blocks it compresses.
pub proof fn lemma_hash_blocks_prefix(d1: Seq<u8>, d2: Seq<u8>, n: int)
    requires
        0 <= n,
        64 * n <= d1.len(),
        64 * n <= d2.len(),
        d1.subrange(0, 64 * n) == d2.subrange(0, 64 * n),
    ensures
        hash_blocks(d1, n) == hash_blocks(d2, n),
    decreases n,
{
    if n > 0 {
        assert(d1.subrange(0, 64 * (n - 1)) =~= d1.subrange(0, 64 * n).subrange(0, 64 * (n - 1)));
        assert(d2.subrange(0, 64 * (n - 1)) =~= d2.subrange(0, 64 * n).subrange(0, 64 * (n - 1)));
        lemma_hash_blocks_prefix(d1, d2, n - 1);
        assert(d1.subrange(64 * (n - 1), 64 * n) =~= d1.subrange(0, 64 * n).subrange(
            64 * (n - 1),
            64 * n,
        ));
        assert(d2.subrange(64 * (n - 1), 64 * n) =~= d2.subrange(0, 64 * n).subrange(
            64 * (n - 1),
            64 * n,
        ));
    }
}

/// One-shot SHA-1 hash computation, for non-security purposes only.
pub fn sha1(data: &[u8]) -> (r: [u8; 20])
    requires
        data@.len() < 0x2000_0000_0000_0000,
    ensures
        r@ == sha1_spec(data@),
{
    let mut ctx = Sha1Ctx::new();
    ctx.update(data);
    assert(data@ =~= Seq::<u8>::empty() + data@);
    ctx.digest()
}

/// Incremental SHA-1 context, for non-security purposes only.
pub struct Sha1Ctx {
    state: [u32; 5],
    buffer: [u8; 64],
    buffer_size: usize,
    total_size: u64,
    absorbed: Ghost<Seq<u8>>,
}

impl View for Sha1Ctx {
    type V = Seq<u8>;

    /// All bytes passed to `update` so far.
    closed spec fn view(&self) -> Seq<u8> {
        self.absorbed@
    }
}

impl Sha1Ctx {
    /// The context's internal consistency: the chaining state covers every
    /// complete block absorbed, and the buffer holds the remaining bytes.
    pub closed spec fn wf(&self) -> bool {
        let data = self.absorbed@;
        &&& self.buffer_size < 64
        &&& self.total_size % 64 == 0
        &&& data.len() == self.total_size + self.buffer_size
        &&& data.len() < 0x2000_0000_0000_0000
        &&& self.state@ == hash_blocks(data, (self.total_size / 64) as int)
        &&& forall|i: int|
            0 <= i < self.buffer_size ==> #[trigger] self.buffer@[i] == data[self.total_size + i]
    }

    /// A fresh context that has absorbed nothing.
    pub fn new() -> (ctx: Self)
        ensures
            ctx.wf(),
            ctx@ == Seq::<u8>::empty(),
    {
        Self {
            state: [0x67452301, 0xefcdab89, 0x98badcfe, 0x10325476, 0xc3d2e1f0],
            buffer: [0u8; 64],
            buffer_size: 0,
            total_size: 0,
            absorbed: Ghost(Seq::empty()),
        }
    }

    /// Absorbs `data`.
    pub fn update(&mut self, data: &[u8])
        requires
            old(self).wf(),
            old(self)@.len() + data@.len() < 0x2000_0000_0000_0000,
        ensures
            final(self).wf(),
            final(self)@ == old(self)@ + data@,
    {
        let ghost start = self.absorbed@;
        let mut pos: usize = 0;
        let n = data.len();
        while n - pos >= 64 - self.buffer_size
            invariant
                self.wf(),
                n == data@.len(),
                pos <= n,
                self.absorbed@ == start + data@.subrange(0, pos as int),
                start.len() + n < 0x2000_0000_0000_0000,
            decreases n - pos,
        {
            let take = 64 - self.buffer_size;
            let mut k: usize = 0;
            let bs = self.buffer_size;
            while k < take
                invariant
                    bs == self.buffer_size,
                    take == 64 - bs,
                    bs < 64,
                    k <= take,
                    pos + take <= n,
                    n == data@.len(),
                    self.wf(),
                    forall|i: int| 0 <= i < k ==> #[trigger] self.buffer@[bs + i] == data@[pos + i],
                    self.absorbed@ == start + data@.subrange(0, pos as int),
                    self.absorbed@.len() == self.total_size + bs,
                decreases take - k,
            {
                self.buffer[bs + k] = data[pos + k];
                k += 1;
            }
            let ghost new_data = start + data@.subrange(0, (pos + take) as int);
            let ghost blk = new_data.subrange(self.total_size as int, self.total_size + 64);
            assert(self.buffer@ =~= blk) by {
                assert forall|i: int| 0 <= i < 64 implies self.buffer@[i] == blk[i] by {
                    if i < bs {
                        assert(self.absorbed@[self.total_size + i] == new_data[self.total_size
                            + i]);
                    } else {
                        assert(self.buffer@[bs + (i - bs)] == data@[pos + (i - bs)]);
                    }
                }
            }
            proof {
                let t = self.total_size as int;
                assert(self.absorbed@.subrange(0, 64 * (t / 64)) =~= new_data.subrange(
                    0,
                    64 * (t / 64),
                ));
                lemma_hash_blocks_prefix(self.absorbed@, new_data, t / 64);
                assert((t + 64) / 64 == t / 64 + 1);
            }
            sha1_transform(&mut self.state, &self.buffer);
            self.buffer_size = 0;
            self.total_size = self.total_size + 64;
            pos = pos + take;
            self.absorbed = Ghost(new_data);
        }
        let bs = self.buffer_size;
        let rest = n - pos;
        let mut k: usize = 0;
        while k < rest
            invariant
                self.wf(),
                bs == self.buffer_size,
                bs + rest < 64,
                rest == n - pos,
                n == data@.len(),
                pos <= n,
                k <= rest,
                self.absorbed@ == start + data@.subrange(0, pos as int),
                self.absorbed@.len() == self.total_size + bs,
                forall|i: int|
                    0 <= i < bs ==> #[trigger] self.buffer@[i] == self.absorbed@[self.total_size
                        + i],
                forall|i: int| 0 <= i < k ==> #[trigger] self.buffer@[bs + i] == data@[pos + i],
            decreases rest - k,
        {
            self.buffer[bs + k] = data[pos + k];
            k += 1;
        }
        let ghost new_data = start + data@;
        proof {
            assert(data@.subrange(0, n as int) =~= data@);
            let t = self.total_size as int;
            assert(self.absorbed@.subrange(0, 64 * (t / 64)) =~= new_data.subrange(
                0,
                64 * (t / 64),
            ));
            lemma_hash_blocks_prefix(self.absorbed@, new_data, t / 64);
            assert forall|i: int| 0 <= i < bs + rest implies #[trigger] self.buffer@[i]
                == new_data[t + i] by {
                if i >= bs {
                    assert(self.buffer@[bs + (i - bs)] == data@[pos + (i - bs)]);
                }
            }
        }
        self.buffer_size = bs + rest;
        self.absorbed = Ghost(new_data);
    }

    /// Finishes the hash and returns the digest of everything absorbed.
    pub fn digest(self) -> (r: [u8; 20])
        requires
            self.wf(),
        ensures
            r@ == sha1_spec(self@),
    {
        let mut ctx = self;
        let ghost data = ctx.absorbed@;
        let bs = ctx.buffer_size;
        let t = ctx.total_size;
        let ghost p = sha1_pad(data);
        proof {
            let n = (t / 64) as int;
            assert(t == 64 * n);
        }
        mark_end(&mut ctx.buffer, bs);
        proof {
            lemma_pad_layout(data, t as int, bs as int);
            assert(data.subrange(0, 64 * (t / 64)) =~= p.subrange(0, 64 * (t / 64)));
            lemma_hash_blocks_prefix(data, p, (t / 64) as int);
        }
        if bs >= 56 {
            proof {
                lemma_block_from_buffer(data, t as int, bs as int, ctx.buffer@);
            }
            sha1_transform(&mut ctx.state, &ctx.buffer);
            ctx.buffer = [0u8; 64];
            proof {
                assert((t + 64) / 64 == t / 64 + 1);
            }
            ctx.total_size = t + 64;
        }
        let last = ctx.total_size;
        put_bit_length(&mut ctx.buffer, (t + bs as u64) * 8);
        proof {
            lemma_last_block(data, t as int, bs as int, last as int, ctx.buffer@);
        }
        let ghost before = ctx.state@;
        sha1_transform(&mut ctx.state, &ctx.buffer);
        proof {
            let n = (last / 64) as int;
            assert(last == 64 * n);
            assert((last + 64) / 64 == n + 1);
            assert(p.len() / 64 == n + 1);
            assert(hash_blocks(p, n + 1) == compress(hash_blocks(p, n), p.subrange(64 * n, 64 * (n + 1))));
        }
        state_to_bytes(&ctx.state)
    }
}

/// Writes the `0x80` marker at `bs` and zeros after it.
fn mark_end(buf: &mut [u8; 64], bs: usize)
    requires
        bs < 64,
    ensures
        forall|i: int| 0 <= i < bs ==> #[trigger] final(buf)@[i] == old(buf)@[i],
        final(buf)@[bs as int] == 0x80,
        forall|i: int| bs < i < 64 ==> #[trigger] final(buf)@[i] == 0,
{
    let mut k: usize = bs;
    while k < 64
        invariant
            bs <= k <= 64,
            forall|i: int| 0 <= i < bs ==> #[trigger] buf@[i] == old(buf)@[i],
            forall|i: int| bs <= i < k ==> #[trigger] buf@[i] == 0,
        decreases 64 - k,
    {
        buf[k] = 0;
        k += 1;
    }
    buf[bs] = 0x80;
}

/// Writes the 64-bit big-endian `bits` into the last eight bytes.
fn put_bit_length(buf: &mut [u8; 64], bits: u64)
    ensures
        forall|i: int| 0 <= i < 56 ==> #[trigger] final(buf)@[i] == old(buf)@[i],
        final(buf)@[56] == ((bits / 0x1_0000_0000) / 0x100_0000) % 256,
        final(buf)@[57] == ((bits / 0x1_0000_0000) / 0x1_0000) % 256,
        final(buf)@[58] == ((bits / 0x1_0000_0000) / 0x100) % 256,
        final(buf)@[59] == (bits / 0x1_0000_0000) % 256,
        final(buf)@[60] == ((bits % 0x1_0000_0000) / 0x100_0000) % 256,
        final(buf)@[61] == ((bits % 0x1_0000_0000) / 0x1_0000) % 256,
        final(buf)@[62] == ((bits % 0x1_0000_0000) / 0x100) % 256,
        final(buf)@[63] == (bits % 0x1_0000_0000) % 256,
{
    let hi: u64 = bits / 0x1_0000_0000;
    let lo: u64 = bits % 0x1_0000_0000;
    buf[56] = ((hi / 0x100_0000) % 256) as u8;
    buf[57] = ((hi / 0x1_0000) % 256) as u8;
    buf[58] = ((hi / 0x100) % 256) as u8;
    buf[59] = (hi % 256) as u8;
    buf[60] = ((lo / 0x100_0000) % 256) as u8;
    buf[61] = ((lo / 0x1_0000) % 256) as u8;
    buf[62] = ((lo / 0x100) % 256) as u8;
    buf[63] = (lo % 256) as u8;
}

/// The big-endian bytes of the five state words.
fn state_to_bytes(state: &[u32; 5]) -> (r: [u8; 20])
    ensures
        r@ == state_bytes(state@),
{
    let mut d = [0u8; 20];
    let mut i: usize = 0;
    while i < 5
        invariant
            i <= 5,
            forall|j: int, m: int|
                0 <= j < i && 0 <= m < 4 ==> #[trigger] d@[4 * j + m] == be32_bytes(
                    state@[j] as int,
                )[m],
        decreases 5 - i,
    {
        let w = state[i];
        d[4 * i] = ((w / 0x100_0000) % 256) as u8;
        d[4 * i + 1] = ((w / 0x1_0000) % 256) as u8;
        d[4 * i + 2] = ((w / 0x100) % 256) as u8;
        d[4 * i + 3] = (w % 256) as u8;
        i += 1;
    }
    let ghost sb = state_bytes(state@);
    assert forall|k: int| 0 <= k < 20 implies d@[k] == sb[k] by {
        let j = k / 4;
        let m = k % 4;
        assert(k == 4 * j + m);
        assert(d@[4 * j + m] == be32_bytes(state@[j] as int)[m]);
    }
    assert(d@ =~= sb);
    d
}

/// The zero-filled buffer holding the message tail, the marker and zeros is
/// the first of two final blocks when the tail is 56 bytes or longer.
proof fn lemma_block_from_buffer(data: Seq<u8>, t: int, bs: int, buf: Seq<u8>)
    requires
        t % 64 == 0,
        0 <= t,
        56 <= bs < 64,
        data.len() == t + bs,
        buf.len() == 64,
        forall|i: int| 0 <= i < bs ==> #[trigger] buf[i] == data[t + i],
        buf[bs] == 0x80,
        forall|i: int| bs < i < 64 ==> #[trigger] buf[i] == 0,
    ensures
        buf == sha1_pad(data).subrange(t, t + 64),
{
    lemma_pad_layout(data, t, bs);
    let p = sha1_pad(data);
    assert forall|i: int| 0 <= i < 64 implies buf[i] == p.subrange(t, t + 64)[i] by {
        if i < bs {
            assert(p[t + i] == data[t + i]);
        } else if i == bs {
        } else {
            assert(p[t + i] == 0);
        }
    }
    assert(buf =~= p.subrange(t, t + 64));
}

/// The buffer after writing the bit length is the final block.
proof fn lemma_last_block(data: Seq<u8>, t: int, bs: int, last: int, buf: Seq<u8>)
    requires
        t % 64 == 0,
        0 <= t,
        0 <= bs < 64,
        data.len() == t + bs,
        data.len() < 0x2000_0000_0000_0000,
        last == if bs >= 56 {
            t + 64
        } else {
            t
        },
        buf.len() == 64,
        bs < 56 ==> forall|i: int| 0 <= i < bs ==> #[trigger] buf[i] == data[t + i],
        bs < 56 ==> buf[bs] == 0x80,
        bs < 56 ==> forall|i: int| bs < i < 56 ==> #[trigger] buf[i] == 0,
        bs >= 56 ==> forall|i: int| 0 <= i < 56 ==> #[trigger] buf[i] == 0,
        buf[56] == (((data.len() * 8) / 0x1_0000_0000) / 0x100_0000) % 256,
        buf[57] == (((data.len() * 8) / 0x1_0000_0000) / 0x1_0000) % 256,
        buf[58] == (((data.len() * 8) / 0x1_0000_0000) / 0x100) % 256,
        buf[59] == ((data.len() * 8) / 0x1_0000_0000) % 256,
        buf[60] == (((data.len() * 8) % 0x1_0000_0000) / 0x100_0000) % 256,
        buf[61] == (((data.len() * 8) % 0x1_0000_0000) / 0x1_0000) % 256,
        buf[62] == (((data.len() * 8) % 0x1_0000_0000) / 0x100) % 256,
        buf[63] == ((data.len() * 8) % 0x1_0000_0000) % 256,
    ensures
        sha1_pad(data).len() == last + 64,
        buf == sha1_pad(data).subrange(last, last + 64),
{
    lemma_pad_layout(data, t, bs);
    let p = sha1_pad(data);
    let q = data + seq![0x80u8] + Seq::new(pad_zeros(data.len()), |_i: int| 0u8);
    let len8 = be64_bytes((data.len() * 8) as int);
    assert(p == q + len8);
    assert(q.len() == last + 56);
    assert forall|i: int| 0 <= i < 64 implies buf[i] == p.subrange(last, last + 64)[i] by {
        if i >= 56 {
            assert(p[last + i] == len8[i - 56]);
        } else if bs < 56 {
            if i < bs {
                assert(p[t + i] == data[t + i]);
            } else if i > bs {
                assert(p[last + i] == 0);
            }
        } else {
            assert(p[last + i] == 0);
        }
    }
    assert(buf =~= p.subrange(last, last + 64));
}

/// Where the pieces of the padded message lie, for a message whose last
/// complete block ends at `t` and that has `bs` further bytes.
proof fn lemma_pad_layout(data: Seq<u8>, t: int, bs: int)
    requires
        t % 64 == 0,
        0 <= t,
        0 <= bs < 64,
        data.len() == t + bs,
    ensures
        sha1_pad(data).len() == if bs < 56 {
            t + 64
        } else {
            t + 128
        },
        forall|i: int| 0 <= i < t + bs ==> #[trigger] sha1_pad(data)[i] == data[i],
        sha1_pad(data)[t + bs] == 0x80,
        forall|i: int|
            t + bs < i < sha1_pad(data).len() - 8 ==> #[trigger] sha1_pad(data)[i] == 0,
{
    let p = sha1_pad(data);
    let z = pad_zeros(data.len());
    let zs = Seq::new(z, |_i: int| 0u8);
    let len8 = be64_bytes((data.len() * 8) as int);
    let a = data + seq![0x80u8];
    let b = a + zs;
    assert(p == b + len8);
    vstd::arithmetic::div_mod::lemma_mod_multiples_vanish(t / 64, bs, 64);
    vstd::arithmetic::div_mod::lemma_small_mod(bs as nat, 64);
    assert(t == 64 * (t / 64));
    assert((t + bs) % 64 == bs);
    assert(len8.len() == 8);
    assert(p.len() == t + bs + 1 + z + 8);
    assert forall|i: int| 0 <= i < t + bs implies #[trigger] p[i] == data[i] by {
        assert(p[i] == b[i]);
        assert(b[i] == a[i]);
    }
    assert(p[t + bs] == b[t + bs]);
    assert(b[t + bs] == a[t + bs]);
    assert forall|i: int| t + bs < i < p.len() - 8 implies #[trigger] p[i] == 0 by {
        assert(p[i] == b[i]);
        assert(b[i] == zs[i - (t + bs) - 1]);
    }
}

/// Applies the compression function to `state` with `block`.
fn sha1_transform(state: &mut [u32; 5], block: &[u8; 64])
    ensures
        final(state)@ == compress(old(state)@, block@),
{
    let mut a = state[0];
    let mut b = state[1];
    let mut c = state[2];
    let mut d = state[3];
    let mut e = state[4];
    let ghost h = state@;
    let mut w: [u32; 80] = [0u32; 80];
    let mut i: usize = 0;
    while i < 80
        invariant
            i <= 80,
            forall|j: int| 0 <= j < i ==> #[trigger] w@[j] == schedule(block@, j),
            (a, b, c, d, e) == rounds((h[0], h[1], h[2], h[3], h[4]), block@, i as int),
            state@ == h,
        decreases 80 - i,
    {
        if i < 16 {
            let j = i * 4;
            let v = (block[j] as u32) * 0x100_0000 + (block[j + 1] as u32) * 0x1_0000 + (block[j
                + 2] as u32) * 0x100 + block[j + 3] as u32;
            w[i] = v;
        } else {
            let x = w[i - 3] ^ w[i - 8] ^ w[i - 14] ^ w[i - 16];
            w[i] = (x << 1u32) | (x >> 31u32);
        }
        let (f, k) = if i < 20 {
            ((b & c) ^ ((!b) & d), 0x5a827999u32)
        } else if i < 40 {
            (b ^ c ^ d, 0x6ed9eba1u32)
        } else if i < 60 {
            ((b & c) ^ (b & d) ^ (c & d), 0x8f1bbcdcu32)
        } else {
            (b ^ c ^ d, 0xca62c1d6u32)
        };
        let t = ((a << 5u32) | (a >> 27u32)).wrapping_add(f).wrapping_add(e).wrapping_add(
            k,
        ).wrapping_add(w[i]);
        e = d;
        d = c;
        c = (b << 30u32) | (b >> 2u32);
        b = a;
        a = t;
        i += 1;
    }
    state[0] = state[0].wrapping_add(a);
    state[1] = state[1].wrapping_add(b);
    state[2] = state[2].wrapping_add(c);
    state[3] = state[3].wrapping_add(d);
    state[4] = state[4].wrapping_add(e);
    reveal(compress);
    assert(state@ =~= compress(h, block@));
}

} // verus!
