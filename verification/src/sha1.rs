use vstd::prelude::*;

verus! {

/// `x` rotated left by `n` bits, `0 < n < 32`.
pub open spec fn rotl(x: u32, n: u32) -> u32 {
    (x << n) ^ (x >> ((32 - n) as u32))
}

/// The sum of two words, modulo 2^32.
pub open spec fn plus(x: u32, y: u32) -> u32 {
    vstd::wrapping::u32_specs::wrapping_add(x, y)
}

/// The big-endian word `i` of a block.
pub open spec fn word_be(block: Seq<u8>, i: int) -> u32 {
    ((block[4 * i] as u32) << 24u32) | ((block[4 * i + 1] as u32) << 16u32) | ((block[4 * i + 2] as u32) << 8u32) | (
    block[4 * i + 3] as u32)
}

/// The message schedule of a block: its sixteen words, then each later word the rotated xor of
/// four earlier ones.
pub open spec fn schedule(block: Seq<u8>, t: int) -> u32
    decreases t,
{
    if t < 16 {
        word_be(block, t)
    } else {
        rotl(
            schedule(block, t - 3) ^ schedule(block, t - 8) ^ schedule(block, t - 14) ^ schedule(block, t - 16),
            1,
        )
    }
}

/// The mixing function of round `j`, with its round constant added.
pub open spec fn mix(j: int, b: u32, c: u32, d: u32) -> u32 {
    if j < 20 {
        plus((b & c) | (!b & d), 0x5a827999)
    } else if j < 40 {
        plus(b ^ c ^ d, 0x6ed9eba1)
    } else if j < 60 {
        plus((b & c) | (b & d) | (c & d), 0x8f1bbcdc)
    } else {
        plus(b ^ c ^ d, 0xca62c1d6)
    }
}

/// The working variables after the first `j` rounds over a block, from `h`.
pub open spec fn rounds(block: Seq<u8>, h: (u32, u32, u32, u32, u32), j: int) -> (u32, u32, u32, u32, u32)
    decreases j,
{
    if j <= 0 {
        h
    } else {
        let (a, b, c, d, e) = rounds(block, h, j - 1);
        let t = plus(plus(plus(rotl(a, 5), mix(j - 1, b, c, d)), e), schedule(block, j - 1));
        (t, a, rotl(b, 30), c, d)
    }
}

/// The state after one block: each word plus its working variable after 80 rounds.
pub open spec fn compress(h: (u32, u32, u32, u32, u32), block: Seq<u8>) -> (u32, u32, u32, u32, u32) {
    let (a, b, c, d, e) = rounds(block, h, 80);
    (plus(h.0, a), plus(h.1, b), plus(h.2, c), plus(h.3, d), plus(h.4, e))
}

/// The state after the first `k` blocks of `m`.
pub open spec fn digest_blocks(h: (u32, u32, u32, u32, u32), m: Seq<u8>, k: int) -> (u32, u32, u32, u32, u32)
    decreases k,
{
    if k <= 0 {
        h
    } else {
        compress(digest_blocks(h, m, k - 1), m.subrange(64 * (k - 1), 64 * k))
    }
}

/// The initial state.
pub open spec fn initial() -> (u32, u32, u32, u32, u32) {
    (0x67452301, 0xefcdab89, 0x98badcfe, 0x10325476, 0xc3d2e1f0)
}

/// The eight big-endian bytes of `x`.
pub open spec fn be_bytes(x: u64) -> Seq<u8> {
    Seq::new(8, |i: int| ((x >> ((56 - 8 * i) as u64)) & 0xff) as u8)
}

/// The last block or two: the `len` bytes left, the byte 0x80, zeros, and the message length in
/// bits, big-endian.
pub open spec fn padded(tail: Seq<u8>, total: u64) -> Seq<u8> {
    let zeros = if tail.len() < 56 {
        55 - tail.len()
    } else {
        119 - tail.len()
    };
    tail + seq![0x80u8] + Seq::new(zeros as nat, |i: int| 0u8) + be_bytes((total * 8) as u64)
}

/// The SHA-1 state: the scratch words of the message schedule and the five words of the hash.
pub struct Sha1 {
    w: Vec<u32>,
    h: [u32; 5],
}

impl Sha1 {
    /// The five words of the hash.
    pub closed spec fn state(&self) -> (u32, u32, u32, u32, u32) {
        (self.h@[0], self.h@[1], self.h@[2], self.h@[3], self.h@[4])
    }

    pub closed spec fn wf(&self) -> bool {
        self.w@.len() == 80
    }

    pub fn new() -> (r: Sha1)
        ensures
            r.wf(),
            r.state() == initial(),
    {
        let mut w: Vec<u32> = Vec::new();
        while w.len() < 80
            invariant
                w.len() <= 80,
            decreases 80 - w.len(),
        {
            w.push(0);
        }
        Sha1 { h: [0x67452301, 0xefcdab89, 0x98badcfe, 0x10325476, 0xc3d2e1f0], w }
    }

    /// Fills the schedule from the block at `base`.
    fn load(&mut self, data: &[u8], base: usize)
        requires
            old(self).wf(),
            base + 64 <= data@.len(),
        ensures
            final(self).wf(),
            final(self).state() == old(self).state(),
            forall|t: int| 0 <= t < 80 ==> #[trigger] final(self).w@[t] == schedule(data@.subrange(base as int, base + 64), t),
    {
        let ghost block = data@.subrange(base as int, base + 64);
        assert(data@.len() == data.len());
        let mut t: usize = 0;
        while t < 16
            invariant
                self.wf(),
                self.state() == old(self).state(),
                base + 64 <= data@.len() <= usize::MAX,
                block == data@.subrange(base as int, base + 64),
                t <= 16,
                forall|k: int| 0 <= k < t ==> #[trigger] self.w@[k] == schedule(block, k),
            decreases 16 - t,
        {
            let b0 = data[base + 4 * t] as u32;
            let b1 = data[base + 4 * t + 1] as u32;
            let b2 = data[base + 4 * t + 2] as u32;
            let b3 = data[base + 4 * t + 3] as u32;
            let v = (b0 << 24u32) | (b1 << 16u32) | (b2 << 8u32) | b3;
            self.w.set(t, v);
            t = t + 1;
        }
        while t < 80
            invariant
                self.wf(),
                self.state() == old(self).state(),
                16 <= t <= 80,
                forall|k: int| 0 <= k < t ==> #[trigger] self.w@[k] == schedule(block, k),
            decreases 80 - t,
        {
            let x = self.w[t - 3] ^ self.w[t - 8] ^ self.w[t - 14] ^ self.w[t - 16];
            self.w.set(t, (x << 1u32) ^ (x >> 31u32));
            t = t + 1;
        }
    }

    /// Hashes the first `len / 64` blocks of `data` into the state; the bytes after them are left.
    pub fn update(self, data: &[u8], len: usize) -> (r: Self)
        requires
            self.wf(),
            len <= data@.len(),
        ensures
            r.wf(),
            r.state() == digest_blocks(self.state(), data@, (len / 64) as int),
    {
        let mut this = self;
        let ghost h0 = this.state();
        let blocks = len / 64;
        let mut i: usize = 0;
        let mut base: usize = 0;
        while i < blocks
            invariant
                this.wf(),
                blocks == len / 64,
                len <= data@.len(),
                i <= blocks,
                base == 64 * i,
                this.state() == digest_blocks(h0, data@, i as int),
            decreases blocks - i,
        {
            assert(64 * (i + 1) <= len) by (nonlinear_arith)
                requires
                    i < blocks,
                    blocks == len / 64,
            ;
            this.load(data, base);
            let ghost block = data@.subrange(base as int, base + 64);
            let (mut a, mut b, mut c, mut d, mut e) = (this.h[0], this.h[1], this.h[2], this.h[3], this.h[4]);
            let ghost start = (a, b, c, d, e);
            let mut j: usize = 0;
            while j < 80
                invariant
                    this.wf(),
                    j <= 80,
                    forall|t: int| 0 <= t < 80 ==> #[trigger] this.w@[t] == schedule(block, t),
                    (a, b, c, d, e) == rounds(block, start, j as int),
                decreases 80 - j,
            {
                let f = if j < 20 {
                    ((b & c) | (!b & d)).wrapping_add(0x5a827999)
                } else if j < 40 {
                    (b ^ c ^ d).wrapping_add(0x6ed9eba1)
                } else if j < 60 {
                    ((b & c) | (b & d) | (c & d)).wrapping_add(0x8f1bbcdc)
                } else {
                    (b ^ c ^ d).wrapping_add(0xca62c1d6)
                };
                let t = ((a << 5u32) ^ (a >> 27u32)).wrapping_add(f).wrapping_add(e).wrapping_add(this.w[j]);
                e = d;
                d = c;
                c = (b << 30u32) ^ (b >> 2u32);
                b = a;
                a = t;
                j = j + 1;
            }
            let h = [
                this.h[0].wrapping_add(a),
                this.h[1].wrapping_add(b),
                this.h[2].wrapping_add(c),
                this.h[3].wrapping_add(d),
                this.h[4].wrapping_add(e),
            ];
            this.h = h;
            i = i + 1;
            base = base + 64;
        }
        this
    }

    /// Writes `count` zero bytes from offset `from`.
    fn zero_fill(buffer: &mut Vec<u8>, from: usize, to: usize)
        requires
            from <= to <= old(buffer)@.len(),
        ensures
            final(buffer)@.len() == old(buffer)@.len(),
            forall|k: int| from <= k < to ==> final(buffer)@[k] == 0,
            forall|k: int| 0 <= k < final(buffer)@.len() && !(from <= k < to) ==> final(buffer)@[k] == old(buffer)@[k],
    {
        let mut i = from;
        while i < to
            invariant
                from <= i <= to <= buffer@.len(),
                buffer@.len() == old(buffer)@.len(),
                forall|k: int| from <= k < i ==> buffer@[k] == 0,
                forall|k: int| 0 <= k < buffer@.len() && !(from <= k < i) ==> buffer@[k] == old(buffer)@[k],
            decreases to - i,
        {
            buffer.set(i, 0);
            i = i + 1;
        }
    }

    /// Writes the big-endian bytes of `x` at offsets 56 to 63.
    fn put_length(buffer: &mut Vec<u8>, x: u64)
        requires
            old(buffer)@.len() >= 64,
        ensures
            final(buffer)@.len() == old(buffer)@.len(),
            final(buffer)@.subrange(56, 64) == be_bytes(x),
            forall|k: int| 0 <= k < final(buffer)@.len() && !(56 <= k < 64) ==> final(buffer)@[k] == old(buffer)@[k],
    {
        let mut i: usize = 0;
        while i < 8
            invariant
                i <= 8,
                buffer@.len() == old(buffer)@.len(),
                buffer@.len() >= 64,
                forall|k: int| 0 <= k < i ==> buffer@[56 + k] == be_bytes(x)[k],
                forall|k: int| 0 <= k < buffer@.len() && !(56 <= k < 56 + i) ==> buffer@[k] == old(buffer)@[k],
            decreases 8 - i,
        {
            let shift: u64 = (56 - 8 * i) as u64;
            buffer.set(56 + i, ((x >> shift) & 0xff) as u8);
            i = i + 1;
        }
        assert(buffer@.subrange(56, 64) =~= be_bytes(x));
    }

    /// Pads the `len` bytes left in `buffer` with 0x80, zeros and the message length of `total`
    /// bytes in bits, hashes the last block or two, and gives the hash.
    pub fn finalize(self, buffer: &mut Vec<u8>, len: usize, total: u64) -> (r: [u32; 5])
        requires
            self.wf(),
            len < 64,
            old(buffer)@.len() >= 64,
            total * 8 <= u64::MAX,
        ensures
            ({
                let p = padded(old(buffer)@.subrange(0, len as int), total);
                (r@[0], r@[1], r@[2], r@[3], r@[4]) == digest_blocks(self.state(), p, (p.len() / 64) as int)
            }),
    {
        let ghost tail = buffer@.subrange(0, len as int);
        let ghost p = padded(tail, total);
        let ghost h0 = self.state();
        let bits = total * 8;
        if len < 56 {
            buffer.set(len, 0x80);
            Self::zero_fill(buffer, len + 1, 56);
            Self::put_length(buffer, bits);
            proof {
                assert(buffer@.subrange(0, 64) =~= p);
                assert(p.len() / 64 == 1);
                assert(p.subrange(0, 64) =~= p);
            }
            let this = self.update(buffer, 64);
            proof {
                assert(buffer@.subrange(0, 64) =~= p.subrange(0, 64));
                lemma_digest_prefix(h0, buffer@, p, 1);
            }
            this.h
        } else {
            buffer.set(len, 0x80);
            Self::zero_fill(buffer, len + 1, 64);
            proof {
                assert(buffer@.subrange(0, 64) =~= p.subrange(0, 64));
                lemma_digest_prefix(h0, buffer@, p, 1);
            }
            let this = self.update(buffer, 64);
            let ghost h1 = this.state();
            Self::zero_fill(buffer, 0, 56);
            Self::put_length(buffer, bits);
            proof {
                assert(buffer@.subrange(0, 64) =~= p.subrange(64, 128));
                assert(p.len() / 64 == 2);
            }
            let this = this.update(buffer, 64);
            proof {
                assert(digest_blocks(h1, buffer@, 0) == h1);
                assert(digest_blocks(h1, buffer@, 1) == compress(h1, buffer@.subrange(0, 64)));
                assert(digest_blocks(h0, p, 2) == compress(digest_blocks(h0, p, 1), p.subrange(64, 128)));
            }
            this.h
        }
    }
}

/// Two messages that agree on their first `k` blocks agree on the state after them.
proof fn lemma_digest_prefix(h: (u32, u32, u32, u32, u32), m1: Seq<u8>, m2: Seq<u8>, k: int)
    requires
        0 <= k,
        64 * k <= m1.len(),
        64 * k <= m2.len(),
        m1.subrange(0, 64 * k) == m2.subrange(0, 64 * k),
    ensures
        digest_blocks(h, m1, k) == digest_blocks(h, m2, k),
    decreases k,
{
    if k > 0 {
        assert(m1.subrange(0, 64 * (k - 1)) =~= m1.subrange(0, 64 * k).subrange(0, 64 * (k - 1)));
        assert(m2.subrange(0, 64 * (k - 1)) =~= m2.subrange(0, 64 * k).subrange(0, 64 * (k - 1)));
        lemma_digest_prefix(h, m1, m2, k - 1);
        assert(m1.subrange(64 * (k - 1), 64 * k) =~= m1.subrange(0, 64 * k).subrange(64 * (k - 1), 64 * k));
        assert(m2.subrange(64 * (k - 1), 64 * k) =~= m2.subrange(0, 64 * k).subrange(64 * (k - 1), 64 * k));
    }
}

} // verus!
