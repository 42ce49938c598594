//! SipHash-2-4: a keyed pseudorandom function for hash-table keying,
//! implemented as a streaming engine behind the capability interfaces.
//!
//! The specification functions below are the mathematical model of the
//! algorithm: four 64-bit lanes mixed by an add-rotate-xor round, two rounds
//! per 8-byte little-endian message block, a length-tagged padding block, and
//! four finalization rounds.

use vstd::prelude::*;

use crate::traits::HashContext;
use crate::traits::HashFunction;

verus! {

/// 64-bit addition with wraparound on overflow.
pub open spec fn wadd(a: u64, b: u64) -> u64 {
    if a + b > u64::MAX {
        (a + b - 0x1_0000_0000_0000_0000) as u64
    } else {
        (a + b) as u64
    }
}

/// Bitwise rotate-left of a 64-bit word.
pub open spec fn rotl(x: u64, n: u64) -> u64
    recommends
        0 < n < 64,
{
    (x << n) | (x >> (64 - n) as u64)
}

/// One SipHash compression round over the four lanes.
pub open spec fn sip_round(s: (u64, u64, u64, u64)) -> (u64, u64, u64, u64) {
    let (v0, v1, v2, v3) = s;
    let v0 = wadd(v0, v1);
    let v1 = rotl(v1, 13);
    let v1 = v1 ^ v0;
    let v0 = rotl(v0, 32);
    let v2 = wadd(v2, v3);
    let v3 = rotl(v3, 16);
    let v3 = v3 ^ v2;
    let v0 = wadd(v0, v3);
    let v3 = rotl(v3, 21);
    let v3 = v3 ^ v0;
    let v2 = wadd(v2, v1);
    let v1 = rotl(v1, 17);
    let v1 = v1 ^ v2;
    let v2 = rotl(v2, 32);
    (v0, v1, v2, v3)
}

/// Absorption of one 8-byte message block: xor into `v3`, two compression
/// rounds, xor into `v0` (the c = 2 parameter of SipHash-2-4).
pub open spec fn absorb_block(s: (u64, u64, u64, u64), m: u64) -> (u64, u64, u64, u64) {
    let s = (s.0, s.1, s.2, s.3 ^ m);
    let s = sip_round(sip_round(s));
    (s.0 ^ m, s.1, s.2, s.3)
}

/// The initial lane values derived from the two keys and the four fixed
/// constants of the SipHash specification.
pub open spec fn init_lanes(k0: u64, k1: u64) -> (u64, u64, u64, u64) {
    (
        k0 ^ 0x736f6d6570736575,
        k1 ^ 0x646f72616e646f6d,
        k0 ^ 0x6c7967656e657261,
        k1 ^ 0x7465646279746573,
    )
}

/// Little-endian packing of up to 8 bytes into a 64-bit word: byte `i` of the
/// sequence lands in bits `8*i .. 8*i + 8`.
pub open spec fn le_word(s: Seq<u8>) -> u64
    recommends
        s.len() <= 8,
    decreases s.len(),
{
    if s.len() == 0 {
        0u64
    } else {
        le_word(s.drop_last()) | ((s.last() as u64) << (8 * (s.len() - 1)) as u64)
    }
}

/// Absorption of every full 8-byte block of `msg`, front to back; trailing
/// bytes beyond the last full block are ignored.
pub open spec fn absorb_stream(s: (u64, u64, u64, u64), msg: Seq<u8>) -> (u64, u64, u64, u64)
    decreases msg.len(),
{
    if msg.len() < 8 {
        s
    } else {
        absorb_stream(absorb_block(s, le_word(msg.take(8))), msg.skip(8))
    }
}

/// The padding block: the low byte of the total message length in the top
/// byte, over the little-endian packed trailing bytes.
pub open spec fn pad_block(len: nat, tail: Seq<u8>) -> u64
    recommends
        tail.len() < 8,
{
    (((len % 256) as u64) << 56) | le_word(tail)
}

/// Finalization: xor `0xff` into `v2`, four compression rounds, then xor the
/// four lanes together (the d = 4 parameter of SipHash-2-4).
pub open spec fn finalize(s: (u64, u64, u64, u64)) -> u64 {
    let s = (s.0, s.1, s.2 ^ 0xff, s.3);
    let s = sip_round(sip_round(sip_round(sip_round(s))));
    s.0 ^ s.1 ^ s.2 ^ s.3
}

/// The SipHash-2-4 digest of `msg` under keys `(k0, k1)`.
pub open spec fn sip_hash(k0: u64, k1: u64, msg: Seq<u8>) -> u64 {
    let full = (msg.len() - msg.len() % 8) as int;
    let s = absorb_stream(init_lanes(k0, k1), msg.take(full));
    finalize(absorb_block(s, pad_block(msg.len(), msg.skip(full))))
}

/// Little-endian packing distributes over concatenation: the second part
/// lands above the bits of the first.
#[verifier::rlimit(60)]
proof fn lemma_le_word_concat(a: Seq<u8>, b: Seq<u8>)
    requires
        a.len() + b.len() <= 8,
        a.len() < 8,
    ensures
        le_word(a + b) == le_word(a) | (le_word(b) << (8 * a.len()) as u64),
    decreases b.len(),
{
    let k = (8 * a.len()) as u64;
    if b.len() == 0 {
        assert(a + b =~= a);
        let x = le_word(a);
        assert(x | (0u64 << k) == x) by (bit_vector);
    } else {
        lemma_le_word_concat(a, b.drop_last());
        assert((a + b).drop_last() =~= a + b.drop_last());
        let j = (8 * (b.len() - 1)) as u64;
        let m = (8 * (a.len() + b.len() - 1)) as u64;
        let x = le_word(a);
        let y = le_word(b.drop_last());
        let z = b.last() as u64;
        assert((x | (y << k)) | (z << m) == x | ((y | (z << j)) << k)) by (bit_vector)
            requires
                m == k + j,
                k <= 56,
                j <= 56,
                m <= 56,
        ;
        assert(le_word(a + b) == (x | (y << k)) | (z << m));
        assert(le_word(b) == y | (z << j));
    }
}

/// Absorbing a stream extended by one full block equals absorbing the stream
/// and then that block.
proof fn lemma_absorb_stream_snoc(s: (u64, u64, u64, u64), a: Seq<u8>, w: Seq<u8>)
    requires
        a.len() % 8 == 0,
        w.len() == 8,
    ensures
        absorb_stream(s, a + w) == absorb_block(absorb_stream(s, a), le_word(w)),
    decreases a.len(),
{
    reveal_with_fuel(absorb_stream, 3);
    if a.len() == 0 {
        assert(a + w =~= w);
        assert(w.take(8) =~= w);
        assert(w.skip(8).len() == 0);
    } else {
        if a.len() < 8 {
            vstd::arithmetic::div_mod::lemma_small_mod(a.len(), 8);
        }
        assert(a.len() >= 8);
        assert((a + w).take(8) =~= a.take(8));
        assert((a + w).skip(8) =~= a.skip(8) + w);
        assert((a.len() - 8) % 8 == 0) by {
            vstd::arithmetic::div_mod::lemma_mod_sub_multiples_vanish(a.len() as int, 8);
        }
        lemma_absorb_stream_snoc(absorb_block(s, le_word(a.take(8))), a.skip(8), w);
    }
}

/// Reducing an integer modulo 2^64 and then modulo 256 is reduction
/// modulo 256, since 256 divides 2^64.
proof fn lemma_mod_pow2_64_then_256(a: int)
    requires
        a >= 0,
    ensures
        (a % 0x1_0000_0000_0000_0000) % 256 == a % 256,
{
    let m: int = 0x1_0000_0000_0000_0000;
    let q = a / m;
    vstd::arithmetic::div_mod::lemma_fundamental_div_mod(a, m);
    assert(a == m * q + a % m);
    vstd::arithmetic::div_mod::lemma_mod_multiples_vanish(
        q * 0x100_0000_0000_0000,
        a % m,
        256,
    );
}

/// Adding to a value already reduced modulo 2^64 and wrapping again is
/// reduction of the full sum.
proof fn lemma_wadd_mod(a: int, b: u64)
    requires
        a >= 0,
    ensures
        wadd((a % 0x1_0000_0000_0000_0000) as u64, b) == (a + b) % 0x1_0000_0000_0000_0000,
{
    let m: int = 0x1_0000_0000_0000_0000;
    let q = a / m;
    let r = a % m;
    vstd::arithmetic::div_mod::lemma_fundamental_div_mod(a, m);
    vstd::arithmetic::div_mod::lemma_mod_multiples_vanish(q, r + b, m);
    assert((a + b) % m == (r + b) % m);
    if r + b <= u64::MAX {
        vstd::arithmetic::div_mod::lemma_small_mod((r + b) as nat, m as nat);
    } else {
        vstd::arithmetic::div_mod::lemma_mod_sub_multiples_vanish(r + b, m);
        vstd::arithmetic::div_mod::lemma_small_mod((r + b - m) as nat, m as nat);
    }
}

/// One compression round over the four lanes, passed and returned by value.
#[inline]
fn compress(s: (u64, u64, u64, u64)) -> (r: (u64, u64, u64, u64))
    ensures
        r == sip_round(s),
{
    let (mut v0, mut v1, mut v2, mut v3) = s;
    v0 = v0.wrapping_add(v1);
    v1 = (v1 << 13) | (v1 >> 51);
    v1 = v1 ^ v0;
    v0 = (v0 << 32) | (v0 >> 32);
    v2 = v2.wrapping_add(v3);
    v3 = (v3 << 16) | (v3 >> 48);
    v3 = v3 ^ v2;
    v0 = v0.wrapping_add(v3);
    v3 = (v3 << 21) | (v3 >> 43);
    v3 = v3 ^ v0;
    v2 = v2.wrapping_add(v1);
    v1 = (v1 << 17) | (v1 >> 47);
    v1 = v1 ^ v2;
    v2 = (v2 << 32) | (v2 >> 32);
    (v0, v1, v2, v3)
}

/// Load `n <= 8` bytes of `msg` starting at `start` as a little-endian word,
/// by the portable shift-and-or decomposition.
fn load_le(msg: &[u8], start: usize, n: usize) -> (r: u64)
    requires
        start + n <= msg@.len(),
        n <= 8,
    ensures
        r == le_word(msg@.subrange(start as int, (start + n) as int)),
{
    let mlen: usize = msg.len();
    let mut word: u64 = 0;
    let mut t: usize = 0;
    while t < n
        invariant
            t <= n,
            n <= 8,
            start + n <= msg@.len(),
            msg@.len() == mlen,
            word == le_word(msg@.subrange(start as int, (start + t) as int)),
        decreases n - t,
    {
        let byte = msg[start + t];
        word = word | ((byte as u64) << ((8 * t) as u64));
        proof {
            let prev = msg@.subrange(start as int, (start + t) as int);
            let cur = msg@.subrange(start as int, (start + t + 1) as int);
            assert(cur.drop_last() =~= prev);
            assert(cur.last() == msg@[start + t]);
        }
        t = t + 1;
    }
    proof {
        assert(msg@.subrange(start as int, (start + t) as int)
            =~= msg@.subrange(start as int, (start + n) as int));
    }
    word
}

/// A SipHash-2-4 factory: the two 64-bit secret keys, immutable and
/// reusable across unlimited digests.
pub struct SipHashFunction {
    k0: u64,
    k1: u64,
}

impl SipHashFunction {
    /// The first secret key.
    pub closed spec fn key0(&self) -> u64 {
        self.k0
    }

    /// The second secret key.
    pub closed spec fn key1(&self) -> u64 {
        self.k1
    }

    /// The unkeyed construction `(0, 0)`: convenient, but not a safe default
    /// against adversarial input — randomize keys per table instance.
    pub fn new() -> (r: SipHashFunction)
        ensures
            r.key0() == 0,
            r.key1() == 0,
    {
        SipHashFunction::new_with_keys(0, 0)
    }

    /// A factory over the caller-supplied key pair.
    pub fn new_with_keys(k0: u64, k1: u64) -> (r: SipHashFunction)
        ensures
            r.key0() == k0,
            r.key1() == k1,
    {
        SipHashFunction { k0: k0, k1: k1 }
    }
}

/// The digest map of a SipHash factory is `sip_hash` of its two keys.
pub proof fn lemma_sip_digest_of(f: &SipHashFunction, msg: Seq<u8>)
    ensures
        f.digest_of(msg) == sip_hash(f.key0(), f.key1(), msg),
{
}

/// Determinism: identical keys produce the identical digest map, whatever
/// the factory values are otherwise.
pub proof fn lemma_digest_deterministic(a: &SipHashFunction, b: &SipHashFunction, msg: Seq<u8>)
    requires
        a.key0() == b.key0(),
        a.key1() == b.key1(),
    ensures
        a.digest_of(msg) == b.digest_of(msg),
{
}

/// The SipHash streaming engine: four 64-bit mixing lanes, up to 7 pending
/// bytes packed little-endian into `tail`, and a running total-length
/// counter.  Created only by a factory's `init`; consumed by `finish`.
pub struct SipContext {
    length: u64,
    v0: u64,
    v1: u64,
    v2: u64,
    v3: u64,
    tail: u64,
    ntail: usize,
    keys: Ghost<(u64, u64)>,
    blocks: Ghost<Seq<u8>>,
    pending: Ghost<Seq<u8>>,
}

impl SipContext {
    /// Absorb one completed 8-byte block into the lanes.
    fn absorb_word(&mut self, m: u64)
        ensures
            (final(self).v0, final(self).v1, final(self).v2, final(self).v3)
                == absorb_block((old(self).v0, old(self).v1, old(self).v2, old(self).v3), m),
            final(self).length == old(self).length,
            final(self).tail == old(self).tail,
            final(self).ntail == old(self).ntail,
            final(self).keys == old(self).keys,
            final(self).blocks == old(self).blocks,
            final(self).pending == old(self).pending,
    {
        let s = (self.v0, self.v1, self.v2, self.v3 ^ m);
        let s = compress(compress(s));
        self.v0 = s.0 ^ m;
        self.v1 = s.1;
        self.v2 = s.2;
        self.v3 = s.3;
    }
}

impl crate::traits::HashContext for SipContext {
    type Result = u64;

    closed spec fn wf(&self) -> bool {
        &&& self.blocks@.len() % 8 == 0
        &&& self.pending@.len() == self.ntail
        &&& self.ntail < 8
        &&& (self.v0, self.v1, self.v2, self.v3)
            == absorb_stream(init_lanes(self.keys@.0, self.keys@.1), self.blocks@)
        &&& self.tail == le_word(self.pending@)
        &&& self.length == (self.blocks@.len() + self.pending@.len()) % 0x1_0000_0000_0000_0000
    }

    closed spec fn absorbed(&self) -> Seq<u8> {
        self.blocks@ + self.pending@
    }

    closed spec fn result_for(&self, msg: Seq<u8>) -> u64 {
        sip_hash(self.keys@.0, self.keys@.1, msg)
    }

    fn update(&mut self, msg: &[u8]) {
        let length: usize = msg.len();
        let ghost blocks0 = self.blocks@;
        let ghost pending0 = self.pending@;
        let ghost total0 = blocks0.len() + pending0.len();

        self.length = self.length.wrapping_add(length as u64);
        proof {
            lemma_wadd_mod(total0 as int, length as u64);
        }

        let mut needed: usize = 0;

        if self.ntail != 0 {
            needed = 8 - self.ntail;
            if length < needed {
                // too few bytes to complete the pending block: pack them all
                // above the existing pending bytes and wait for more
                let w = load_le(msg, 0, length);
                self.tail = self.tail | (w << ((8 * self.ntail) as u64));
                self.ntail = self.ntail + length;
                self.pending = Ghost(pending0 + msg@);
                proof {
                    assert(msg@.subrange(0, length as int) =~= msg@);
                    lemma_le_word_concat(pending0, msg@);
                    assert(self.blocks@ + self.pending@ =~= (blocks0 + pending0) + msg@);
                }
                return;
            }

            // complete the pending block with exactly `needed` front bytes
            let w = load_le(msg, 0, needed);
            let m = self.tail | (w << ((8 * self.ntail) as u64));
            proof {
                lemma_le_word_concat(pending0, msg@.subrange(0, needed as int));
            }
            self.absorb_word(m);
            self.ntail = 0;
            self.blocks = Ghost(blocks0 + (pending0 + msg@.subrange(0, needed as int)));
            self.pending = Ghost(Seq::empty());
            proof {
                lemma_absorb_stream_snoc(
                    init_lanes(self.keys@.0, self.keys@.1),
                    blocks0,
                    pending0 + msg@.subrange(0, needed as int),
                );
                vstd::arithmetic::div_mod::lemma_mod_add_multiples_vanish(
                    blocks0.len() as int,
                    8,
                );
            }
        }

        // absorb all remaining full 8-byte blocks directly from `msg`
        let ghost base = self.blocks@;
        let ghost frozen = *self;
        let mut i: usize = needed;
        while length - i >= 8
            invariant
                needed <= i,
                i <= length,
                msg@.len() == length,
                self.blocks@ == base + msg@.subrange(needed as int, i as int),
                self.blocks@.len() % 8 == 0,
                (self.v0, self.v1, self.v2, self.v3)
                    == absorb_stream(init_lanes(self.keys@.0, self.keys@.1), self.blocks@),
                self.length == frozen.length,
                self.tail == frozen.tail,
                self.ntail == frozen.ntail,
                self.keys == frozen.keys,
                self.pending == frozen.pending,
            decreases length - i,
        {
            let w = load_le(msg, i, 8);
            let ghost before = self.blocks@;
            self.absorb_word(w);
            self.blocks = Ghost(base + msg@.subrange(needed as int, (i + 8) as int));
            proof {
                lemma_absorb_stream_snoc(
                    init_lanes(self.keys@.0, self.keys@.1),
                    before,
                    msg@.subrange(i as int, (i + 8) as int),
                );
                assert(before + msg@.subrange(i as int, (i + 8) as int) =~= self.blocks@);
                vstd::arithmetic::div_mod::lemma_mod_add_multiples_vanish(
                    before.len() as int,
                    8,
                );
            }
            i = i + 8;
        }

        // the 0..7 trailing bytes become the new pending tail
        let left = length - i;
        let w = load_le(msg, i, left);
        self.tail = w;
        self.ntail = left;
        self.pending = Ghost(msg@.subrange(i as int, length as int));
        proof {
            assert(self.blocks@ + self.pending@ =~= (blocks0 + pending0) + msg@);
        }
    }

    fn finish(self) -> (r: u64) {
        let ghost hist = self.blocks@ + self.pending@;
        let b: u64 = ((self.length & 0xff) << 56) | self.tail;
        proof {
            let l64 = self.length;
            assert(l64 & 0xff == l64 % 256) by (bit_vector);
            lemma_mod_pow2_64_then_256(hist.len() as int);
            // the full-block prefix of the history is exactly `blocks`
            let blen = self.blocks@.len();
            let q = blen / 8;
            vstd::arithmetic::div_mod::lemma_fundamental_div_mod(blen as int, 8);
            vstd::arithmetic::div_mod::lemma_mod_multiples_vanish(
                q as int,
                self.pending@.len() as int,
                8,
            );
            vstd::arithmetic::div_mod::lemma_small_mod(self.pending@.len(), 8);
            assert(hist.len() % 8 == self.pending@.len());
            assert(hist.take(blen as int) =~= self.blocks@);
            assert(hist.skip(blen as int) =~= self.pending@);
            assert(b == pad_block(hist.len(), self.pending@));
        }
        let s = (self.v0, self.v1, self.v2, self.v3 ^ b);
        let s = compress(compress(s));
        let s = (s.0 ^ b, s.1, s.2 ^ 0xff, s.3);
        let s = compress(compress(compress(compress(s))));
        s.0 ^ s.1 ^ s.2 ^ s.3
    }
}

impl crate::traits::HashFunction for SipHashFunction {
    type Context = SipContext;

    closed spec fn digest_of(&self, msg: Seq<u8>) -> u64 {
        sip_hash(self.k0, self.k1, msg)
    }

    fn init(&self) -> (ctx: SipContext) {
        let ctx = SipContext {
            v0: self.k0 ^ 0x736f6d6570736575,
            v1: self.k1 ^ 0x646f72616e646f6d,
            v2: self.k0 ^ 0x6c7967656e657261,
            v3: self.k1 ^ 0x7465646279746573,
            length: 0,
            tail: 0,
            ntail: 0,
            keys: Ghost((self.k0, self.k1)),
            blocks: Ghost(Seq::empty()),
            pending: Ghost(Seq::empty()),
        };
        proof {
            assert(ctx.blocks@ + ctx.pending@ =~= Seq::<u8>::empty());
            assert(absorb_stream(init_lanes(self.k0, self.k1), ctx.blocks@)
                == init_lanes(self.k0, self.k1));
            assert(ctx.wf());
        }
        ctx
    }
}

} // verus!
