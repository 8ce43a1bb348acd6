//! SHA-256: block compression transform and incremental hasher.
//!
//! The chaining state is eight 32-bit words; a message block is 64
//! bytes, read as big-endian words.  `spec_compress` is the
//! mathematical statement of the block transform — message-schedule
//! expansion, 64 rounds, Davies–Meyer feed-forward — and every
//! executable compression path is proved to compute exactly it.

use vstd::prelude::*;
use vstd::wrapping::u32_specs;
use crate::{Backend, HashError};

verus! {

/// Round constants: the fractional parts of the cube roots of the
/// first 64 primes, as published in the standard.
pub const K256: [u32; 64] = [
    0x428a2f98, 0x71374491, 0xb5c0fbcf, 0xe9b5dba5,
    0x3956c25b, 0x59f111f1, 0x923f82a4, 0xab1c5ed5,
    0xd807aa98, 0x12835b01, 0x243185be, 0x550c7dc3,
    0x72be5d74, 0x80deb1fe, 0x9bdc06a7, 0xc19bf174,
    0xe49b69c1, 0xefbe4786, 0x0fc19dc6, 0x240ca1cc,
    0x2de92c6f, 0x4a7484aa, 0x5cb0a9dc, 0x76f988da,
    0x983e5152, 0xa831c66d, 0xb00327c8, 0xbf597fc7,
    0xc6e00bf3, 0xd5a79147, 0x06ca6351, 0x14292967,
    0x27b70a85, 0x2e1b2138, 0x4d2c6dfc, 0x53380d13,
    0x650a7354, 0x766a0abb, 0x81c2c92e, 0x92722c85,
    0xa2bfe8a1, 0xa81a664b, 0xc24b8b70, 0xc76c51a3,
    0xd192e819, 0xd6990624, 0xf40e3585, 0x106aa070,
    0x19a4c116, 0x1e376c08, 0x2748774c, 0x34b0bcb5,
    0x391c0cb3, 0x4ed8aa4a, 0x5b9cca4f, 0x682e6ff3,
    0x748f82ee, 0x78a5636f, 0x84c87814, 0x8cc70208,
    0x90befffa, 0xa4506ceb, 0xbef9a3f7, 0xc67178f2,
];

/// Initial chaining state: the fractional parts of the square roots of
/// the first eight primes.
pub const H256: [u32; 8] = [
    0x6a09e667, 0xbb67ae85, 0x3c6ef372, 0xa54ff53a,
    0x510e527f, 0x9b05688c, 0x1f83d9ab, 0x5be0cd19,
];

/// Addition modulo 2^32, the only addition the algorithm uses.
pub open spec fn wadd(x: u32, y: u32) -> u32 {
    u32_specs::wrapping_add(x, y)
}

/// Right rotation of a 32-bit word by `n` positions, `0 < n < 32`.
pub open spec fn spec_rotr(x: u32, n: u32) -> u32
    recommends
        0 < n < 32,
{
    let m = (32 - n) as u32;
    (x >> n) | (x << m)
}

/// Ch(e, f, g): for each bit, `e` chooses between `f` and `g`.
pub open spec fn spec_ch(e: u32, f: u32, g: u32) -> u32 {
    (e & f) ^ (!e & g)
}

/// Maj(a, b, c): the majority vote of the three words, bit by bit.
pub open spec fn spec_maj(a: u32, b: u32, c: u32) -> u32 {
    (a & b) ^ (a & c) ^ (b & c)
}

/// Σ0, mixed into each round from the working variable `a`.
pub open spec fn spec_bsig0(x: u32) -> u32 {
    spec_rotr(x, 2) ^ spec_rotr(x, 13) ^ spec_rotr(x, 22)
}

/// Σ1, mixed into each round from the working variable `e`.
pub open spec fn spec_bsig1(x: u32) -> u32 {
    spec_rotr(x, 6) ^ spec_rotr(x, 11) ^ spec_rotr(x, 25)
}

/// σ0, used by the message-schedule recurrence.
pub open spec fn spec_ssig0(x: u32) -> u32 {
    spec_rotr(x, 7) ^ spec_rotr(x, 18) ^ (x >> 3)
}

/// σ1, used by the message-schedule recurrence.
pub open spec fn spec_ssig1(x: u32) -> u32 {
    spec_rotr(x, 17) ^ spec_rotr(x, 19) ^ (x >> 10)
}

/// Word `i` of a block: four bytes read big-endian.
pub open spec fn spec_word(b: Seq<u8>, i: int) -> u32
    recommends
        0 <= i,
        4 * i + 3 < b.len(),
{
    ((b[4 * i] as u32) << 24) | ((b[4 * i + 1] as u32) << 16) | ((b[4 * i + 2] as u32) << 8) | (
    b[4 * i + 3] as u32)
}

/// Entry `i` of the message schedule: the block's own words for
/// `i < 16`, then the σ0/σ1 expansion recurrence.
pub open spec fn spec_sched(b: Seq<u8>, i: int) -> u32
    recommends
        b.len() == 64,
        0 <= i < 64,
    decreases i,
{
    if i < 16 {
        spec_word(b, i)
    } else {
        wadd(
            wadd(wadd(spec_sched(b, i - 16), spec_ssig0(spec_sched(b, i - 15))), spec_sched(b, i - 7)),
            spec_ssig1(spec_sched(b, i - 2)),
        )
    }
}

/// One round applied to the eight working variables `v = [a..h]`,
/// with round constant `k` and schedule word `w`.
pub open spec fn spec_round(v: Seq<u32>, k: u32, w: u32) -> Seq<u32>
    recommends
        v.len() == 8,
{
    let t1 = wadd(wadd(wadd(wadd(v[7], spec_bsig1(v[4])), spec_ch(v[4], v[5], v[6])), k), w);
    let t2 = wadd(spec_bsig0(v[0]), spec_maj(v[0], v[1], v[2]));
    seq![wadd(t1, t2), v[0], v[1], v[2], wadd(v[3], t1), v[4], v[5], v[6]]
}

/// The working variables after the first `n` of the 64 rounds.
pub open spec fn spec_rounds(hs: Seq<u32>, b: Seq<u8>, n: int) -> Seq<u32>
    recommends
        hs.len() == 8,
        b.len() == 64,
        0 <= n <= 64,
    decreases n,
{
    if n <= 0 {
        hs
    } else {
        spec_round(spec_rounds(hs, b, n - 1), K256@[n - 1], spec_sched(b, n - 1))
    }
}

/// The block compression transform: 64 rounds on the working
/// variables, then the Davies–Meyer feed-forward onto the old state.
pub open spec fn spec_compress(hs: Seq<u32>, b: Seq<u8>) -> Seq<u32>
    recommends
        hs.len() == 8,
        b.len() == 64,
{
    let v = spec_rounds(hs, b, 64);
    Seq::new(8, |i: int| wadd(hs[i], v[i]))
}

/// The standard initial chaining state, as a sequence.
pub open spec fn spec_iv() -> Seq<u32> {
    H256@
}

/// The running digest value H0..H7 (32-bit words for SHA-256).
#[derive(Clone, Copy, Debug)]
pub struct Sha256State {
    pub h: [u32; 8],
}

impl Sha256State {
    /// A state holding the standard initialization vector.
    pub fn new() -> (s: Self)
        ensures
            s.h@ == spec_iv(),
    {
        Sha256State { h: H256 }
    }
}

fn ch(e: u32, f: u32, g: u32) -> (r: u32)
    ensures
        r == spec_ch(e, f, g),
{
    (e & f) ^ (!e & g)
}

fn maj(a: u32, b: u32, c: u32) -> (r: u32)
    ensures
        r == spec_maj(a, b, c),
{
    (a & b) ^ (a & c) ^ (b & c)
}

fn bsig0(x: u32) -> (r: u32)
    ensures
        r == spec_bsig0(x),
{
    ((x >> 2) | (x << 30)) ^ ((x >> 13) | (x << 19)) ^ ((x >> 22) | (x << 10))
}

fn bsig1(x: u32) -> (r: u32)
    ensures
        r == spec_bsig1(x),
{
    ((x >> 6) | (x << 26)) ^ ((x >> 11) | (x << 21)) ^ ((x >> 25) | (x << 7))
}

fn ssig0(x: u32) -> (r: u32)
    ensures
        r == spec_ssig0(x),
{
    ((x >> 7) | (x << 25)) ^ ((x >> 18) | (x << 14)) ^ (x >> 3)
}

fn ssig1(x: u32) -> (r: u32)
    ensures
        r == spec_ssig1(x),
{
    ((x >> 17) | (x << 15)) ^ ((x >> 19) | (x << 13)) ^ (x >> 10)
}

/// Portable scalar SHA-256 block transform: the algorithm of record.
pub fn sha256_transform_generic(state: &mut Sha256State, data: &[u8; 64])
    ensures
        final(state).h@ == spec_compress(old(state).h@, data@),
{
    let ghost orig: Seq<u32> = state.h@;
    let mut w: [u32; 64] = [0u32; 64];

    for i in 0..16
        invariant
            forall|j: int| 0 <= j < i ==> w@[j] == spec_sched(data@, j),
    {
        let x: u32 = ((data[i * 4] as u32) << 24) | ((data[i * 4 + 1] as u32) << 16) | ((data[i * 4
            + 2] as u32) << 8) | (data[i * 4 + 3] as u32);
        w[i] = x;
    }

    for i in 16..64
        invariant
            forall|j: int| 0 <= j < i ==> w@[j] == spec_sched(data@, j),
    {
        let s0 = ssig0(w[i - 15]);
        let s1 = ssig1(w[i - 2]);
        let x = w[i - 16].wrapping_add(s0).wrapping_add(w[i - 7]).wrapping_add(s1);
        w[i] = x;
    }

    let mut a = state.h[0];
    let mut b = state.h[1];
    let mut c = state.h[2];
    let mut d = state.h[3];
    let mut e = state.h[4];
    let mut f = state.h[5];
    let mut g = state.h[6];
    let mut h = state.h[7];

    for i in 0..64
        invariant
            state.h@ == orig,
            forall|j: int| 0 <= j < 64 ==> w@[j] == spec_sched(data@, j),
            seq![a, b, c, d, e, f, g, h] =~= spec_rounds(orig, data@, i as int),
    {
        let s1 = bsig1(e);
        let chv = ch(e, f, g);
        let temp1 = h.wrapping_add(s1).wrapping_add(chv).wrapping_add(K256[i]).wrapping_add(w[i]);
        let s0 = bsig0(a);
        let majv = maj(a, b, c);
        let temp2 = s0.wrapping_add(majv);

        h = g;
        g = f;
        f = e;
        e = d.wrapping_add(temp1);
        d = c;
        c = b;
        b = a;
        a = temp1.wrapping_add(temp2);
    }

    let r0 = state.h[0].wrapping_add(a);
    let r1 = state.h[1].wrapping_add(b);
    let r2 = state.h[2].wrapping_add(c);
    let r3 = state.h[3].wrapping_add(d);
    let r4 = state.h[4].wrapping_add(e);
    let r5 = state.h[5].wrapping_add(f);
    let r6 = state.h[6].wrapping_add(g);
    let r7 = state.h[7].wrapping_add(h);
    state.h[0] = r0;
    state.h[1] = r1;
    state.h[2] = r2;
    state.h[3] = r3;
    state.h[4] = r4;
    state.h[5] = r5;
    state.h[6] = r6;
    state.h[7] = r7;
    assert(state.h@ =~= spec_compress(orig, data@));
}

/// The chaining state after compressing every whole 64-byte block of
/// `s` in order, starting from `hs`; a trailing fragment shorter than
/// one block is ignored.
pub open spec fn spec_chain(hs: Seq<u32>, s: Seq<u8>) -> Seq<u32>
    recommends
        hs.len() == 8,
    decreases s.len(),
{
    if s.len() < 64 {
        hs
    } else {
        spec_chain(spec_compress(hs, s.take(64)), s.skip(64))
    }
}

/// Appending one whole block to a block-aligned stream chains one more
/// compression onto the state the stream already reaches.
pub proof fn lemma_chain_snoc(hs: Seq<u32>, s: Seq<u8>, b: Seq<u8>)
    requires
        hs.len() == 8,
        s.len() % 64 == 0,
        b.len() == 64,
    ensures
        spec_chain(hs, s + b) == spec_compress(spec_chain(hs, s), b),
    decreases s.len(),
{
    if s.len() == 0 {
        assert(s + b =~= b);
        assert(b.take(64) =~= b);
        assert(spec_chain(hs, b) == spec_chain(spec_compress(hs, b.take(64)), b.skip(64)));
        assert(spec_chain(spec_compress(hs, b), b.skip(64)) == spec_compress(hs, b));
    } else {
        crate::arith::lemma_multiple_ge(s.len() as int, 64);
        assert((s + b).take(64) =~= s.take(64));
        assert((s + b).skip(64) =~= s.skip(64) + b);
        crate::arith::lemma_multiple_minus_block(s.len() as int, 64);
        lemma_chain_snoc(spec_compress(hs, s.take(64)), s.skip(64), b);
    }
}

/// How many zero bytes stand between the 0x80 terminator and the
/// 8-byte length field: just enough that the padded stream ends on a
/// block boundary.
pub open spec fn spec_pad_zeros(n: int) -> int {
    ((55 - n) % 64 + 64) % 64
}

/// The zero fill is 55 - (n % 64) bytes when the length field still
/// fits the current block, and 64 more when the terminator pushes it
/// into a second block.
pub proof fn lemma_pad_zeros(n: int)
    requires
        n >= 0,
    ensures
        n % 64 <= 55 ==> spec_pad_zeros(n) == 55 - n % 64,
        n % 64 > 55 ==> spec_pad_zeros(n) == 119 - n % 64,
        0 <= spec_pad_zeros(n) <= 63,
{
    let bl = n % 64;
    vstd::arithmetic::div_mod::lemma_mod_pos_bound(n, 64);
    vstd::arithmetic::div_mod::lemma_fundamental_div_mod(n, 64);
    // 55 - n differs from 55 - bl by the multiple 64 * (n / 64)
    vstd::arithmetic::div_mod::lemma_mod_multiples_vanish(-(n / 64), 55 - bl, 64);
    assert((55 - n) % 64 == (55 - bl) % 64);
    if bl <= 55 {
        vstd::arithmetic::div_mod::lemma_small_mod((55 - bl) as nat, 64);
        vstd::arithmetic::div_mod::lemma_mod_multiples_vanish(1, 55 - bl, 64);
        vstd::arithmetic::div_mod::lemma_small_mod((55 - bl) as nat, 64);
    } else {
        vstd::arithmetic::div_mod::lemma_fundamental_div_mod_converse_mod(
            55 - bl,
            64,
            -1,
            119 - bl,
        );
        vstd::arithmetic::div_mod::lemma_mod_multiples_vanish(1, 119 - bl, 64);
        vstd::arithmetic::div_mod::lemma_small_mod((119 - bl) as nat, 64);
    }
}

/// The 64-bit message bit length as eight big-endian bytes.
pub open spec fn spec_len_bytes(x: u64) -> Seq<u8> {
    seq![
        (x >> 56) as u8,
        (x >> 48) as u8,
        (x >> 40) as u8,
        (x >> 32) as u8,
        (x >> 24) as u8,
        (x >> 16) as u8,
        (x >> 8) as u8,
        x as u8,
    ]
}

/// The standard padding: the stream, one 0x80 byte, zeros up to eight
/// bytes short of a block boundary, then the bit length, big-endian.
pub open spec fn spec_pad(s: Seq<u8>) -> Seq<u8>
    recommends
        8 * s.len() <= u64::MAX,
{
    s + seq![0x80u8] + Seq::new(spec_pad_zeros(s.len() as int) as nat, |i: int| 0u8)
        + spec_len_bytes((8 * s.len()) as u64)
}

/// Length-boundary behavior of the padding: the padded stream always
/// ends on a block boundary, one block past the aligned prefix when
/// the residue leaves room for the terminator and the length field
/// (residue at most 55 bytes), two blocks past it otherwise.
pub proof fn lemma_pad_boundary(s: Seq<u8>)
    requires
        8 * s.len() <= u64::MAX,
    ensures
        spec_pad(s).len() % 64 == 0,
        s.len() % 64 <= 55 ==> spec_pad(s).len() == s.len() - s.len() % 64 + 64,
        s.len() % 64 > 55 ==> spec_pad(s).len() == s.len() - s.len() % 64 + 128,
{
    let n = s.len() as int;
    let bl = n % 64;
    lemma_pad_zeros(n);
    crate::arith::lemma_strip_rem(n, 64);
    if bl <= 55 {
        vstd::arithmetic::div_mod::lemma_mod_multiples_vanish(1, n - bl, 64);
    } else {
        vstd::arithmetic::div_mod::lemma_mod_multiples_vanish(2, n - bl, 64);
    }
}

/// The big-endian bytes of one chaining word.
pub open spec fn spec_word_bytes(x: u32) -> Seq<u8> {
    seq![(x >> 24) as u8, (x >> 16) as u8, (x >> 8) as u8, x as u8]
}

/// The big-endian serialization of a whole chaining state.
pub open spec fn spec_state_bytes(hs: Seq<u32>) -> Seq<u8>
    decreases hs.len(),
{
    if hs.len() == 0 {
        Seq::<u8>::empty()
    } else {
        spec_word_bytes(hs[0]) + spec_state_bytes(hs.skip(1))
    }
}

/// The SHA-256 digest of a byte stream: pad, compress every block
/// starting from the standard initial state, serialize big-endian.
pub open spec fn spec_sha256(s: Seq<u8>) -> Seq<u8>
    recommends
        8 * s.len() <= u64::MAX,
{
    spec_state_bytes(spec_chain(spec_iv(), spec_pad(s)))
}

/// Block-aligned absorption: `st` is the chaining state reached by
/// compressing the aligned prefix of the stream `s`, and the first
/// `bl` bytes of `buf` hold the stream's unprocessed tail.
pub(crate) open spec fn abs_ok(st: Sha256State, buf: Seq<u8>, bl: int, s: Seq<u8>) -> bool {
    &&& 0 <= bl < 64
    &&& bl == s.len() % 64
    &&& st.h@ == spec_chain(spec_iv(), s.take(s.len() - bl))
    &&& buf.subrange(0, bl) == s.skip(s.len() - bl)
}

/// Incremental SHA-256 hasher: a running chaining state, a one-block
/// residual buffer, and the count of bytes absorbed so far.  Feed it
/// arbitrary chunks with `update`; `finalize` consumes it and returns
/// the digest of the whole absorbed stream.
pub struct Sha256 {
    state: Sha256State,
    buffer: [u8; 64],
    buffer_len: usize,
    total_len: u64,
    absorbed: Ghost<Seq<u8>>,
}

impl Sha256 {
    /// The byte stream absorbed so far.
    pub closed spec fn stream(self) -> Seq<u8> {
        self.absorbed@
    }

    /// The hasher's invariant: the residual buffer holds exactly the
    /// stream's tail past the last block boundary, the chaining state
    /// is the compression of the aligned prefix, the length counter
    /// matches the stream, and the stream's bit length fits the
    /// standard's 64-bit length field.
    pub closed spec fn wf(self) -> bool {
        &&& abs_ok(self.state, self.buffer@, self.buffer_len as int, self.absorbed@)
        &&& self.total_len == self.absorbed@.len()
        &&& 8 * self.absorbed@.len() <= u64::MAX
    }

    /// A fresh hasher: standard initial state, nothing absorbed.
    pub fn new() -> (h: Self)
        ensures
            h.wf(),
            h.stream() == Seq::<u8>::empty(),
    {
        let h = Sha256 {
            state: Sha256State::new(),
            buffer: [0u8; 64],
            buffer_len: 0,
            total_len: 0,
            absorbed: Ghost(Seq::empty()),
        };
        proof {
            let s = h.absorbed@;
            assert(s.take(0) =~= s);
            assert(h.buffer@.subrange(0, 0) =~= s.skip(0));
        }
        h
    }

    /// Absorb `data`: the stream grows by exactly these bytes, and
    /// every complete block they fill is compressed at once.  The
    /// stream's total bit length must stay within the standard's
    /// 64-bit length field.
    pub fn update(&mut self, data: &[u8])
        requires
            old(self).wf(),
            8 * (old(self).stream().len() + data@.len()) <= u64::MAX,
        ensures
            final(self).wf(),
            final(self).stream() == old(self).stream() + data@,
    {
        let ghost base: Seq<u8> = self.absorbed@;
        let dlen: usize = data.len();
        self.total_len = self.total_len + dlen as u64;
        let mut pos: usize = 0;

        if self.buffer_len > 0 {
            let ghost bl0: int = self.buffer_len as int;
            let space: usize = 64 - self.buffer_len;
            let to_copy: usize = if space < dlen {
                space
            } else {
                dlen
            };
            let mut k: usize = 0;
            while k < to_copy
                invariant
                    k <= to_copy,
                    to_copy <= dlen,
                    dlen == data@.len(),
                    bl0 == self.buffer_len as int,
                    to_copy + bl0 <= 64,
                    self.buffer_len == old(self).buffer_len,
                    self.state == old(self).state,
                    self.total_len == old(self).total_len + dlen,
                    self.absorbed == old(self).absorbed,
                    self.buffer@.subrange(0, bl0) == old(self).buffer@.subrange(0, bl0),
                    self.buffer@.subrange(bl0, bl0 + k as int) == data@.take(k as int),
                decreases to_copy - k,
            {
                self.buffer[self.buffer_len + k] = data[k];
                k = k + 1;
                proof {
                    assert(self.buffer@.subrange(0, bl0) =~= old(self).buffer@.subrange(0, bl0));
                    assert(self.buffer@.subrange(bl0, bl0 + k as int) =~= data@.take(k as int));
                }
            }
            self.buffer_len = self.buffer_len + to_copy;
            pos = to_copy;

            if self.buffer_len == 64 {
                proof {
                    crate::arith::lemma_strip_rem(base.len() as int, 64);
                    assert(self.buffer@ =~= base.skip(base.len() - bl0) + data@.take(pos as int));
                }
                let ghost pre = self.buffer@;
                sha256_transform_generic(&mut self.state, &self.buffer);
                self.buffer_len = 0;
                proof {
                    let p = base.take(base.len() - bl0);
                    lemma_chain_snoc(spec_iv(), p, pre);
                    assert(p + pre =~= base + data@.take(pos as int));
                    let s1 = base + data@.take(pos as int);
                    vstd::arithmetic::div_mod::lemma_mod_multiples_vanish(
                        1,
                        base.len() - bl0,
                        64,
                    );
                    assert(s1.len() % 64 == 0);
                    assert(s1.take(s1.len() as int) =~= s1);
                    assert(self.buffer@.subrange(0, 0) =~= s1.skip(s1.len() as int));
                    assert(abs_ok(self.state, self.buffer@, 0, s1));
                }
            } else {
                proof {
                    // the copied bytes were all of `data`, and the buffer
                    // still holds less than one block
                    assert(to_copy == dlen);
                    crate::arith::lemma_strip_rem(base.len() as int, 64);
                    let s1 = base + data@.take(pos as int);
                    crate::arith::lemma_aligned_plus_rem(base.len() - bl0, bl0 + dlen, 64);
                    assert(s1.len() % 64 == bl0 + dlen);
                    assert(s1.take(s1.len() - (bl0 + dlen)) =~= base.take(base.len() - bl0));
                    assert(self.buffer@.subrange(0, bl0 + dlen as int) =~= s1.skip(
                        s1.len() - (bl0 + dlen),
                    ));
                    assert(abs_ok(self.state, self.buffer@, bl0 + dlen as int, s1));
                }
            }
        } else {
            proof {
                assert(base + data@.take(0) =~= base);
            }
        }

        while dlen - pos >= 64
            invariant
                pos <= dlen,
                dlen == data@.len(),
                self.total_len == old(self).total_len + dlen,
                self.absorbed == old(self).absorbed,
                abs_ok(self.state, self.buffer@, self.buffer_len as int, base + data@.take(pos as int)),
                self.buffer_len > 0 ==> pos == dlen,
            decreases dlen - pos,
        {
            assert(self.buffer_len == 0);
            let mut block: [u8; 64] = [0u8; 64];
            let mut k: usize = 0;
            while k < 64
                invariant
                    k <= 64,
                    pos + 64 <= dlen,
                    dlen == data@.len(),
                    forall|j: int| 0 <= j < k ==> block@[j] == data@[pos + j],
                decreases 64 - k,
            {
                block[k] = data[pos + k];
                k = k + 1;
            }
            proof {
                let s1 = base + data@.take(pos as int);
                assert(s1.take(s1.len() as int) =~= s1);
            }
            sha256_transform_generic(&mut self.state, &block);
            proof {
                let s1 = base + data@.take(pos as int);
                lemma_chain_snoc(spec_iv(), s1, block@);
                assert(s1 + block@ =~= base + data@.take(pos + 64));
            }
            pos = pos + 64;
            proof {
                let s2 = base + data@.take(pos as int);
                vstd::arithmetic::div_mod::lemma_mod_multiples_vanish(1, s2.len() - 64, 64);
                assert(s2.len() % 64 == 0);
                assert(s2.take(s2.len() as int) =~= s2);
                assert(self.buffer@.subrange(0, 0) =~= s2.skip(s2.len() as int));
                assert(abs_ok(self.state, self.buffer@, 0, s2));
            }
        }

        if pos < dlen {
            assert(self.buffer_len == 0);
            let remaining: usize = dlen - pos;
            let ghost st_mid = self.state;
            let mut k: usize = 0;
            while k < remaining
                invariant
                    k <= remaining,
                    remaining == dlen - pos,
                    remaining < 64,
                    pos <= dlen,
                    dlen == data@.len(),
                    self.buffer_len == 0,
                    self.state == st_mid,
                    self.total_len == old(self).total_len + dlen,
                    self.absorbed == old(self).absorbed,
                    abs_ok(self.state, self.buffer@, 0, base + data@.take(pos as int)),
                    forall|j: int| 0 <= j < k ==> self.buffer@[j] == data@[pos + j],
                decreases remaining - k,
            {
                self.buffer[k] = data[pos + k];
                k = k + 1;
                proof {
                    let s1 = base + data@.take(pos as int);
                    assert(self.buffer@.subrange(0, 0) =~= s1.skip(s1.len() as int));
                }
            }
            self.buffer_len = remaining;
            proof {
                let s1 = base + data@.take(pos as int);
                let s2 = base + data@;
                assert(s1.take(s1.len() as int) =~= s1);
                crate::arith::lemma_aligned_plus_rem(s1.len() as int, remaining as int, 64);
                assert(s2.len() % 64 == remaining);
                assert(s2.take(s2.len() - remaining) =~= s1);
                assert(self.buffer@.subrange(0, remaining as int) =~= s2.skip(
                    s2.len() - remaining,
                ));
                assert(abs_ok(self.state, self.buffer@, remaining as int, s2));
            }
        } else {
            proof {
                assert(base + data@.take(pos as int) =~= base + data@);
            }
        }

        self.absorbed = Ghost(base + data@);
    }

    /// Pad the stream and produce its 32-byte digest.  Terminal: the
    /// hasher is consumed, so nothing can be absorbed afterwards.
    #[verifier::loop_isolation(false)]
    #[verifier::rlimit(100)]
    pub fn finalize(self) -> (digest: [u8; 32])
        requires
            self.wf(),
        ensures
            digest@ == spec_sha256(self.stream()),
    {
        let mut this = self;
        let ghost s: Seq<u8> = this.absorbed@;
        let ghost n: int = s.len() as int;
        let ghost bl: int = this.buffer_len as int;
        let ghost tail: Seq<u8> = s.skip(n - bl);
        let ghost p: Seq<u8> = s.take(n - bl);
        proof {
            lemma_pad_zeros(n);
            crate::arith::lemma_strip_rem(n, 64);
            assert(s =~= p + tail);
        }
        let bit_len: u64 = this.total_len * 8;

        this.buffer[this.buffer_len] = 0x80;
        this.buffer_len = this.buffer_len + 1;
        proof {
            assert(this.buffer@.subrange(0, bl + 1) =~= tail + seq![0x80u8]);
        }

        let ghost mut head: Seq<u8> = tail + seq![0x80u8];
        let ghost mut pblocks: Seq<u8> = p;

        if this.buffer_len > 56 {
            let ghost smid0 = this.state;
            while this.buffer_len < 64
                invariant
                    bl + 1 <= this.buffer_len <= 64,
                    this.state == smid0,
                    this.absorbed@ == s,
                    this.buffer@.subrange(0, bl + 1) == tail + seq![0x80u8],
                    forall|j: int| bl + 1 <= j < this.buffer_len ==> this.buffer@[j] == 0u8,
                decreases 64 - this.buffer_len,
            {
                this.buffer[this.buffer_len] = 0;
                this.buffer_len = this.buffer_len + 1;
                proof {
                    assert(this.buffer@.subrange(0, bl + 1) =~= tail + seq![0x80u8]);
                }
            }
            proof {
                assert(this.buffer@ =~= tail + seq![0x80u8] + Seq::new((63 - bl) as nat, |i: int| 0u8));
            }
            let ghost b1 = this.buffer@;
            sha256_transform_generic(&mut this.state, &this.buffer);
            this.buffer_len = 0;
            proof {
                lemma_chain_snoc(spec_iv(), p, b1);
                head = Seq::<u8>::empty();
                pblocks = p + b1;
                vstd::arithmetic::div_mod::lemma_mod_multiples_vanish(1, n - bl, 64);
                assert(pblocks.len() % 64 == 0);
                assert(this.state.h@ == spec_chain(spec_iv(), pblocks));
            }
        }

        proof {
            assert(this.buffer@.subrange(0, head.len() as int) =~= head);
        }
        let ghost smid = this.state;
        while this.buffer_len < 56
            invariant
                head.len() <= this.buffer_len <= 56,
                this.state == smid,
                this.absorbed@ == s,
                this.buffer@.subrange(0, head.len() as int) == head,
                forall|j: int| head.len() <= j < this.buffer_len ==> this.buffer@[j] == 0u8,
            decreases 56 - this.buffer_len,
        {
            this.buffer[this.buffer_len] = 0;
            this.buffer_len = this.buffer_len + 1;
            proof {
                assert(this.buffer@.subrange(0, head.len() as int) =~= head);
            }
        }

        this.buffer[56] = (bit_len >> 56) as u8;
        this.buffer[57] = (bit_len >> 48) as u8;
        this.buffer[58] = (bit_len >> 40) as u8;
        this.buffer[59] = (bit_len >> 32) as u8;
        this.buffer[60] = (bit_len >> 24) as u8;
        this.buffer[61] = (bit_len >> 16) as u8;
        this.buffer[62] = (bit_len >> 8) as u8;
        this.buffer[63] = bit_len as u8;
        proof {
            assert(this.buffer@ =~= head + Seq::new((56 - head.len()) as nat, |i: int| 0u8)
                + spec_len_bytes(bit_len));
        }

        let ghost b_last = this.buffer@;
        sha256_transform_generic(&mut this.state, &this.buffer);
        proof {
            lemma_chain_snoc(spec_iv(), pblocks, b_last);
            if bl <= 55 {
                assert(spec_pad(s) =~= pblocks + b_last);
            } else {
                assert(Seq::new(spec_pad_zeros(n) as nat, |i: int| 0u8) =~= Seq::new(
                    (63 - bl) as nat,
                    |i: int| 0u8,
                ) + Seq::new((56 - head.len()) as nat, |i: int| 0u8));
                assert(spec_pad(s) =~= pblocks + b_last);
            }
            assert(this.state.h@ == spec_chain(spec_iv(), spec_pad(s)));
        }

        let mut out: [u8; 32] = [0u8; 32];
        let ghost sfin = this.state;
        proof {
            let hs = sfin.h@;
            assert(hs.skip(0) =~= hs);
            assert(spec_state_bytes(hs) =~= out@.take(0) + spec_state_bytes(hs.skip(0)));
        }
        let mut i: usize = 0;
        while i < 8
            invariant
                i <= 8,
                this.state == sfin,
                out@.len() == 32,
                spec_state_bytes(sfin.h@) == out@.take(4 * i as int) + spec_state_bytes(
                    sfin.h@.skip(i as int),
                ),
            decreases 8 - i,
        {
            let x = this.state.h[i];
            out[4 * i] = (x >> 24) as u8;
            out[4 * i + 1] = (x >> 16) as u8;
            out[4 * i + 2] = (x >> 8) as u8;
            out[4 * i + 3] = x as u8;
            i = i + 1;
            proof {
                let hs = sfin.h@;
                assert(hs.skip(i - 1).drop_first() =~= hs.skip(i as int));
                assert(hs.skip(i - 1)[0] == hs[i - 1]);
                assert(out@.take(4 * i as int) =~= out@.take(4 * (i - 1)) + spec_word_bytes(
                    hs[i - 1],
                ));
                assert(spec_state_bytes(hs) =~= out@.take(4 * i as int) + spec_state_bytes(
                    hs.skip(i as int),
                ));
            }
        }
        proof {
            let hs = sfin.h@;
            assert(hs.skip(8).len() == 0);
            assert(out@.take(32) =~= out@);
            assert(out@ =~= spec_state_bytes(hs));
        }
        out
    }
}

/// The transform under the name its accelerated counterpart exports.
/// This build carries no CPU cryptographic instructions, so the name
/// is served by the verified scalar transform; its contract is the
/// same state transition word for word.
pub fn sha256_transform_arm(state: &mut Sha256State, data: &[u8; 64])
    ensures
        final(state).h@ == spec_compress(old(state).h@, data@),
{
    sha256_transform_generic(state, data);
}

/// The chaining state after compressing a sequence of whole blocks in
/// order, starting from `hs`.
pub open spec fn spec_chain_blocks(hs: Seq<u32>, bs: Seq<Seq<u8>>) -> Seq<u32>
    recommends
        hs.len() == 8,
    decreases bs.len(),
{
    if bs.len() == 0 {
        hs
    } else {
        spec_chain_blocks(spec_compress(hs, bs[0]), bs.skip(1))
    }
}

/// One block compression through the selected backend.  The
/// accelerated backend runs only where feature detection reported the
/// extension present (`accel_available`); on absent hardware it
/// refuses with `UnsupportedHardware` rather than executing.
/// Whichever backend runs, the value computed is the same pure
/// transform.
pub fn compress256_block(
    state: &Sha256State,
    block: &[u8; 64],
    backend: Backend,
    accel_available: bool,
) -> (r: Result<Sha256State, HashError>)
    ensures
        r is Ok <==> (backend == Backend::Generic || accel_available),
        (match r {
            Ok(next) => next.h@ == spec_compress(state.h@, block@),
            Err(e) => e == HashError::UnsupportedHardware,
        }),
{
    match backend {
        Backend::Generic => {
            let mut s = *state;
            sha256_transform_generic(&mut s, block);
            Ok(s)
        },
        Backend::Hardware => {
            if accel_available {
                let mut s = *state;
                sha256_transform_arm(&mut s, block);
                Ok(s)
            } else {
                Err(HashError::UnsupportedHardware)
            }
        },
    }
}

/// Iterated block compression for callers that already hold whole,
/// pre-padded blocks and the chaining state, under the same backend
/// gating as `compress256_block`.
pub fn compress256_blocks(
    state: &Sha256State,
    blocks: &[[u8; 64]],
    backend: Backend,
    accel_available: bool,
) -> (r: Result<Sha256State, HashError>)
    ensures
        r is Ok <==> (backend == Backend::Generic || accel_available),
        (match r {
            Ok(next) => next.h@ == spec_chain_blocks(state.h@, blocks.deep_view()),
            Err(e) => e == HashError::UnsupportedHardware,
        }),
{
    match backend {
        Backend::Hardware => {
            if !accel_available {
                return Err(HashError::UnsupportedHardware);
            }
        },
        Backend::Generic => {},
    }
    let mut s = *state;
    let n = blocks.len();
    proof {
        assert(blocks.deep_view().skip(0) =~= blocks.deep_view());
    }
    let mut i: usize = 0;
    while i < n
        invariant
            i <= n,
            n == blocks@.len(),
            spec_chain_blocks(state.h@, blocks.deep_view()) == spec_chain_blocks(
                s.h@,
                blocks.deep_view().skip(i as int),
            ),
        decreases n - i,
    {
        let block = blocks[i];
        sha256_transform_generic(&mut s, &block);
        proof {
            let bs = blocks.deep_view();
            assert(bs.len() == n);
            assert(bs.skip(i as int)[0] == bs[i as int]);
            assert(bs[i as int] =~= block@);
            assert(bs.skip(i as int).skip(1) =~= bs.skip(i + 1));
        }
        i = i + 1;
    }
    proof {
        assert(blocks.deep_view().skip(n as int).len() == 0);
    }
    Ok(s)
}

} // verus!
