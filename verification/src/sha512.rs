//! SHA-512: block compression transform and incremental hasher.
//!
//! The chaining state is eight 64-bit words; a message block is 128
//! bytes, read as big-endian words.  `spec_compress` is the
//! mathematical statement of the block transform — message-schedule
//! expansion, 80 rounds, Davies–Meyer feed-forward — and every
//! executable compression path is proved to compute exactly it.

use vstd::prelude::*;
use vstd::wrapping::u64_specs;
use crate::{Backend, HashError};

verus! {

/// Round constants: the fractional parts of the cube roots of the
/// first 80 primes, as published in the standard.
pub const K512: [u64; 80] = [
    0x428a2f98d728ae22, 0x7137449123ef65cd, 0xb5c0fbcfec4d3b2f, 0xe9b5dba58189dbbc,
    0x3956c25bf348b538, 0x59f111f1b605d019, 0x923f82a4af194f9b, 0xab1c5ed5da6d8118,
    0xd807aa98a3030242, 0x12835b0145706fbe, 0x243185be4ee4b28c, 0x550c7dc3d5ffb4e2,
    0x72be5d74f27b896f, 0x80deb1fe3b1696b1, 0x9bdc06a725c71235, 0xc19bf174cf692694,
    0xe49b69c19ef14ad2, 0xefbe4786384f25e3, 0x0fc19dc68b8cd5b5, 0x240ca1cc77ac9c65,
    0x2de92c6f592b0275, 0x4a7484aa6ea6e483, 0x5cb0a9dcbd41fbd4, 0x76f988da831153b5,
    0x983e5152ee66dfab, 0xa831c66d2db43210, 0xb00327c898fb213f, 0xbf597fc7beef0ee4,
    0xc6e00bf33da88fc2, 0xd5a79147930aa725, 0x06ca6351e003826f, 0x142929670a0e6e70,
    0x27b70a8546d22ffc, 0x2e1b21385c26c926, 0x4d2c6dfc5ac42aed, 0x53380d139d95b3df,
    0x650a73548baf63de, 0x766a0abb3c77b2a8, 0x81c2c92e47edaee6, 0x92722c851482353b,
    0xa2bfe8a14cf10364, 0xa81a664bbc423001, 0xc24b8b70d0f89791, 0xc76c51a30654be30,
    0xd192e819d6ef5218, 0xd69906245565a910, 0xf40e35855771202a, 0x106aa07032bbd1b8,
    0x19a4c116b8d2d0c8, 0x1e376c085141ab53, 0x2748774cdf8eeb99, 0x34b0bcb5e19b48a8,
    0x391c0cb3c5c95a63, 0x4ed8aa4ae3418acb, 0x5b9cca4f7763e373, 0x682e6ff3d6b2b8a3,
    0x748f82ee5defb2fc, 0x78a5636f43172f60, 0x84c87814a1f0ab72, 0x8cc702081a6439ec,
    0x90befffa23631e28, 0xa4506cebde82bde9, 0xbef9a3f7b2c67915, 0xc67178f2e372532b,
    0xca273eceea26619c, 0xd186b8c721c0c207, 0xeada7dd6cde0eb1e, 0xf57d4f7fee6ed178,
    0x06f067aa72176fba, 0x0a637dc5a2c898a6, 0x113f9804bef90dae, 0x1b710b35131c471b,
    0x28db77f523047d84, 0x32caab7b40c72493, 0x3c9ebe0a15c9bebc, 0x431d67c49c100d4c,
    0x4cc5d4becb3e42b6, 0x597f299cfc657e2a, 0x5fcb6fab3ad6faec, 0x6c44198c4a475817,
];

/// Initial chaining state: the fractional parts of the square roots of
/// the first eight primes.
pub const H512: [u64; 8] = [
    0x6a09e667f3bcc908, 0xbb67ae8584caa73b, 0x3c6ef372fe94f82b, 0xa54ff53a5f1d36f1,
    0x510e527fade682d1, 0x9b05688c2b3e6c1f, 0x1f83d9abfb41bd6b, 0x5be0cd19137e2179,
];

/// Addition modulo 2^64, the only addition the algorithm uses.
pub open spec fn wadd(x: u64, y: u64) -> u64 {
    u64_specs::wrapping_add(x, y)
}

/// Right rotation of a 64-bit word by `n` positions, `0 < n < 64`.
pub open spec fn spec_rotr(x: u64, n: u64) -> u64
    recommends
        0 < n < 64,
{
    let m = (64 - n) as u64;
    (x >> n) | (x << m)
}

/// Ch(e, f, g): for each bit, `e` chooses between `f` and `g`.
pub open spec fn spec_ch(e: u64, f: u64, g: u64) -> u64 {
    (e & f) ^ (!e & g)
}

/// Maj(a, b, c): the majority vote of the three words, bit by bit.
pub open spec fn spec_maj(a: u64, b: u64, c: u64) -> u64 {
    (a & b) ^ (a & c) ^ (b & c)
}

/// Σ0, mixed into each round from the working variable `a`.
pub open spec fn spec_bsig0(x: u64) -> u64 {
    spec_rotr(x, 28) ^ spec_rotr(x, 34) ^ spec_rotr(x, 39)
}

/// Σ1, mixed into each round from the working variable `e`.
pub open spec fn spec_bsig1(x: u64) -> u64 {
    spec_rotr(x, 14) ^ spec_rotr(x, 18) ^ spec_rotr(x, 41)
}

/// σ0, used by the message-schedule recurrence.
pub open spec fn spec_ssig0(x: u64) -> u64 {
    spec_rotr(x, 1) ^ spec_rotr(x, 8) ^ (x >> 7)
}

/// σ1, used by the message-schedule recurrence.
pub open spec fn spec_ssig1(x: u64) -> u64 {
    spec_rotr(x, 19) ^ spec_rotr(x, 61) ^ (x >> 6)
}

/// Word `i` of a block: eight bytes read big-endian.
pub open spec fn spec_word(b: Seq<u8>, i: int) -> u64
    recommends
        0 <= i,
        8 * i + 7 < b.len(),
{
    ((b[8 * i] as u64) << 56) | ((b[8 * i + 1] as u64) << 48) | ((b[8 * i + 2] as u64) << 40) | ((
    b[8 * i + 3] as u64) << 32) | ((b[8 * i + 4] as u64) << 24) | ((b[8 * i + 5] as u64) << 16) | ((
    b[8 * i + 6] as u64) << 8) | (b[8 * i + 7] as u64)
}

/// Entry `i` of the message schedule: the block's own words for
/// `i < 16`, then the σ0/σ1 expansion recurrence.
pub open spec fn spec_sched(b: Seq<u8>, i: int) -> u64
    recommends
        b.len() == 128,
        0 <= i < 80,
    decreases i,
{
    if i < 16 {
        spec_word(b, i)
    } else {
        wadd(
            wadd(wadd(spec_sched(b, i - 16), spec_ssig0(spec_sched(b, i - 15))), spec_sched(b, i - 7)),
            spec_ssig1(spec_sched(b, i - 2)),
        )
    }
}

/// One round applied to the eight working variables `v = [a..h]`,
/// with round constant `k` and schedule word `w`.
pub open spec fn spec_round(v: Seq<u64>, k: u64, w: u64) -> Seq<u64>
    recommends
        v.len() == 8,
{
    let t1 = wadd(wadd(wadd(wadd(v[7], spec_bsig1(v[4])), spec_ch(v[4], v[5], v[6])), k), w);
    let t2 = wadd(spec_bsig0(v[0]), spec_maj(v[0], v[1], v[2]));
    seq![wadd(t1, t2), v[0], v[1], v[2], wadd(v[3], t1), v[4], v[5], v[6]]
}

/// The working variables after the first `n` of the 80 rounds.
pub open spec fn spec_rounds(hs: Seq<u64>, b: Seq<u8>, n: int) -> Seq<u64>
    recommends
        hs.len() == 8,
        b.len() == 128,
        0 <= n <= 80,
    decreases n,
{
    if n <= 0 {
        hs
    } else {
        spec_round(spec_rounds(hs, b, n - 1), K512@[n - 1], spec_sched(b, n - 1))
    }
}

/// The block compression transform: 80 rounds on the working
/// variables, then the Davies–Meyer feed-forward onto the old state.
pub open spec fn spec_compress(hs: Seq<u64>, b: Seq<u8>) -> Seq<u64>
    recommends
        hs.len() == 8,
        b.len() == 128,
{
    let v = spec_rounds(hs, b, 80);
    Seq::new(8, |i: int| wadd(hs[i], v[i]))
}

/// The standard initial chaining state, as a sequence.
pub open spec fn spec_iv() -> Seq<u64> {
    H512@
}

/// The running digest value H0..H7 (64-bit words for SHA-512).
#[derive(Clone, Copy, Debug)]
pub struct Sha512State {
    pub h: [u64; 8],
}

impl Sha512State {
    /// A state holding the standard initialization vector.
    pub fn new() -> (s: Self)
        ensures
            s.h@ == spec_iv(),
    {
        Sha512State { h: H512 }
    }
}

fn ch(e: u64, f: u64, g: u64) -> (r: u64)
    ensures
        r == spec_ch(e, f, g),
{
    (e & f) ^ (!e & g)
}

fn maj(a: u64, b: u64, c: u64) -> (r: u64)
    ensures
        r == spec_maj(a, b, c),
{
    (a & b) ^ (a & c) ^ (b & c)
}

fn bsig0(x: u64) -> (r: u64)
    ensures
        r == spec_bsig0(x),
{
    ((x >> 28) | (x << 36)) ^ ((x >> 34) | (x << 30)) ^ ((x >> 39) | (x << 25))
}

fn bsig1(x: u64) -> (r: u64)
    ensures
        r == spec_bsig1(x),
{
    ((x >> 14) | (x << 50)) ^ ((x >> 18) | (x << 46)) ^ ((x >> 41) | (x << 23))
}

fn ssig0(x: u64) -> (r: u64)
    ensures
        r == spec_ssig0(x),
{
    ((x >> 1) | (x << 63)) ^ ((x >> 8) | (x << 56)) ^ (x >> 7)
}

fn ssig1(x: u64) -> (r: u64)
    ensures
        r == spec_ssig1(x),
{
    ((x >> 19) | (x << 45)) ^ ((x >> 61) | (x << 3)) ^ (x >> 6)
}

/// Portable scalar SHA-256 block transform: the algorithm of record.
pub fn sha512_transform_generic(state: &mut Sha512State, data: &[u8; 128])
    ensures
        final(state).h@ == spec_compress(old(state).h@, data@),
{
    let ghost orig: Seq<u64> = state.h@;
    let mut w: [u64; 80] = [0u64; 80];

    for i in 0..16
        invariant
            forall|j: int| 0 <= j < i ==> w@[j] == spec_sched(data@, j),
    {
        let x: u64 = ((data[i * 8] as u64) << 56) | ((data[i * 8 + 1] as u64) << 48) | ((data[i * 8
            + 2] as u64) << 40) | ((data[i * 8 + 3] as u64) << 32) | ((data[i * 8 + 4] as u64)
            << 24) | ((data[i * 8 + 5] as u64) << 16) | ((data[i * 8 + 6] as u64) << 8) | (data[i
            * 8 + 7] as u64);
        w[i] = x;
    }

    for i in 16..80
        invariant
            forall|j: int| 0 <= j < i ==> w@[j] == spec_sched(data@, j),
    {
        let s0 = ssig0(w[i - 15]);
        let s1 = ssig1(w[i - 2]);
        let x = w[i - 16].wrapping_add(s0).wrapping_add(w[i - 7]).wrapping_add(s1);
        w[i] = x;
    }

    let mut a = state.h[0];
    let mut b = state.h[1];
    let mut c = state.h[2];
    let mut d = state.h[3];
    let mut e = state.h[4];
    let mut f = state.h[5];
    let mut g = state.h[6];
    let mut h = state.h[7];

    for i in 0..80
        invariant
            state.h@ == orig,
            forall|j: int| 0 <= j < 80 ==> w@[j] == spec_sched(data@, j),
            seq![a, b, c, d, e, f, g, h] =~= spec_rounds(orig, data@, i as int),
    {
        let s1 = bsig1(e);
        let chv = ch(e, f, g);
        let temp1 = h.wrapping_add(s1).wrapping_add(chv).wrapping_add(K512[i]).wrapping_add(w[i]);
        let s0 = bsig0(a);
        let majv = maj(a, b, c);
        let temp2 = s0.wrapping_add(majv);

        h = g;
        g = f;
        f = e;
        e = d.wrapping_add(temp1);
        d = c;
        c = b;
        b = a;
        a = temp1.wrapping_add(temp2);
    }

    let r0 = state.h[0].wrapping_add(a);
    let r1 = state.h[1].wrapping_add(b);
    let r2 = state.h[2].wrapping_add(c);
    let r3 = state.h[3].wrapping_add(d);
    let r4 = state.h[4].wrapping_add(e);
    let r5 = state.h[5].wrapping_add(f);
    let r6 = state.h[6].wrapping_add(g);
    let r7 = state.h[7].wrapping_add(h);
    state.h[0] = r0;
    state.h[1] = r1;
    state.h[2] = r2;
    state.h[3] = r3;
    state.h[4] = r4;
    state.h[5] = r5;
    state.h[6] = r6;
    state.h[7] = r7;
    assert(state.h@ =~= spec_compress(orig, data@));
}

/// The chaining state after compressing every whole 128-byte block of
/// `s` in order, starting from `hs`; a trailing fragment shorter than
/// one block is ignored.
pub open spec fn spec_chain(hs: Seq<u64>, s: Seq<u8>) -> Seq<u64>
    recommends
        hs.len() == 8,
    decreases s.len(),
{
    if s.len() < 128 {
        hs
    } else {
        spec_chain(spec_compress(hs, s.take(128)), s.skip(128))
    }
}

/// Appending one whole block to a block-aligned stream chains one more
/// compression onto the state the stream already reaches.
pub proof fn lemma_chain_snoc(hs: Seq<u64>, s: Seq<u8>, b: Seq<u8>)
    requires
        hs.len() == 8,
        s.len() % 128 == 0,
        b.len() == 128,
    ensures
        spec_chain(hs, s + b) == spec_compress(spec_chain(hs, s), b),
    decreases s.len(),
{
    if s.len() == 0 {
        assert(s + b =~= b);
        assert(b.take(128) =~= b);
        assert(spec_chain(hs, b) == spec_chain(spec_compress(hs, b.take(128)), b.skip(128)));
        assert(spec_chain(spec_compress(hs, b), b.skip(128)) == spec_compress(hs, b));
    } else {
        crate::arith::lemma_multiple_ge(s.len() as int, 128);
        assert((s + b).take(128) =~= s.take(128));
        assert((s + b).skip(128) =~= s.skip(128) + b);
        crate::arith::lemma_multiple_minus_block(s.len() as int, 128);
        lemma_chain_snoc(spec_compress(hs, s.take(128)), s.skip(128), b);
    }
}

/// How many zero bytes stand between the 0x80 terminator and the
/// 16-byte length field: just enough that the padded stream ends on a
/// block boundary.
pub open spec fn spec_pad_zeros(n: int) -> int {
    ((111 - n) % 128 + 128) % 128
}

/// The zero fill is 111 - (n % 128) bytes when the length field still
/// fits the current block, and 128 more when the terminator pushes it
/// into a second block.
pub proof fn lemma_pad_zeros(n: int)
    requires
        n >= 0,
    ensures
        n % 128 <= 111 ==> spec_pad_zeros(n) == 111 - n % 128,
        n % 128 > 111 ==> spec_pad_zeros(n) == 239 - n % 128,
        0 <= spec_pad_zeros(n) <= 127,
{
    let bl = n % 128;
    vstd::arithmetic::div_mod::lemma_mod_pos_bound(n, 128);
    vstd::arithmetic::div_mod::lemma_fundamental_div_mod(n, 128);
    // 111 - n differs from 111 - bl by the multiple 128 * (n / 128)
    vstd::arithmetic::div_mod::lemma_mod_multiples_vanish(-(n / 128), 111 - bl, 128);
    assert((111 - n) % 128 == (111 - bl) % 128);
    if bl <= 111 {
        vstd::arithmetic::div_mod::lemma_small_mod((111 - bl) as nat, 128);
        vstd::arithmetic::div_mod::lemma_mod_multiples_vanish(1, 111 - bl, 128);
        vstd::arithmetic::div_mod::lemma_small_mod((111 - bl) as nat, 128);
    } else {
        vstd::arithmetic::div_mod::lemma_fundamental_div_mod_converse_mod(
            111 - bl,
            128,
            -1,
            239 - bl,
        );
        vstd::arithmetic::div_mod::lemma_mod_multiples_vanish(1, 239 - bl, 128);
        vstd::arithmetic::div_mod::lemma_small_mod((239 - bl) as nat, 128);
    }
}

/// The 128-bit message bit length as sixteen big-endian bytes.
pub open spec fn spec_len_bytes(x: u128) -> Seq<u8> {
    seq![
        (x >> 120) as u8,
        (x >> 112) as u8,
        (x >> 104) as u8,
        (x >> 96) as u8,
        (x >> 88) as u8,
        (x >> 80) as u8,
        (x >> 72) as u8,
        (x >> 64) as u8,
        (x >> 56) as u8,
        (x >> 48) as u8,
        (x >> 40) as u8,
        (x >> 32) as u8,
        (x >> 24) as u8,
        (x >> 16) as u8,
        (x >> 8) as u8,
        x as u8,
    ]
}

/// The standard padding: the stream, one 0x80 byte, zeros up to
/// sixteen bytes short of a block boundary, then the bit length,
/// big-endian.
pub open spec fn spec_pad(s: Seq<u8>) -> Seq<u8>
    recommends
        8 * s.len() <= u128::MAX,
{
    s + seq![0x80u8] + Seq::new(spec_pad_zeros(s.len() as int) as nat, |i: int| 0u8)
        + spec_len_bytes((8 * s.len()) as u128)
}

/// Length-boundary behavior of the padding: the padded stream always
/// ends on a block boundary, one block past the aligned prefix when
/// the residue leaves room for the terminator and the length field
/// (residue at most 111 bytes), two blocks past it otherwise.
pub proof fn lemma_pad_boundary(s: Seq<u8>)
    requires
        8 * s.len() <= u128::MAX,
    ensures
        spec_pad(s).len() % 128 == 0,
        s.len() % 128 <= 111 ==> spec_pad(s).len() == s.len() - s.len() % 128 + 128,
        s.len() % 128 > 111 ==> spec_pad(s).len() == s.len() - s.len() % 128 + 256,
{
    let n = s.len() as int;
    let bl = n % 128;
    lemma_pad_zeros(n);
    crate::arith::lemma_strip_rem(n, 128);
    if bl <= 111 {
        vstd::arithmetic::div_mod::lemma_mod_multiples_vanish(1, n - bl, 128);
    } else {
        vstd::arithmetic::div_mod::lemma_mod_multiples_vanish(2, n - bl, 128);
    }
}

/// The big-endian bytes of one chaining word.
pub open spec fn spec_word_bytes(x: u64) -> Seq<u8> {
    seq![
        (x >> 56) as u8,
        (x >> 48) as u8,
        (x >> 40) as u8,
        (x >> 32) as u8,
        (x >> 24) as u8,
        (x >> 16) as u8,
        (x >> 8) as u8,
        x as u8,
    ]
}

/// The big-endian serialization of a whole chaining state.
pub open spec fn spec_state_bytes(hs: Seq<u64>) -> Seq<u8>
    decreases hs.len(),
{
    if hs.len() == 0 {
        Seq::<u8>::empty()
    } else {
        spec_word_bytes(hs[0]) + spec_state_bytes(hs.skip(1))
    }
}

/// The SHA-512 digest of a byte stream: pad, compress every block
/// starting from the standard initial state, serialize big-endian.
pub open spec fn spec_sha512(s: Seq<u8>) -> Seq<u8>
    recommends
        8 * s.len() <= u128::MAX,
{
    spec_state_bytes(spec_chain(spec_iv(), spec_pad(s)))
}

/// Block-aligned absorption: `st` is the chaining state reached by
/// compressing the aligned prefix of the stream `s`, and the first
/// `bl` bytes of `buf` hold the stream's unprocessed tail.
pub(crate) open spec fn abs_ok(st: Sha512State, buf: Seq<u8>, bl: int, s: Seq<u8>) -> bool {
    &&& 0 <= bl < 128
    &&& bl == s.len() % 128
    &&& st.h@ == spec_chain(spec_iv(), s.take(s.len() - bl))
    &&& buf.subrange(0, bl) == s.skip(s.len() - bl)
}

/// Incremental SHA-256 hasher: a running chaining state, a one-block
/// residual buffer, and the count of bytes absorbed so far.  Feed it
/// arbitrary chunks with `update`; `finalize` consumes it and returns
/// the digest of the whole absorbed stream.
pub struct Sha512 {
    state: Sha512State,
    buffer: [u8; 128],
    buffer_len: usize,
    total_len: u128,
    absorbed: Ghost<Seq<u8>>,
}

impl Sha512 {
    /// The byte stream absorbed so far.
    pub closed spec fn stream(self) -> Seq<u8> {
        self.absorbed@
    }

    /// The hasher's invariant: the residual buffer holds exactly the
    /// stream's tail past the last block boundary, the chaining state
    /// is the compression of the aligned prefix, the length counter
    /// matches the stream, and the stream's bit length fits the
    /// standard's 128-bit length field.
    pub closed spec fn wf(self) -> bool {
        &&& abs_ok(self.state, self.buffer@, self.buffer_len as int, self.absorbed@)
        &&& self.total_len == self.absorbed@.len()
        &&& 8 * self.absorbed@.len() <= u128::MAX
    }

    /// A fresh hasher: standard initial state, nothing absorbed.
    pub fn new() -> (h: Self)
        ensures
            h.wf(),
            h.stream() == Seq::<u8>::empty(),
    {
        let h = Sha512 {
            state: Sha512State::new(),
            buffer: [0u8; 128],
            buffer_len: 0,
            total_len: 0,
            absorbed: Ghost(Seq::empty()),
        };
        proof {
            let s = h.absorbed@;
            assert(s.take(0) =~= s);
            assert(h.buffer@.subrange(0, 0) =~= s.skip(0));
        }
        h
    }

    /// Absorb `data`: the stream grows by exactly these bytes, and
    /// every complete block they fill is compressed at once.  The
    /// stream's total bit length must stay within the standard's
    /// 128-bit length field.
    pub fn update(&mut self, data: &[u8])
        requires
            old(self).wf(),
            8 * (old(self).stream().len() + data@.len()) <= u128::MAX,
        ensures
            final(self).wf(),
            final(self).stream() == old(self).stream() + data@,
    {
        let ghost base: Seq<u8> = self.absorbed@;
        let dlen: usize = data.len();
        self.total_len = self.total_len + dlen as u128;
        let mut pos: usize = 0;

        if self.buffer_len > 0 {
            let ghost bl0: int = self.buffer_len as int;
            let space: usize = 128 - self.buffer_len;
            let to_copy: usize = if space < dlen {
                space
            } else {
                dlen
            };
            let mut k: usize = 0;
            while k < to_copy
                invariant
                    k <= to_copy,
                    to_copy <= dlen,
                    dlen == data@.len(),
                    bl0 == self.buffer_len as int,
                    to_copy + bl0 <= 128,
                    self.buffer_len == old(self).buffer_len,
                    self.state == old(self).state,
                    self.total_len == old(self).total_len + dlen,
                    self.absorbed == old(self).absorbed,
                    self.buffer@.subrange(0, bl0) == old(self).buffer@.subrange(0, bl0),
                    self.buffer@.subrange(bl0, bl0 + k as int) == data@.take(k as int),
                decreases to_copy - k,
            {
                self.buffer[self.buffer_len + k] = data[k];
                k = k + 1;
                proof {
                    assert(self.buffer@.subrange(0, bl0) =~= old(self).buffer@.subrange(0, bl0));
                    assert(self.buffer@.subrange(bl0, bl0 + k as int) =~= data@.take(k as int));
                }
            }
            self.buffer_len = self.buffer_len + to_copy;
            pos = to_copy;

            if self.buffer_len == 128 {
                proof {
                    crate::arith::lemma_strip_rem(base.len() as int, 128);
                    assert(self.buffer@ =~= base.skip(base.len() - bl0) + data@.take(pos as int));
                }
                let ghost pre = self.buffer@;
                sha512_transform_generic(&mut self.state, &self.buffer);
                self.buffer_len = 0;
                proof {
                    let p = base.take(base.len() - bl0);
                    lemma_chain_snoc(spec_iv(), p, pre);
                    assert(p + pre =~= base + data@.take(pos as int));
                    let s1 = base + data@.take(pos as int);
                    vstd::arithmetic::div_mod::lemma_mod_multiples_vanish(
                        1,
                        base.len() - bl0,
                        128,
                    );
                    assert(s1.len() % 128 == 0);
                    assert(s1.take(s1.len() as int) =~= s1);
                    assert(self.buffer@.subrange(0, 0) =~= s1.skip(s1.len() as int));
                    assert(abs_ok(self.state, self.buffer@, 0, s1));
                }
            } else {
                proof {
                    // the copied bytes were all of `data`, and the buffer
                    // still holds less than one block
                    assert(to_copy == dlen);
                    crate::arith::lemma_strip_rem(base.len() as int, 128);
                    let s1 = base + data@.take(pos as int);
                    crate::arith::lemma_aligned_plus_rem(base.len() - bl0, bl0 + dlen, 128);
                    assert(s1.len() % 128 == bl0 + dlen);
                    assert(s1.take(s1.len() - (bl0 + dlen)) =~= base.take(base.len() - bl0));
                    assert(self.buffer@.subrange(0, bl0 + dlen as int) =~= s1.skip(
                        s1.len() - (bl0 + dlen),
                    ));
                    assert(abs_ok(self.state, self.buffer@, bl0 + dlen as int, s1));
                }
            }
        } else {
            proof {
                assert(base + data@.take(0) =~= base);
            }
        }

        while dlen - pos >= 128
            invariant
                pos <= dlen,
                dlen == data@.len(),
                self.total_len == old(self).total_len + dlen,
                self.absorbed == old(self).absorbed,
                abs_ok(self.state, self.buffer@, self.buffer_len as int, base + data@.take(pos as int)),
                self.buffer_len > 0 ==> pos == dlen,
            decreases dlen - pos,
        {
            assert(self.buffer_len == 0);
            let mut block: [u8; 128] = [0u8; 128];
            let mut k: usize = 0;
            while k < 128
                invariant
                    k <= 128,
                    pos + 128 <= dlen,
                    dlen == data@.len(),
                    forall|j: int| 0 <= j < k ==> block@[j] == data@[pos + j],
                decreases 128 - k,
            {
                block[k] = data[pos + k];
                k = k + 1;
            }
            proof {
                let s1 = base + data@.take(pos as int);
                assert(s1.take(s1.len() as int) =~= s1);
            }
            sha512_transform_generic(&mut self.state, &block);
            proof {
                let s1 = base + data@.take(pos as int);
                lemma_chain_snoc(spec_iv(), s1, block@);
                assert(s1 + block@ =~= base + data@.take(pos + 128));
            }
            pos = pos + 128;
            proof {
                let s2 = base + data@.take(pos as int);
                vstd::arithmetic::div_mod::lemma_mod_multiples_vanish(1, s2.len() - 128, 128);
                assert(s2.len() % 128 == 0);
                assert(s2.take(s2.len() as int) =~= s2);
                assert(self.buffer@.subrange(0, 0) =~= s2.skip(s2.len() as int));
                assert(abs_ok(self.state, self.buffer@, 0, s2));
            }
        }

        if pos < dlen {
            assert(self.buffer_len == 0);
            let remaining: usize = dlen - pos;
            let ghost st_mid = self.state;
            let mut k: usize = 0;
            while k < remaining
                invariant
                    k <= remaining,
                    remaining == dlen - pos,
                    remaining < 128,
                    pos <= dlen,
                    dlen == data@.len(),
                    self.buffer_len == 0,
                    self.state == st_mid,
                    self.total_len == old(self).total_len + dlen,
                    self.absorbed == old(self).absorbed,
                    abs_ok(self.state, self.buffer@, 0, base + data@.take(pos as int)),
                    forall|j: int| 0 <= j < k ==> self.buffer@[j] == data@[pos + j],
                decreases remaining - k,
            {
                self.buffer[k] = data[pos + k];
                k = k + 1;
                proof {
                    let s1 = base + data@.take(pos as int);
                    assert(self.buffer@.subrange(0, 0) =~= s1.skip(s1.len() as int));
                }
            }
            self.buffer_len = remaining;
            proof {
                let s1 = base + data@.take(pos as int);
                let s2 = base + data@;
                assert(s1.take(s1.len() as int) =~= s1);
                crate::arith::lemma_aligned_plus_rem(s1.len() as int, remaining as int, 128);
                assert(s2.len() % 128 == remaining);
                assert(s2.take(s2.len() - remaining) =~= s1);
                assert(self.buffer@.subrange(0, remaining as int) =~= s2.skip(
                    s2.len() - remaining,
                ));
                assert(abs_ok(self.state, self.buffer@, remaining as int, s2));
            }
        } else {
            proof {
                assert(base + data@.take(pos as int) =~= base + data@);
            }
        }

        self.absorbed = Ghost(base + data@);
    }

    /// Pad the stream and produce its 64-byte digest.  Terminal: the
    /// hasher is consumed, so nothing can be absorbed afterwards.
    #[verifier::loop_isolation(false)]
    #[verifier::rlimit(100)]
    pub fn finalize(self) -> (digest: [u8; 64])
        requires
            self.wf(),
        ensures
            digest@ == spec_sha512(self.stream()),
    {
        let mut this = self;
        let ghost s: Seq<u8> = this.absorbed@;
        let ghost n: int = s.len() as int;
        let ghost bl: int = this.buffer_len as int;
        let ghost tail: Seq<u8> = s.skip(n - bl);
        let ghost p: Seq<u8> = s.take(n - bl);
        proof {
            lemma_pad_zeros(n);
            crate::arith::lemma_strip_rem(n, 128);
            assert(s =~= p + tail);
        }
        let bit_len: u128 = this.total_len * 8;

        this.buffer[this.buffer_len] = 0x80;
        this.buffer_len = this.buffer_len + 1;
        proof {
            assert(this.buffer@.subrange(0, bl + 1) =~= tail + seq![0x80u8]);
        }

        let ghost mut head: Seq<u8> = tail + seq![0x80u8];
        let ghost mut pblocks: Seq<u8> = p;

        if this.buffer_len > 112 {
            let ghost smid0 = this.state;
            while this.buffer_len < 128
                invariant
                    bl + 1 <= this.buffer_len <= 128,
                    this.state == smid0,
                    this.absorbed@ == s,
                    this.buffer@.subrange(0, bl + 1) == tail + seq![0x80u8],
                    forall|j: int| bl + 1 <= j < this.buffer_len ==> this.buffer@[j] == 0u8,
                decreases 128 - this.buffer_len,
            {
                this.buffer[this.buffer_len] = 0;
                this.buffer_len = this.buffer_len + 1;
                proof {
                    assert(this.buffer@.subrange(0, bl + 1) =~= tail + seq![0x80u8]);
                }
            }
            proof {
                assert(this.buffer@ =~= tail + seq![0x80u8] + Seq::new((127 - bl) as nat, |i: int| 0u8));
            }
            let ghost b1 = this.buffer@;
            sha512_transform_generic(&mut this.state, &this.buffer);
            this.buffer_len = 0;
            proof {
                lemma_chain_snoc(spec_iv(), p, b1);
                head = Seq::<u8>::empty();
                pblocks = p + b1;
                vstd::arithmetic::div_mod::lemma_mod_multiples_vanish(1, n - bl, 128);
                assert(pblocks.len() % 128 == 0);
                assert(this.state.h@ == spec_chain(spec_iv(), pblocks));
            }
        }

        proof {
            assert(this.buffer@.subrange(0, head.len() as int) =~= head);
        }
        let ghost smid = this.state;
        while this.buffer_len < 112
            invariant
                head.len() <= this.buffer_len <= 112,
                this.state == smid,
                this.absorbed@ == s,
                this.buffer@.subrange(0, head.len() as int) == head,
                forall|j: int| head.len() <= j < this.buffer_len ==> this.buffer@[j] == 0u8,
            decreases 112 - this.buffer_len,
        {
            this.buffer[this.buffer_len] = 0;
            this.buffer_len = this.buffer_len + 1;
            proof {
                assert(this.buffer@.subrange(0, head.len() as int) =~= head);
            }
        }

        this.buffer[112] = (bit_len >> 120) as u8;
        this.buffer[113] = (bit_len >> 112) as u8;
        this.buffer[114] = (bit_len >> 104) as u8;
        this.buffer[115] = (bit_len >> 96) as u8;
        this.buffer[116] = (bit_len >> 88) as u8;
        this.buffer[117] = (bit_len >> 80) as u8;
        this.buffer[118] = (bit_len >> 72) as u8;
        this.buffer[119] = (bit_len >> 64) as u8;
        this.buffer[120] = (bit_len >> 56) as u8;
        this.buffer[121] = (bit_len >> 48) as u8;
        this.buffer[122] = (bit_len >> 40) as u8;
        this.buffer[123] = (bit_len >> 32) as u8;
        this.buffer[124] = (bit_len >> 24) as u8;
        this.buffer[125] = (bit_len >> 16) as u8;
        this.buffer[126] = (bit_len >> 8) as u8;
        this.buffer[127] = bit_len as u8;
        proof {
            assert(this.buffer@ =~= head + Seq::new((112 - head.len()) as nat, |i: int| 0u8)
                + spec_len_bytes(bit_len));
        }

        let ghost b_last = this.buffer@;
        sha512_transform_generic(&mut this.state, &this.buffer);
        proof {
            lemma_chain_snoc(spec_iv(), pblocks, b_last);
            if bl <= 111 {
                assert(spec_pad(s) =~= pblocks + b_last);
            } else {
                assert(Seq::new(spec_pad_zeros(n) as nat, |i: int| 0u8) =~= Seq::new(
                    (127 - bl) as nat,
                    |i: int| 0u8,
                ) + Seq::new((112 - head.len()) as nat, |i: int| 0u8));
                assert(spec_pad(s) =~= pblocks + b_last);
            }
            assert(this.state.h@ == spec_chain(spec_iv(), spec_pad(s)));
        }

        let mut out: [u8; 64] = [0u8; 64];
        let ghost sfin = this.state;
        proof {
            let hs = sfin.h@;
            assert(hs.skip(0) =~= hs);
            assert(spec_state_bytes(hs) =~= out@.take(0) + spec_state_bytes(hs.skip(0)));
        }
        let mut i: usize = 0;
        while i < 8
            invariant
                i <= 8,
                this.state == sfin,
                out@.len() == 64,
                spec_state_bytes(sfin.h@) == out@.take(8 * i as int) + spec_state_bytes(
                    sfin.h@.skip(i as int),
                ),
            decreases 8 - i,
        {
            let x = this.state.h[i];
            out[8 * i] = (x >> 56) as u8;
            out[8 * i + 1] = (x >> 48) as u8;
            out[8 * i + 2] = (x >> 40) as u8;
            out[8 * i + 3] = (x >> 32) as u8;
            out[8 * i + 4] = (x >> 24) as u8;
            out[8 * i + 5] = (x >> 16) as u8;
            out[8 * i + 6] = (x >> 8) as u8;
            out[8 * i + 7] = x as u8;
            i = i + 1;
            proof {
                let hs = sfin.h@;
                assert(hs.skip(i - 1).drop_first() =~= hs.skip(i as int));
                assert(hs.skip(i - 1)[0] == hs[i - 1]);
                assert(out@.take(8 * i as int) =~= out@.take(8 * (i - 1)) + spec_word_bytes(
                    hs[i - 1],
                ));
                assert(spec_state_bytes(hs) =~= out@.take(8 * i as int) + spec_state_bytes(
                    hs.skip(i as int),
                ));
            }
        }
        proof {
            let hs = sfin.h@;
            assert(hs.skip(8).len() == 0);
            assert(out@.take(64) =~= out@);
            assert(out@ =~= spec_state_bytes(hs));
        }
        out
    }
}

/// The transform under the name its accelerated counterpart exports.
/// This build carries no CPU cryptographic instructions, so the name
/// is served by the verified scalar transform; its contract is the
/// same state transition word for word.
pub fn sha512_transform_arm(state: &mut Sha512State, data: &[u8; 128])
    ensures
        final(state).h@ == spec_compress(old(state).h@, data@),
{
    sha512_transform_generic(state, data);
}

/// The chaining state after compressing a sequence of whole blocks in
/// order, starting from `hs`.
pub open spec fn spec_chain_blocks(hs: Seq<u64>, bs: Seq<Seq<u8>>) -> Seq<u64>
    recommends
        hs.len() == 8,
    decreases bs.len(),
{
    if bs.len() == 0 {
        hs
    } else {
        spec_chain_blocks(spec_compress(hs, bs[0]), bs.skip(1))
    }
}

/// One block compression through the selected backend.  The
/// accelerated backend runs only where feature detection reported the
/// extension present (`accel_available`); on absent hardware it
/// refuses with `UnsupportedHardware` rather than executing.
/// Whichever backend runs, the value computed is the same pure
/// transform.
pub fn compress512_block(
    state: &Sha512State,
    block: &[u8; 128],
    backend: Backend,
    accel_available: bool,
) -> (r: Result<Sha512State, HashError>)
    ensures
        r is Ok <==> (backend == Backend::Generic || accel_available),
        (match r {
            Ok(next) => next.h@ == spec_compress(state.h@, block@),
            Err(e) => e == HashError::UnsupportedHardware,
        }),
{
    match backend {
        Backend::Generic => {
            let mut s = *state;
            sha512_transform_generic(&mut s, block);
            Ok(s)
        },
        Backend::Hardware => {
            if accel_available {
                let mut s = *state;
                sha512_transform_arm(&mut s, block);
                Ok(s)
            } else {
                Err(HashError::UnsupportedHardware)
            }
        },
    }
}

/// Iterated block compression for callers that already hold whole,
/// pre-padded blocks and the chaining state, under the same backend
/// gating as `compress512_block`.
pub fn compress512_blocks(
    state: &Sha512State,
    blocks: &[[u8; 128]],
    backend: Backend,
    accel_available: bool,
) -> (r: Result<Sha512State, HashError>)
    ensures
        r is Ok <==> (backend == Backend::Generic || accel_available),
        (match r {
            Ok(next) => next.h@ == spec_chain_blocks(state.h@, blocks.deep_view()),
            Err(e) => e == HashError::UnsupportedHardware,
        }),
{
    match backend {
        Backend::Hardware => {
            if !accel_available {
                return Err(HashError::UnsupportedHardware);
            }
        },
        Backend::Generic => {},
    }
    let mut s = *state;
    let n = blocks.len();
    proof {
        assert(blocks.deep_view().skip(0) =~= blocks.deep_view());
    }
    let mut i: usize = 0;
    while i < n
        invariant
            i <= n,
            n == blocks@.len(),
            spec_chain_blocks(state.h@, blocks.deep_view()) == spec_chain_blocks(
                s.h@,
                blocks.deep_view().skip(i as int),
            ),
        decreases n - i,
    {
        let block = blocks[i];
        sha512_transform_generic(&mut s, &block);
        proof {
            let bs = blocks.deep_view();
            assert(bs.len() == n);
            assert(bs.skip(i as int)[0] == bs[i as int]);
            assert(bs[i as int] =~= block@);
            assert(bs.skip(i as int).skip(1) =~= bs.skip(i + 1));
        }
        i = i + 1;
    }
    proof {
        assert(blocks.deep_view().skip(n as int).len() == 0);
    }
    Ok(s)
}

} // verus!
