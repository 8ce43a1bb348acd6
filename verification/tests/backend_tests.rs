use sha2core::sha256::{compress256_block, compress256_blocks, sha256_transform_arm,
    sha256_transform_generic, Sha256State};
use sha2core::sha512::{compress512_block, compress512_blocks, sha512_transform_arm,
    sha512_transform_generic, Sha512State};
use sha2core::{hardware_support_available, Backend, HashError};

// The whole, pre-padded one-block message "abc" for SHA-256.
fn abc_block256() -> [u8; 64] {
    let mut block = [0u8; 64];
    block[0] = 0x61;
    block[1] = 0x62;
    block[2] = 0x63;
    block[3] = 0x80;
    block[63] = 0x18;
    block
}

// The whole, pre-padded one-block message "abc" for SHA-512.
fn abc_block512() -> [u8; 128] {
    let mut block = [0u8; 128];
    block[0] = 0x61;
    block[1] = 0x62;
    block[2] = 0x63;
    block[3] = 0x80;
    block[127] = 0x18;
    block
}

const ABC_STATE256: [u32; 8] = [
    0xba7816bf, 0x8f01cfea, 0x414140de, 0x5dae2223,
    0xb00361a3, 0x96177a9c, 0xb410ff61, 0xf20015ad,
];

const ABC_STATE512: [u64; 8] = [
    0xddaf35a193617aba, 0xcc417349ae204131, 0x12e6fa4e89a97ea2, 0x0a9eeee64b55d39a,
    0x2192992a274fc1a8, 0x36ba3c23a3feebbd, 0x454d4423643ce80e, 0x2a9ac94fa54ca49f,
];

// The standard initialization vectors, word for word.
#[test]
fn test_initial_states() {
    let s256 = Sha256State::new();
    assert_eq!(
        s256.h,
        [
            0x6a09e667u32, 0xbb67ae85, 0x3c6ef372, 0xa54ff53a,
            0x510e527f, 0x9b05688c, 0x1f83d9ab, 0x5be0cd19,
        ]
    );
    let s512 = Sha512State::new();
    assert_eq!(
        s512.h,
        [
            0x6a09e667f3bcc908u64, 0xbb67ae8584caa73b, 0x3c6ef372fe94f82b, 0xa54ff53a5f1d36f1,
            0x510e527fade682d1, 0x9b05688c2b3e6c1f, 0x1f83d9abfb41bd6b, 0x5be0cd19137e2179,
        ]
    );
}

// One direct transform call on the pre-padded "abc" block reaches the
// published digest words.
#[test]
fn test_transform_known_block() {
    let mut s = Sha256State::new();
    sha256_transform_generic(&mut s, &abc_block256());
    assert_eq!(s.h, ABC_STATE256);

    let mut s = Sha512State::new();
    sha512_transform_generic(&mut s, &abc_block512());
    assert_eq!(s.h, ABC_STATE512);
}

// The transform exported under the accelerated name computes the same
// state transition as the generic one on the same inputs.
#[test]
fn test_transform_equivalence() {
    let mut block = [0u8; 64];
    for (i, b) in block.iter_mut().enumerate() {
        *b = (i as u8).wrapping_mul(37).wrapping_add(11);
    }
    let mut generic = Sha256State::new();
    let mut arm = Sha256State::new();
    sha256_transform_generic(&mut generic, &block);
    sha256_transform_arm(&mut arm, &block);
    assert_eq!(generic.h, arm.h);

    let mut block = [0u8; 128];
    for (i, b) in block.iter_mut().enumerate() {
        *b = (i as u8).wrapping_mul(41).wrapping_add(5);
    }
    let mut generic = Sha512State::new();
    let mut arm = Sha512State::new();
    sha512_transform_generic(&mut generic, &block);
    sha512_transform_arm(&mut arm, &block);
    assert_eq!(generic.h, arm.h);
}

// This portable build carries no accelerated backend.
#[test]
fn test_hardware_support_query() {
    assert!(!hardware_support_available());
}

// With feature detection reporting the extension absent, the
// accelerated path refuses to execute instead of running.
#[test]
fn test_hardware_gating_block() {
    let s = Sha256State::new();
    let block = abc_block256();
    let r = compress256_block(&s, &block, Backend::Hardware, false);
    assert_eq!(r.unwrap_err(), HashError::UnsupportedHardware);
    let r = compress256_block(&s, &block, Backend::Hardware, hardware_support_available());
    assert_eq!(r.unwrap_err(), HashError::UnsupportedHardware);

    let s = Sha512State::new();
    let block = abc_block512();
    let r = compress512_block(&s, &block, Backend::Hardware, false);
    assert_eq!(r.unwrap_err(), HashError::UnsupportedHardware);

    // where detection reports support, the call runs and agrees with
    // the generic backend
    let s = Sha256State::new();
    let block = abc_block256();
    let hw = compress256_block(&s, &block, Backend::Hardware, true).unwrap();
    let gen = compress256_block(&s, &block, Backend::Generic, false).unwrap();
    assert_eq!(hw.h, gen.h);
    assert_eq!(gen.h, ABC_STATE256);
}

// Batched compression applies the transform once per block, in order,
// and is gated like the single-block entry point.
#[test]
fn test_compress_blocks() {
    let s = Sha256State::new();
    let blocks = [abc_block256()];
    let out = compress256_blocks(&s, &blocks, Backend::Generic, false).unwrap();
    assert_eq!(out.h, ABC_STATE256);

    let mut second = [0u8; 64];
    for (i, b) in second.iter_mut().enumerate() {
        *b = i as u8;
    }
    let two = [abc_block256(), second];
    let batched = compress256_blocks(&s, &two, Backend::Generic, false).unwrap();
    let mut stepped = Sha256State::new();
    sha256_transform_generic(&mut stepped, &two[0]);
    sha256_transform_generic(&mut stepped, &two[1]);
    assert_eq!(batched.h, stepped.h);

    let r = compress256_blocks(&s, &two, Backend::Hardware, false);
    assert_eq!(r.unwrap_err(), HashError::UnsupportedHardware);

    let s = Sha512State::new();
    let blocks = [abc_block512()];
    let out = compress512_blocks(&s, &blocks, Backend::Generic, false).unwrap();
    assert_eq!(out.h, ABC_STATE512);
    let r = compress512_blocks(&s, &blocks, Backend::Hardware, false);
    assert_eq!(r.unwrap_err(), HashError::UnsupportedHardware);
    let out = compress512_blocks(&s, &blocks, Backend::Hardware, true).unwrap();
    assert_eq!(out.h, ABC_STATE512);
}
