use sha2core::sha256::Sha256;

fn hex256(bytes: &[u8]) -> String {
    let mut s = String::new();
    for b in bytes {
        s.push_str(&format!("{:02x}", b));
    }
    s
}

#[test]
fn test_sha256_empty() {
    let mut hasher = Sha256::new();
    hasher.update(b"");
    let result = hasher.finalize();

    let expected = [
        0xe3, 0xb0, 0xc4, 0x42, 0x98, 0xfc, 0x1c, 0x14,
        0x9a, 0xfb, 0xf4, 0xc8, 0x99, 0x6f, 0xb9, 0x24,
        0x27, 0xae, 0x41, 0xe4, 0x64, 0x9b, 0x93, 0x4c,
        0xa4, 0x95, 0x99, 0x1b, 0x78, 0x52, 0xb8, 0x55,
    ];

    assert_eq!(result, expected);
}

#[test]
fn test_sha256_abc() {
    let mut hasher = Sha256::new();
    hasher.update(b"abc");
    let result = hasher.finalize();

    let expected = [
        0xba, 0x78, 0x16, 0xbf, 0x8f, 0x01, 0xcf, 0xea,
        0x41, 0x41, 0x40, 0xde, 0x5d, 0xae, 0x22, 0x23,
        0xb0, 0x03, 0x61, 0xa3, 0x96, 0x17, 0x7a, 0x9c,
        0xb4, 0x10, 0xff, 0x61, 0xf2, 0x00, 0x15, 0xad,
    ];

    assert_eq!(result, expected);
}

fn sha256_of(data: &[u8]) -> [u8; 32] {
    let mut hasher = Sha256::new();
    hasher.update(data);
    hasher.finalize()
}

// Feeding the same bytes in chunks of any sizes must give the digest of
// the single-shot call, whatever the partition.
#[test]
fn test_sha256_chunking_invariance() {
    let data: Vec<u8> = (0u16..200).map(|i| i as u8).collect();
    let whole = sha256_of(&data);
    assert_eq!(
        hex256(&whole),
        "1901da1c9f699b48f6b2636e65cbf73abf99d0441ef67f5c540a42f7051dec6f"
    );

    for split in [1usize, 3, 63, 64, 65, 127, 199] {
        let mut hasher = Sha256::new();
        hasher.update(&data[..split]);
        hasher.update(&data[split..]);
        assert_eq!(hasher.finalize(), whole);
    }

    // byte-at-a-time, with empty chunks sprinkled in
    let mut hasher = Sha256::new();
    hasher.update(b"");
    for b in &data {
        hasher.update(std::slice::from_ref(b));
        hasher.update(b"");
    }
    assert_eq!(hasher.finalize(), whole);
}

#[test]
fn test_sha256_empty_chunks_only() {
    let mut hasher = Sha256::new();
    hasher.update(b"");
    hasher.update(b"");
    let with_chunks = hasher.finalize();
    assert_eq!(with_chunks, sha256_of(b""));
}

// Lengths around the padding threshold: 55 bytes still fits the length
// field in one block, 56 forces the two-block finalization, and the
// block boundary itself sits at 64.
#[test]
fn test_sha256_length_boundaries() {
    let cases: [(usize, &str); 6] = [
        (55, "9f4390f8d30c2dd92ec9f095b65e2b9ae9b0a925a5258e241c9f1e910f734318"),
        (56, "b35439a4ac6f0948b6d6f9e3c6af0f5f590ce20f1bde7090ef7970686ec6738a"),
        (57, "f13b2d724659eb3bf47f2dd6af1accc87b81f09f59f2b75e5c0bed6589dfe8c6"),
        (63, "7d3e74a05d7db15bce4ad9ec0658ea98e3f06eeecf16b4c6fff2da457ddc2f34"),
        (64, "ffe054fe7ae0cb6dc65c3af9b61d5209f439851db43d0ba5997337df154668eb"),
        (65, "635361c48bb9eab14198e76ea8ab7f1a41685d6ad62aa9146d301d4f17eb0ae0"),
    ];
    for (n, expected) in cases {
        let data = vec![0x61u8; n];
        assert_eq!(hex256(&sha256_of(&data)), expected, "length {}", n);
    }
}

// Identical input must give identical digests across repeated,
// independent hasher instances.
#[test]
fn test_sha256_determinism() {
    let data = b"determinism across instances";
    let first = sha256_of(data);
    for _ in 0..3 {
        assert_eq!(sha256_of(data), first);
    }
}
