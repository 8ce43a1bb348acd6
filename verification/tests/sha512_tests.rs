use sha2core::sha512::Sha512;

fn hex512(bytes: &[u8]) -> String {
    let mut s = String::new();
    for b in bytes {
        s.push_str(&format!("{:02x}", b));
    }
    s
}

#[test]
fn test_sha512_empty() {
    let mut hasher = Sha512::new();
    hasher.update(b"");

    let result = hasher.finalize();

    let expected = [
        0xcf, 0x83, 0xe1, 0x35, 0x7e, 0xef, 0xb8, 0xbd,
        0xf1, 0x54, 0x28, 0x50, 0xd6, 0x6d, 0x80, 0x07,
        0xd6, 0x20, 0xe4, 0x05, 0x0b, 0x57, 0x15, 0xdc,
        0x83, 0xf4, 0xa9, 0x21, 0xd3, 0x6c, 0xe9, 0xce,
        0x47, 0xd0, 0xd1, 0x3c, 0x5d, 0x85, 0xf2, 0xb0,
        0xff, 0x83, 0x18, 0xd2, 0x87, 0x7e, 0xec, 0x2f,
        0x63, 0xb9, 0x31, 0xbd, 0x47, 0x41, 0x7a, 0x81,
        0xa5, 0x38, 0x32, 0x7a, 0xf9, 0x27, 0xda, 0x3e,
    ];

    assert_eq!(result, expected);
}

#[test]
fn test_sha512_abc() {
    let mut hasher = Sha512::new();
    hasher.update(b"abc");
    let result = hasher.finalize();

    let expected = [
        0xdd, 0xaf, 0x35, 0xa1, 0x93, 0x61, 0x7a, 0xba,
        0xcc, 0x41, 0x73, 0x49, 0xae, 0x20, 0x41, 0x31,
        0x12, 0xe6, 0xfa, 0x4e, 0x89, 0xa9, 0x7e, 0xa2,
        0x0a, 0x9e, 0xee, 0xe6, 0x4b, 0x55, 0xd3, 0x9a,
        0x21, 0x92, 0x99, 0x2a, 0x27, 0x4f, 0xc1, 0xa8,
        0x36, 0xba, 0x3c, 0x23, 0xa3, 0xfe, 0xeb, 0xbd,
        0x45, 0x4d, 0x44, 0x23, 0x64, 0x3c, 0xe8, 0x0e,
        0x2a, 0x9a, 0xc9, 0x4f, 0xa5, 0x4c, 0xa4, 0x9f,
    ];

    assert_eq!(result, expected);
}

fn sha512_of(data: &[u8]) -> [u8; 64] {
    let mut hasher = Sha512::new();
    hasher.update(data);
    hasher.finalize()
}

// Feeding the same bytes in chunks of any sizes must give the digest of
// the single-shot call, whatever the partition.
#[test]
fn test_sha512_chunking_invariance() {
    let data: Vec<u8> = (0u16..300).map(|i| (i % 251) as u8).collect();
    let whole = sha512_of(&data);
    assert_eq!(
        hex512(&whole),
        "f758e49e6fca32320310aa1b0b2e3abfeab7fc8414ba069022e8b39b7e53628b\
         e4777edbab93a6780a8318eed48c4665ff55d68dff2e6c84b6270b4eff6df873"
    );

    for split in [1usize, 7, 127, 128, 129, 255, 299] {
        let mut hasher = Sha512::new();
        hasher.update(&data[..split]);
        hasher.update(&data[split..]);
        assert_eq!(hex512(&hasher.finalize()), hex512(&whole));
    }

    let mut hasher = Sha512::new();
    hasher.update(b"");
    for b in &data {
        hasher.update(std::slice::from_ref(b));
        hasher.update(b"");
    }
    assert_eq!(hex512(&hasher.finalize()), hex512(&whole));
}

// Lengths around the padding threshold: 111 bytes still fits the
// length field in one block, 112 forces the two-block finalization,
// and the block boundary itself sits at 128.
#[test]
fn test_sha512_length_boundaries() {
    let cases: [(usize, &str); 6] = [
        (
            111,
            "fa9121c7b32b9e01733d034cfc78cbf67f926c7ed83e82200ef86818196921760b4beff48404df811b953828274461673c68d04e297b0eb7b2b4d60fc6b566a2",
        ),
        (
            112,
            "c01d080efd492776a1c43bd23dd99d0a2e626d481e16782e75d54c2503b5dc32bd05f0f1ba33e568b88fd2d970929b719ecbb152f58f130a407c8830604b70ca",
        ),
        (
            113,
            "55ddd8ac210a6e18ba1ee055af84c966e0dbff091c43580ae1be703bdb85da31acf6948cf5bd90c55a20e5450f22fb89bd8d0085e39f85a86cc46abbca75e24d",
        ),
        (
            127,
            "828613968b501dc00a97e08c73b118aa8876c26b8aac93df128502ab360f91bab50a51e088769a5c1eff4782ace147dce3642554199876374291f5d921629502",
        ),
        (
            128,
            "b73d1929aa615934e61a871596b3f3b33359f42b8175602e89f7e06e5f658a243667807ed300314b95cacdd579f3e33abdfbe351909519a846d465c59582f321",
        ),
        (
            129,
            "4f681e0bd53cda4b5a2041cc8a06f2eabde44fb16c951fbd5b87702f07aeab611565b19c47fde30587177ebb852e3971bbd8d3fd30da18d71037dfbd98420429",
        ),
    ];
    for (n, expected) in cases {
        let data = vec![0x61u8; n];
        assert_eq!(hex512(&sha512_of(&data)), expected, "length {}", n);
    }
}

// Identical input must give identical digests across repeated,
// independent hasher instances.
#[test]
fn test_sha512_determinism() {
    let data = b"determinism across instances";
    let first = sha512_of(data);
    for _ in 0..3 {
        assert_eq!(hex512(&sha512_of(data)), hex512(&first));
    }
}
