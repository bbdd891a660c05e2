use lace_util::sha1::{sha1, Sha1Ctx};

#[test]
fn test_sha1_empty() {
    let digest = sha1(b"");
    let expected = [
        0xda, 0x39, 0xa3, 0xee, 0x5e, 0x6b, 0x4b, 0x0d, 0x32, 0x55, 0xbf, 0xef, 0x95, 0x60, 0x18,
        0x90, 0xaf, 0xd8, 0x07, 0x09,
    ];
    assert_eq!(digest, expected);
}

#[test]
fn test_sha1_abc() {
    let digest = sha1(b"abc");
    let expected = [
        0xa9, 0x99, 0x3e, 0x36, 0x47, 0x06, 0x81, 0x6a, 0xba, 0x3e, 0x25, 0x71, 0x78, 0x50, 0xc2,
        0x6c, 0x9c, 0xd0, 0xd8, 0x9d,
    ];
    assert_eq!(digest, expected);
}

#[test]
fn test_sha1_long_pattern() {
    let data = b"abcdbcdecdefdefgefghfghighijhijkijkljklmklmnlmnomnopnopq";
    let digest = sha1(data);
    let expected = [
        0x84, 0x98, 0x3e, 0x44, 0x1c, 0x3b, 0xd2, 0x6e, 0xba, 0xae, 0x4a, 0xa1, 0xf9, 0x51, 0x29,
        0xe5, 0xe5, 0x46, 0x70, 0xf1,
    ];
    assert_eq!(digest, expected);
}

#[test]
fn test_sha1_quick_cog() {
    let digest = sha1(b"The quick brown fox jumps over the lazy cog");
    let expected = [
        0xde, 0x9f, 0x2c, 0x7f, 0xd2, 0x5e, 0x1b, 0x3a, 0xfa, 0xd3, 0xe8, 0x5a, 0x0b, 0xd1, 0x7d,
        0x9b, 0x10, 0x0d, 0xb4, 0xb3,
    ];
    assert_eq!(digest, expected);
}

#[test]
fn test_sha1_one_million_a() {
    let data = vec![b'a'; 1_000_000];
    let digest = sha1(&data);
    let expected = [
        0x34, 0xaa, 0x97, 0x3c, 0xd4, 0xc4, 0xda, 0xa4, 0xf6, 0x1e, 0xeb, 0x2b, 0xdb, 0xad, 0x27,
        0x31, 0x65, 0x34, 0x01, 0x6f,
    ];
    assert_eq!(digest, expected);
}

#[test]
fn test_sha1_incremental_update() {
    let mut ctx = Sha1Ctx::new();
    ctx.update(b"The quick brown ");
    ctx.update(b"fox jumps over ");
    ctx.update(b"the lazy dog");
    let digest = ctx.digest();
    let expected = [
        0x2f, 0xd4, 0xe1, 0xc6, 0x7a, 0x2d, 0x28, 0xfc, 0xed, 0x84, 0x9e, 0xe1, 0xbb, 0x76, 0xe7,
        0x39, 0x1b, 0x93, 0xeb, 0x12,
    ];
    assert_eq!(digest, expected);
}

#[test]
fn sha1_split_updates_match_one_shot() {
    let data = b"abcdbcdecdefdefgefghfghighijhijkijkljklmklmnlmnomnopnopq-plus-more-bytes";
    for split in [0usize, 1, 17, 55, 56, 63, 64, 65, data.len()] {
        let mut ctx = Sha1Ctx::new();
        ctx.update(&data[..split]);
        ctx.update(&data[split..]);
        assert_eq!(ctx.digest(), sha1(data));
    }
}
