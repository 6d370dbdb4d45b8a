use fundb::bytes::{bytes_eq, u64_from_le, u64_to_le};
use fundb::codec::{gen_sample, Codec, SampleBlock};

#[test]
fn t_u64_le_round_trip() {
    for x in [0u64, 1, 255, 256, 0xDEAD_BEEF, u64::MAX] {
        let bytes = u64_to_le(x);
        assert_eq!(8, bytes.len());
        assert_eq!(x, u64_from_le(bytes.as_slice()));
    }
    assert_eq!(vec![1u8, 0, 0, 0, 0, 0, 0, 0], u64_to_le(1));
    assert_eq!(vec![0x39u8, 0x30, 0, 0, 0, 0, 0, 0], u64_to_le(12345));
}

#[test]
fn t_bytes_eq() {
    assert!(bytes_eq(&[1, 2, 3], &[1, 2, 3]));
    assert!(!bytes_eq(&[1, 2, 3], &[1, 2, 4]));
    assert!(!bytes_eq(&[1, 2], &[1, 2, 3]));
    assert!(bytes_eq(&[], &[]));
}

#[test]
fn t_sample_block_round_trip() {
    let b = gen_sample(7);
    assert_eq!(7, b.idx);
    assert_eq!(vec![7u64], b.data);
    let enc = b.encode();
    assert_eq!(24, enc.len());
    assert_eq!(Some(b.clone()), SampleBlock::decode(enc.as_slice()));

    let wide = SampleBlock { idx: 42, data: vec![1, 2, 3, u64::MAX] };
    let enc2 = wide.encode();
    assert_eq!(16 + 8 * 4, enc2.len());
    assert_eq!(Some(wide), SampleBlock::decode(enc2.as_slice()));

    assert_eq!(None, SampleBlock::decode(&[1, 2, 3]));
    let truncated = &enc2[..enc2.len() - 4];
    assert_eq!(None, SampleBlock::decode(truncated));
}

#[test]
fn t_u64_codec() {
    let x: u64 = 99;
    let enc = x.encode();
    assert_eq!(Some(99u64), u64::decode(enc.as_slice()));
    assert_eq!(None, u64::decode(&[1, 2, 3]));
}
