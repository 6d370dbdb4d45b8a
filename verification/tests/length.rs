use fundb::helper::FundbError;
use fundb::length::{decode_len, encode_len};
use fundb::vecx::Vecx;
use fundb::codec::{gen_sample, SampleBlock};

fn unique_path(tag: &str) -> String {
    format!("/tmp/.fundb_test/{}_{}", tag, rand::random::<u64>())
}

#[test]
fn t_length_header_round_trip() {
    for n in [0u64, 1, 7, 255, 256, 65_535, u64::MAX] {
        let bytes = encode_len(n);
        assert_eq!(16, bytes.len());
        assert_eq!(Ok(n), decode_len(bytes.as_slice()));
    }
}

#[test]
fn t_length_header_mismatch_is_corruption() {
    let mut bytes = encode_len(7);
    bytes[8] = bytes[8].wrapping_add(1);
    assert_eq!(
        Err(FundbError::Corruption),
        decode_len(bytes.as_slice())
    );

    let short = [1u8, 2, 3];
    assert_eq!(Err(FundbError::Corruption), decode_len(&short));

    let mut high_copy = encode_len(300);
    let low_copy = encode_len(5);
    for i in 0..8 {
        high_copy[8 + i] = low_copy[i];
    }
    match decode_len(high_copy.as_slice()) {
        Err(FundbError::Corruption) => {}
        other => panic!("mismatched copies must be corruption, got {:?}", other),
    }
}

#[test]
fn t_corrupted_header_fails_reopen() {
    let path = unique_path("corrupt");
    {
        let mut db: Vecx<SampleBlock> = Vecx::new(&path, None, false).unwrap();
        db.push(gen_sample(0)).unwrap();
        db.push(gen_sample(1)).unwrap();
    }
    {
        let raw = sled::Config::new().path(&path).open().unwrap();
        let mut bad = Vec::new();
        bad.extend_from_slice(&2u64.to_le_bytes());
        bad.extend_from_slice(&9u64.to_le_bytes());
        raw.insert(&[0u8], bad).unwrap();
        raw.flush().unwrap();
    }
    match Vecx::<SampleBlock>::new(&path, None, false) {
        Err(FundbError::Corruption) => {}
        other => panic!(
            "reopening past a mismatched header must fail with corruption, got {:?}",
            other.map(|_| ())
        ),
    }
}
