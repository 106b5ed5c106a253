use lfs::lfs_id::{DecodeError, LfsId};

fn hex(s: &str) -> Vec<u8> {
    (0..s.len())
        .step_by(2)
        .map(|i| u8::from_str_radix(&s[i..i + 2], 16).unwrap())
        .collect()
}

fn digest_bytes(id: &LfsId) -> Vec<u8> {
    match id {
        LfsId::Blake2(h) | LfsId::Blake3(h) | LfsId::Sha2(h) | LfsId::Sha3(h) => h.to_vec(),
        LfsId::Raw(_) => panic!("not a digest"),
    }
}

#[test]
fn small_data_is_inline() {
    for n in [0usize, 1, 31, 32] {
        let data: Vec<u8> = (0..n as u8).collect();
        let id = LfsId::for_data(&data).unwrap();
        assert!(id == LfsId::Raw(data.clone()));
        assert!(!id.is_digest());
    }
}

#[test]
fn large_data_is_digest_and_deterministic() {
    let data = vec![7u8; 33];
    let a = LfsId::for_data(&data).unwrap();
    let b = LfsId::for_data(&data).unwrap();
    assert!(a.is_digest());
    assert!(a == b);
    assert!(matches!(a, LfsId::Blake3(_)));
    assert!(a == LfsId::blake3(&data));
    let other = LfsId::for_data(&vec![8u8; 33]).unwrap();
    assert!(a != other);
}

#[test]
fn digest_values() {
    let empty: Vec<u8> = Vec::new();
    assert_eq!(
        digest_bytes(&LfsId::sha2(&empty)),
        hex("e3b0c44298fc1c149afbf4c8996fb92427ae41e4649b934ca495991b7852b855")
    );
    assert_eq!(
        digest_bytes(&LfsId::sha3(&empty)),
        hex("c5d2460186f7233c927e7db2dcc703c0e500b653ca82273b7bfad8045d85a470")
    );
    assert_eq!(
        digest_bytes(&LfsId::blake2(&empty)),
        hex("0e5751c026e543b2e8ab2eb06099daa1d1e5df47778f7787faab45cdf12fe3a8")
    );
    assert_eq!(
        digest_bytes(&LfsId::blake3(&empty)),
        hex("af1349b9f5f9a1a6a0404dea36dcc9499bcb25c9adc112b7cc9a93cae41f3262")
    );
    assert_eq!(
        digest_bytes(&LfsId::sha2(&b"abc".to_vec())),
        hex("ba7816bf8f01cfea414140de5dae2223b00361a396177a9cb410ff61f20015ad")
    );
}

#[test]
fn algorithm_is_part_of_identity() {
    let h = [5u8; 32];
    assert!(LfsId::Blake2(h) != LfsId::Sha2(h));
    assert!(LfsId::Blake2(h) == LfsId::Blake2(h));
    assert!(LfsId::Raw(h.to_vec()) != LfsId::Blake2(h));
}

#[test]
fn encoding_layout() {
    assert_eq!(LfsId::Raw(vec![1, 2, 3]).encode(), vec![0, 12, 1, 2, 3]);
    let mut expected = vec![10u8];
    expected.extend_from_slice(&[9u8; 32]);
    assert_eq!(LfsId::Blake2([9u8; 32]).encode(), expected);
    assert_eq!(LfsId::Blake3([9u8; 32]).encode()[0], 11);
    assert_eq!(LfsId::Sha2([9u8; 32]).encode()[0], 20);
    assert_eq!(LfsId::Sha3([9u8; 32]).encode()[0], 21);
}

#[test]
fn round_trip_every_variant() {
    let ids = vec![
        LfsId::Raw(vec![]),
        LfsId::Raw(vec![1; 32]),
        LfsId::Blake2([1; 32]),
        LfsId::Blake3([2; 32]),
        LfsId::Sha2([3; 32]),
        LfsId::Sha3([4; 32]),
        LfsId::for_data(&vec![9u8; 100]).unwrap(),
    ];
    for id in ids {
        let bytes = id.encode();
        assert!(LfsId::decode(&bytes).unwrap() == id);
        let text = id.to_url_safe_text();
        assert!(LfsId::from_url_safe_text(&text).unwrap() == id);
    }
}

#[test]
fn decode_errors() {
    assert_eq!(LfsId::decode(&[]).unwrap_err(), DecodeError::LengthMismatch);
    assert_eq!(LfsId::decode(&[7, 1, 2]).unwrap_err(), DecodeError::UnknownTag);
    let bytes = LfsId::Sha2([3; 32]).encode();
    for cut in 0..bytes.len() {
        assert!(LfsId::decode(&bytes[..cut]).is_err());
    }
    assert_eq!(LfsId::decode(&bytes[..20]).unwrap_err(), DecodeError::LengthMismatch);
    let mut corrupted = bytes.clone();
    corrupted[0] = 99;
    assert_eq!(LfsId::decode(&corrupted).unwrap_err(), DecodeError::UnknownTag);
    let mut longer = bytes.clone();
    longer.push(0);
    assert_eq!(LfsId::decode(&longer).unwrap_err(), DecodeError::LengthMismatch);
    assert_eq!(LfsId::decode(&[0, 13, 1, 2, 3]).unwrap_err(), DecodeError::LengthMismatch);
    assert_eq!(LfsId::decode(&[0, 4 * 33]).unwrap_err(), DecodeError::LengthMismatch);
}

#[test]
fn url_safe_text() {
    let id = LfsId::Raw(vec![1, 2, 3]);
    assert_eq!(id.to_url_safe_text(), "AAwBAgM=");
    assert!(LfsId::from_url_safe_text("AAwBAgM=").unwrap() == id);
    assert!(LfsId::from_url_safe_text("AAwBAgM").unwrap() == id);
    assert!(LfsId::from_url_safe_text("not base64!").is_none());
    assert!(LfsId::from_url_safe_text("AAAA").is_none());
    assert!(LfsId::from_url_safe_text("").is_none());
}
