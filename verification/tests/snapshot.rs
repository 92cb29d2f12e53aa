use bohime::snapshot::{decode, encode, SnapshotError};

#[test]
fn snapshot_round_trips_through_encode_decode() {
    let pairs = vec![
        (b"k2".to_vec(), b"v2".to_vec()),
        (b"k1".to_vec(), b"v1".to_vec()),
        (b"\x00session/".to_vec(), b"s".to_vec()),
    ];
    let encoded = encode(17, 4, &pairs);
    let decoded = decode(&encoded).unwrap();
    assert_eq!(decoded.last_included_index, 17);
    assert_eq!(decoded.last_included_term, 4);
    assert_eq!(
        decoded.pairs,
        vec![
            (b"\x00session/".to_vec(), b"s".to_vec()),
            (b"k1".to_vec(), b"v1".to_vec()),
            (b"k2".to_vec(), b"v2".to_vec()),
        ],
        "encode sorts by key: any two replicas snapshotting the same state produce the same bytes"
    );
}

#[test]
fn decode_rejects_a_truncated_or_tampered_payload() {
    let pairs = vec![(b"k".to_vec(), b"v".to_vec())];
    let mut encoded = encode(3, 1, &pairs);
    encoded.pop();
    assert!(decode(&encoded).is_err(), "truncation must not decode");

    let mut encoded = encode(3, 1, &pairs);
    let last = encoded.len() - 1;
    encoded[last] ^= 0xff;
    assert!(decode(&encoded).is_err(), "tampering must fail the checksum");

    assert!(decode(b"garbage").is_err());
}

#[test]
fn an_empty_state_is_a_valid_snapshot() {
    let decoded = decode(&encode(9, 2, &[])).unwrap();
    assert_eq!(decoded.last_included_index, 9);
    assert!(decoded.pairs.is_empty());
}

/// The layout, byte by byte, sealed with the checksum that the CRC-32 crate
/// itself computes.
#[test]
fn an_image_has_this_stored_form() {
    let mut want: Vec<u8> = vec![0x42, 0x48, 0x4d, 0x31];
    want.extend(17u64.to_be_bytes());
    want.extend(4u64.to_be_bytes());
    want.extend(1u64.to_be_bytes());
    want.extend(1u32.to_be_bytes());
    want.extend(2u32.to_be_bytes());
    want.extend(b"kvw");
    let crc = crc32fast::hash(&want);
    want.extend(crc.to_be_bytes());
    assert_eq!(encode(17, 4, &[(b"k".to_vec(), b"vw".to_vec())]), want);
}

#[test]
fn each_bad_image_is_refused_as_what_it_is() {
    let good = encode(3, 1, &[(b"k".to_vec(), b"v".to_vec())]);
    assert_eq!(decode(b"garbage"), Err(SnapshotError::Truncated));

    let mut tampered = good.clone();
    tampered[10] ^= 1;
    assert_eq!(decode(&tampered), Err(SnapshotError::CrcMismatch));

    let reseal = |body: &[u8]| {
        let mut out = body.to_vec();
        out.extend(crc32fast::hash(body).to_be_bytes());
        out
    };
    let mut body = good[..good.len() - 4].to_vec();
    body[0] = 0;
    assert_eq!(decode(&reseal(&body)), Err(SnapshotError::BadMagic));

    let mut body = good[..good.len() - 4].to_vec();
    body.push(0);
    assert_eq!(decode(&reseal(&body)), Err(SnapshotError::Truncated));
    assert!(!SnapshotError::CrcMismatch.message().is_empty());
}

#[test]
fn an_image_is_what_its_checksum_covers_and_then_the_checksum() {
    let pairs = vec![(b"b".to_vec(), b"2".to_vec()), (b"a".to_vec(), vec![])];
    let image = encode(5, 2, &pairs);
    let end = image.len() - 4;
    assert_eq!(image[..4], *b"BHM1");
    assert_eq!(image[4..12], [0, 0, 0, 0, 0, 0, 0, 5]);
    assert_eq!(image[12..20], [0, 0, 0, 0, 0, 0, 0, 2]);
    assert_eq!(image[20..28], [0, 0, 0, 0, 0, 0, 0, 2]);
    assert_eq!(image[28..end], *b"\0\0\0\x01\0\0\0\0a\0\0\0\x01\0\0\0\x01b2");
    let mut register: u32 = 0xffff_ffff;
    for byte in &image[..end] {
        register ^= *byte as u32;
        for _ in 0..8 {
            register = (register >> 1) ^ if register & 1 == 1 { 0xedb8_8320 } else { 0 };
        }
    }
    assert_eq!(image[end..], (!register).to_be_bytes());
    assert_eq!(decode(&image[..31]).unwrap_err(), SnapshotError::Truncated);
}

#[test]
fn any_one_changed_byte_is_refused() {
    let image = encode(17, 4, &[(b"k".to_vec(), b"v".to_vec())]);
    for i in 0..image.len() {
        for flip in [0x01, 0x80, 0xff] {
            let mut changed = image.clone();
            changed[i] ^= flip;
            assert_eq!(decode(&changed).unwrap_err(), SnapshotError::CrcMismatch, "byte {i}");
        }
    }
}

#[test]
fn pairs_of_one_key_keep_their_order_and_an_image_its_size() {
    let pair = |k: &str, v: &str| (k.as_bytes().to_vec(), v.as_bytes().to_vec());
    let image = encode(1, 1, &[pair("k", "2"), pair("a", "xyz"), pair("k", "1")]);
    assert_eq!(decode(&image).unwrap().pairs, vec![pair("a", "xyz"), pair("k", "2"), pair("k", "1")]);
    assert_eq!(image.len(), 32 + (8 + 1 + 3) + 2 * (8 + 1 + 1));
    assert_eq!(encode(1, 1, &[]).len(), 32);
}
