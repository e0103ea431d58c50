use sleep_parser::{Entry, FileType, HashAlgorithm, Header, SleepError, Version};

fn tree_header_bytes() -> Vec<u8> {
    // magic, file type 2 (tree), version 0, entry size 40 big-endian,
    // name length 7, "BLAKE2b", then zero padding up to 32 bytes
    let mut bytes = vec![
        0x05, 0x02, 0x57, 0x02, 0x00, 0x00, 0x28, 0x07, 0x42, 0x4C, 0x41, 0x4B, 0x45, 0x32, 0x62,
    ];
    while bytes.len() < 32 {
        bytes.push(0);
    }
    bytes
}

#[test]
fn parses_tree_header_bytes() {
    let header = Header::from_vec(&tree_header_bytes()).unwrap();
    assert_eq!(
        header,
        Header {
            file_type: FileType::Tree,
            version: Version::V0,
            entry_size: 40,
            hash_algorithm: HashAlgorithm::BLAKE2b,
        }
    );
}

#[test]
fn serializes_tree_header_to_exact_bytes() {
    let header = Header::new(FileType::Tree, 40, HashAlgorithm::BLAKE2b);
    assert_eq!(header.to_vec(), tree_header_bytes());
}

#[test]
fn header_round_trips_all_variants() {
    let types = [FileType::BitField, FileType::Signatures, FileType::Tree];
    let algorithms = [HashAlgorithm::BLAKE2b, HashAlgorithm::Ed25519];
    let sizes = [0u16, 1, 40, 64, 256, 65535];
    for &file_type in &types {
        for &hash_algorithm in &algorithms {
            for &entry_size in &sizes {
                let header = Header::new(file_type, entry_size, hash_algorithm);
                let bytes = header.to_vec();
                assert_eq!(bytes.len(), 32);
                assert_eq!(Header::from_vec(&bytes), Ok(header));
            }
        }
    }
}

#[test]
fn rejects_wrong_length() {
    let mut bytes = tree_header_bytes();
    bytes.pop();
    assert_eq!(Header::from_vec(&bytes), Err(SleepError::MalformedHeader));
    bytes.push(0);
    bytes.push(0);
    assert_eq!(Header::from_vec(&bytes), Err(SleepError::MalformedHeader));
}

#[test]
fn rejects_bad_magic() {
    let mut bytes = tree_header_bytes();
    bytes[0] = 0x04;
    assert_eq!(Header::from_vec(&bytes), Err(SleepError::BadMagic));
    let mut bytes = tree_header_bytes();
    bytes[1] = 0x03;
    assert_eq!(Header::from_vec(&bytes), Err(SleepError::BadMagic));
}

#[test]
fn rejects_unknown_file_type() {
    let mut bytes = tree_header_bytes();
    bytes[3] = 9;
    assert_eq!(Header::from_vec(&bytes), Err(SleepError::UnknownFileType));
}

#[test]
fn rejects_unsupported_version() {
    let mut bytes = tree_header_bytes();
    bytes[4] = 1;
    assert_eq!(
        Header::from_vec(&bytes),
        Err(SleepError::UnsupportedVersion)
    );
}

#[test]
fn rejects_unknown_algorithm() {
    let mut bytes = tree_header_bytes();
    bytes[8] = b'b';
    assert_eq!(Header::from_vec(&bytes), Err(SleepError::UnknownAlgorithm));
    let mut bytes = tree_header_bytes();
    bytes[7] = 6;
    assert_eq!(Header::from_vec(&bytes), Err(SleepError::UnknownAlgorithm));
}

#[test]
fn rejects_corrupt_padding() {
    let mut bytes = tree_header_bytes();
    bytes[31] = 1;
    assert_eq!(Header::from_vec(&bytes), Err(SleepError::CorruptPadding));
}

#[test]
fn parses_ed25519_signatures_header() {
    let header = Header::new(FileType::Signatures, 64, HashAlgorithm::Ed25519);
    let bytes = header.to_vec();
    assert_eq!(bytes[3], 1);
    assert_eq!(&bytes[8..15], b"Ed25519");
    assert_eq!(Header::from_vec(&bytes), Ok(header));
}

#[test]
fn entry_serializes_big_endian() {
    let mut hash = [0u8; 32];
    for (i, byte) in hash.iter_mut().enumerate() {
        *byte = i as u8;
    }
    let entry = Entry::new(hash, 0x0102030405060708);
    let bytes = entry.to_vec();
    assert_eq!(bytes.len(), 40);
    assert_eq!(&bytes[0..32], &hash[..]);
    assert_eq!(&bytes[32..40], &[1, 2, 3, 4, 5, 6, 7, 8]);
}

#[test]
fn entry_round_trips() {
    let entry = Entry::new([7u8; 32], u64::MAX);
    let bytes = entry.to_vec();
    assert_eq!(Entry::from_bytes(&bytes), Ok(entry));
    let entry = Entry::new([0u8; 32], 0);
    assert_eq!(Entry::from_bytes(&entry.to_vec()), Ok(entry));
}

#[test]
fn entry_rejects_wrong_width() {
    let bytes = [0u8; 39];
    assert_eq!(Entry::from_bytes(&bytes), Err(SleepError::TruncatedEntry));
    let bytes = [0u8; 41];
    assert_eq!(Entry::from_bytes(&bytes), Err(SleepError::TruncatedEntry));
}

#[test]
fn body_parses_into_entries() {
    let first = Entry::new([1u8; 32], 100);
    let second = Entry::new([2u8; 32], 200);
    let mut body = first.to_vec();
    body.extend_from_slice(&second.to_vec());
    let entries = sleep_parser::entry::parse_body(&body, 40).unwrap();
    assert_eq!(entries, vec![first, second]);
}

#[test]
fn body_rejects_misaligned_length() {
    let body = [0u8; 41];
    assert_eq!(
        sleep_parser::entry::parse_body(&body, 40),
        Err(SleepError::MisalignedBody)
    );
}

#[test]
fn body_rejects_undecodable_width() {
    let body = [0u8; 32];
    assert_eq!(
        sleep_parser::entry::parse_body(&body, 16),
        Err(SleepError::TruncatedEntry)
    );
}

#[test]
fn empty_body_is_no_entries() {
    let body: [u8; 0] = [];
    assert_eq!(sleep_parser::entry::parse_body(&body, 40), Ok(vec![]));
}
