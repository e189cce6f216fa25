use wasmer_kit::errors::DeserializeError;
use wasmer_kit::metadata::{
    append_archive_position, archive_from_slice, encode_metadata_section, metadata_from_section,
};

#[test]
fn archive_position_is_appended_little_endian() {
    let framed = append_archive_position(vec![9, 8, 7], 0x0102_0304_0506_0708);
    assert_eq!(framed, vec![9, 8, 7, 8, 7, 6, 5, 4, 3, 2, 1]);
}

#[test]
fn archive_and_position_read_back() {
    let framed = append_archive_position(vec![1, 2, 3, 4], 17);
    let (archive, position) = archive_from_slice(&framed).unwrap();
    assert_eq!(archive, &[1, 2, 3, 4]);
    assert_eq!(position, 17);
    let framed = append_archive_position(vec![], u64::MAX);
    let (archive, position) = archive_from_slice(&framed).unwrap();
    assert!(archive.is_empty());
    assert_eq!(position, u64::MAX);
}

#[test]
fn short_slice_is_incompatible() {
    assert_eq!(
        archive_from_slice(&[1, 2, 3, 4, 5, 6, 7]),
        Err(DeserializeError::Incompatible("invalid serialized data".to_string()))
    );
    assert!(archive_from_slice(&[0; 8]).is_ok());
}

#[test]
fn section_holds_length_then_content() {
    let section = encode_metadata_section(vec![0xaa, 0xbb, 0xcc]);
    let mut expected = vec![3u8];
    expected.extend(vec![0u8; 15]);
    expected.extend(vec![0xaa, 0xbb, 0xcc]);
    assert_eq!(section, expected);

    let content = vec![5u8; 300];
    let section = encode_metadata_section(content.clone());
    assert_eq!(&section[..3], &[0xac, 0x02, 0x00]);
    assert_eq!(section.len(), 316);
    assert_eq!(&section[16..], &content[..]);
}

#[test]
fn section_content_is_found_again() {
    for len in [0usize, 1, 127, 128, 300, 16384] {
        let content: Vec<u8> = (0..len).map(|i| (i % 251) as u8).collect();
        let mut section = encode_metadata_section(content.clone());
        section.extend(vec![0xff; 9]);
        assert_eq!(metadata_from_section(&section).unwrap(), &content[..]);
    }
}

#[test]
fn unreadable_length_is_corrupted() {
    assert_eq!(
        metadata_from_section(&[0x80; 17]),
        Err(DeserializeError::CorruptedBinary("Can't read metadata size".to_string()))
    );
    assert_eq!(
        metadata_from_section(&[]),
        Err(DeserializeError::CorruptedBinary("Can't read metadata size".to_string()))
    );
    // A tenth byte other than 0 or 1 does not fit in 64 bits.
    let mut overflow = vec![0xffu8; 9];
    overflow.push(0x02);
    overflow.extend(vec![0u8; 7]);
    assert_eq!(
        metadata_from_section(&overflow),
        Err(DeserializeError::CorruptedBinary("Can't read metadata size".to_string()))
    );
}

#[test]
fn length_beyond_section_is_corrupted() {
    let mut section = vec![10u8];
    section.extend(vec![0u8; 15]);
    section.extend(vec![1u8; 9]);
    assert_eq!(
        metadata_from_section(&section),
        Err(DeserializeError::CorruptedBinary("metadata length exceeds the section".to_string()))
    );
    section.push(1);
    assert_eq!(metadata_from_section(&section).unwrap(), &[1u8; 10]);
}
