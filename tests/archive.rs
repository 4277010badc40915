use afs_util::format::{AFS_ALIGN, AFS_DATA_START};
use afs_util::{AfsError, AfsReader, AfsWriter};

fn pattern(len: usize, seed: u8) -> Vec<u8> {
    (0..len).map(|i| (i as u8).wrapping_mul(31).wrapping_add(seed)).collect()
}

fn le32(bytes: &[u8], at: usize) -> u32 {
    u32::from_le_bytes([bytes[at], bytes[at + 1], bytes[at + 2], bytes[at + 3]])
}

fn read_entry(reader: &AfsReader, i: usize) -> Vec<u8> {
    let mut entry = reader.open(i).expect("entry present");
    entry.read_to_end()
}

#[test]
fn round_trip_several_blobs() {
    let blobs = vec![pattern(5, 1), Vec::new(), pattern(2048, 2), pattern(4097, 3), pattern(1, 4)];
    let archive = AfsWriter::new(blobs.clone()).write().unwrap();
    let reader = AfsReader::new(archive).unwrap();
    assert_eq!(reader.len(), blobs.len());
    for (i, blob) in blobs.iter().enumerate() {
        assert_eq!(&read_entry(&reader, i), blob);
    }
}

#[test]
fn round_trip_no_blobs() {
    let archive = AfsWriter::new(Vec::new()).write().unwrap();
    assert_eq!(archive.len(), AFS_DATA_START as usize);
    let reader = AfsReader::new(archive).unwrap();
    assert_eq!(reader.len(), 0);
    assert!(reader.open(0).is_none());
}

#[test]
fn header_holds_magic_and_count() {
    let archive = AfsWriter::new(vec![pattern(10, 0), pattern(20, 0), pattern(30, 0)])
        .write()
        .unwrap();
    assert_eq!(&archive[0..4], b"AFS\0");
    assert_eq!(&archive[4..8], &[3u8, 0, 0, 0]);
}

#[test]
fn entries_are_aligned() {
    let blobs = vec![pattern(1, 0), pattern(2047, 0), pattern(2048, 0), pattern(2049, 0), Vec::new()];
    let archive = AfsWriter::new(blobs.clone()).write().unwrap();
    let mut expected = AFS_DATA_START as u32;
    for (i, blob) in blobs.iter().enumerate() {
        let offset = le32(&archive, 8 + 8 * i);
        let size = le32(&archive, 12 + 8 * i);
        assert_eq!(offset, expected);
        assert_eq!(offset % AFS_ALIGN as u32, 0);
        assert_eq!(size as usize, blob.len());
        let end = offset + size;
        expected = (end + AFS_ALIGN as u32 - 1) / AFS_ALIGN as u32 * AFS_ALIGN as u32;
    }
    assert_eq!(archive.len(), expected as usize);
}

#[test]
fn padding_is_zero() {
    let archive = AfsWriter::new(vec![vec![0xffu8; 5]]).write().unwrap();
    assert_eq!(archive.len(), AFS_DATA_START as usize + 0x800);
    assert!(archive[AFS_DATA_START as usize + 5..].iter().all(|b| *b == 0));
    assert!(archive[16..AFS_DATA_START as usize].iter().all(|b| *b == 0));
}

#[test]
fn short_reads_stop_at_entry_end() {
    let blobs = vec![pattern(3000, 7), pattern(100, 9)];
    let archive = AfsWriter::new(blobs.clone()).write().unwrap();
    let reader = AfsReader::new(archive).unwrap();
    let mut entry = reader.open(0).unwrap();
    let mut got = Vec::new();
    let mut buf = [0u8; 7];
    loop {
        let n = entry.read(&mut buf);
        if n == 0 {
            break;
        }
        assert!(n <= 7);
        got.extend_from_slice(&buf[..n]);
    }
    assert_eq!(got, blobs[0]);
    assert_eq!(entry.read(&mut buf), 0);
    assert_eq!(entry.read(&mut buf), 0);
}

#[test]
fn read_is_clipped_by_a_large_buffer() {
    let archive = AfsWriter::new(vec![pattern(5, 3), pattern(8, 4)]).write().unwrap();
    let reader = AfsReader::new(archive).unwrap();
    let mut entry = reader.open(0).unwrap();
    let mut buf = [0xaau8; 64];
    assert_eq!(entry.read(&mut buf), 5);
    assert_eq!(&buf[..5], &pattern(5, 3)[..]);
    assert!(buf[5..].iter().all(|b| *b == 0xaa));
    assert_eq!(entry.read(&mut buf), 0);
}

#[test]
fn bad_magic_is_rejected() {
    let mut archive = AfsWriter::new(vec![pattern(5, 0)]).write().unwrap();
    archive[0] = b'B';
    assert!(matches!(AfsReader::new(archive), Err(AfsError::BadMagic)));
    assert!(matches!(AfsReader::new(b"ZIP\0\0\0\0\0".to_vec()), Err(AfsError::BadMagic)));
    assert!(matches!(AfsReader::new(b"AFS\x01\0\0\0\0".to_vec()), Err(AfsError::BadMagic)));
}

#[test]
fn short_input_is_truncated() {
    assert!(matches!(AfsReader::new(Vec::new()), Err(AfsError::Truncated)));
    assert!(matches!(AfsReader::new(b"AF".to_vec()), Err(AfsError::Truncated)));
    assert!(matches!(AfsReader::new(b"AFS\0\x01".to_vec()), Err(AfsError::Truncated)));
    // Announces two entries but holds one row.
    let short = vec![b'A', b'F', b'S', 0, 2, 0, 0, 0, 0, 0, 0, 0, 0, 0, 0, 0];
    assert!(matches!(AfsReader::new(short), Err(AfsError::Truncated)));
}

#[test]
fn absent_entries_are_none() {
    let archive = AfsWriter::new(vec![pattern(5, 0), pattern(6, 0)]).write().unwrap();
    let reader = AfsReader::new(archive).unwrap();
    assert!(reader.open(1).is_some());
    assert!(reader.open(2).is_none());
    assert!(reader.open(3).is_none());
    assert!(reader.open(usize::MAX).is_none());
}

#[test]
fn hand_made_table_is_read_little_endian() {
    // One entry at offset 0x10 of size 3, stored little-endian.
    let mut data = vec![b'A', b'F', b'S', 0, 1, 0, 0, 0, 0x10, 0, 0, 0, 3, 0, 0, 0];
    data.extend_from_slice(&[9, 8, 7, 6, 5]);
    let reader = AfsReader::new(data).unwrap();
    assert_eq!(reader.len(), 1);
    assert_eq!(read_entry(&reader, 0), vec![9, 8, 7]);
}

#[test]
fn entry_past_the_end_reads_short() {
    // Offset 0x10 with size 100, in a buffer that ends after 5 data bytes.
    let mut data = vec![b'A', b'F', b'S', 0, 1, 0, 0, 0, 0x10, 0, 0, 0, 100, 0, 0, 0];
    data.extend_from_slice(&[1, 2, 3, 4, 5]);
    let reader = AfsReader::new(data).unwrap();
    assert_eq!(read_entry(&reader, 0), vec![1, 2, 3, 4, 5]);
}

#[test]
fn too_many_entries_is_refused() {
    let blobs = vec![Vec::new(); 65536];
    assert!(matches!(AfsWriter::new(blobs).write(), Err(AfsError::TooManyEntries)));
    let blobs = vec![Vec::new(); 65535];
    assert!(AfsWriter::new(blobs).write().is_ok());
}

#[test]
fn two_inputs_of_five_and_three_thousand_bytes() {
    let first = pattern(5, 11);
    let second = pattern(3000, 13);
    let archive = AfsWriter::new(vec![first.clone(), second.clone()]).write().unwrap();
    assert_eq!(le32(&archive, 4), 2);
    assert_eq!(le32(&archive, 8), 0x80000);
    assert_eq!(le32(&archive, 12), 5);
    assert_eq!(le32(&archive, 16), 0x80800);
    assert_eq!(le32(&archive, 20), 3000);
    let reader = AfsReader::new(archive).unwrap();
    assert_eq!(reader.len(), 2);
    assert_eq!(read_entry(&reader, 1), second);
    assert_eq!(read_entry(&reader, 0), first);
}
