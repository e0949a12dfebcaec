use pakkub::archive::ArchiveType;
use pakkub::builder::Builder;

fn u32_at(bytes: &[u8], pos: usize) -> u32 {
    u32::from_le_bytes([bytes[pos], bytes[pos + 1], bytes[pos + 2], bytes[pos + 3]])
}

#[test]
fn new_builder_is_empty_and_keeps_its_type() {
    let pak = Builder::new(ArchiveType::Pak);
    assert_eq!(pak.len(), 0);
    assert_eq!(pak.archive_type(), ArchiveType::Pak);
    let kub = Builder::new(ArchiveType::Kub);
    assert_eq!(kub.len(), 0);
    assert_eq!(kub.archive_type(), ArchiveType::Kub);
}

#[test]
fn empty_pak_is_four_zero_bytes() {
    let builder = Builder::new(ArchiveType::Pak);
    assert_eq!(builder.pack(), Ok(vec![0x00, 0x00, 0x00, 0x00]));
}

#[test]
fn empty_kub_is_four_zero_bytes() {
    let builder = Builder::new(ArchiveType::Kub);
    assert_eq!(builder.pack(), Ok(vec![0x00, 0x00, 0x00, 0x00]));
}

#[test]
fn kub_layout_byte_for_byte() {
    let mut builder = Builder::new(ArchiveType::Kub);
    builder.add_file("ignored", &[0x01, 0x02, 0x03]).unwrap();
    builder.add_file("ignored too", &[0x04, 0x05]).unwrap();
    assert_eq!(builder.len(), 2);
    let bytes = builder.pack().unwrap();
    let expected: Vec<u8> = vec![
        0x02, 0x00, 0x00, 0x00, // count
        0x14, 0x00, 0x00, 0x00, 0x03, 0x00, 0x00, 0x00, // entry 0: offset 20, size 3
        0x17, 0x00, 0x00, 0x00, 0x02, 0x00, 0x00, 0x00, // entry 1: offset 23, size 2
        0x01, 0x02, 0x03, 0x04, 0x05,
    ];
    assert_eq!(bytes, expected);
}

#[test]
fn pak_layout_byte_for_byte_with_given_payloads() {
    let mut builder = Builder::new(ArchiveType::Pak);
    builder.add_entry("ab", vec![0x78, 0x9C, 0xAA]);
    builder.add_entry("c", vec![0xBB]);
    let bytes = builder.pack().unwrap();
    let expected: Vec<u8> = vec![
        0x02, 0x00, 0x00, 0x00, // count
        0x23, 0x00, 0x00, 0x00, 0x03, 0x00, 0x00, 0x00, // entry 0: offset 35, size 3
        0x26, 0x00, 0x00, 0x00, 0x01, 0x00, 0x00, 0x00, // entry 1: offset 38, size 1
        0x1C, 0x00, 0x00, 0x00, // name 0 at 28
        0x20, 0x00, 0x00, 0x00, // name 1 at 32
        b'a', b'b', 0x0A, 0x00, // "ab\n\0"
        b'c', 0x0A, 0x00, // "c\n\0"
        0x78, 0x9C, 0xAA, 0xBB,
    ];
    assert_eq!(bytes, expected);
}

#[test]
fn kub_builder_drops_the_name() {
    let mut named = Builder::new(ArchiveType::Kub);
    named.add_entry("some name", vec![0x09, 0x08]);
    let mut other = Builder::new(ArchiveType::Kub);
    other.add_entry("", vec![0x09, 0x08]);
    assert_eq!(named.pack(), other.pack());
}

#[test]
fn pak_output_starts_with_count_and_zlib_magic() {
    let mut builder = Builder::new(ArchiveType::Pak);
    builder.add_file("a.txt", b"hello\n").unwrap();
    builder.add_file("b.bin", &[0x00, 0x01, 0x02, 0x03]).unwrap();
    let bytes = builder.pack().unwrap();
    assert_eq!(&bytes[..4], &[0x02, 0x00, 0x00, 0x00]);
    let first = u32_at(&bytes, 4) as usize;
    assert!(first >= 4 + 2 * 12);
    assert_eq!(bytes[first], 0x78);
    assert_eq!(bytes[first + 1], 0x9C);
}

#[test]
fn pak_payload_is_compressed_not_copied() {
    let contents = vec![0x41u8; 1000];
    let mut builder = Builder::new(ArchiveType::Pak);
    builder.add_file("a", &contents).unwrap();
    let bytes = builder.pack().unwrap();
    let offset = u32_at(&bytes, 4) as usize;
    let size = u32_at(&bytes, 8) as usize;
    assert!(size < contents.len());
    assert_eq!(offset + size, bytes.len());
    assert_ne!(&bytes[offset..], &contents[..]);
}

#[test]
fn pak_offsets_follow_names_and_do_not_overlap() {
    let mut builder = Builder::new(ArchiveType::Pak);
    builder.add_file("one", b"first file").unwrap();
    builder.add_file("two", b"second file, a little longer").unwrap();
    builder.add_file("three", b"").unwrap();
    let bytes = builder.pack().unwrap();
    assert_eq!(u32_at(&bytes, 0), 3);
    // name offsets: 4 + 3 * 12 = 40, then 40 + 5, then 45 + 5
    assert_eq!(u32_at(&bytes, 4 + 24), 40);
    assert_eq!(u32_at(&bytes, 4 + 24 + 4), 45);
    assert_eq!(u32_at(&bytes, 4 + 24 + 8), 50);
    assert_eq!(&bytes[40..45], b"one\n\0");
    assert_eq!(&bytes[45..50], b"two\n\0");
    assert_eq!(&bytes[50..57], b"three\n\0");
    let mut end = 57;
    for i in 0..3 {
        let offset = u32_at(&bytes, 4 + 8 * i) as usize;
        let size = u32_at(&bytes, 8 + 8 * i) as usize;
        assert_eq!(offset, end);
        end = offset + size;
    }
    assert_eq!(end, bytes.len());
}

#[test]
fn kub_offsets_follow_the_index() {
    let mut builder = Builder::new(ArchiveType::Kub);
    builder.add_file("x", &[0x00, 0x00, 0x00, 0x00, 0x11]).unwrap();
    builder.add_file("y", &[0x01, 0x00, 0x00, 0x00]).unwrap();
    builder.add_file("z", &[0x00, 0x00, 0x00, 0x00, 0x22, 0x33]).unwrap();
    let bytes = builder.pack().unwrap();
    assert_eq!(u32_at(&bytes, 0), 3);
    assert_eq!(u32_at(&bytes, 4), 4 + 3 * 8);
    assert_eq!(u32_at(&bytes, 8), 5);
    assert_eq!(u32_at(&bytes, 12), 33);
    assert_eq!(u32_at(&bytes, 16), 4);
    assert_eq!(u32_at(&bytes, 20), 37);
    assert_eq!(u32_at(&bytes, 24), 6);
    assert_eq!(bytes.len(), 43);
}
