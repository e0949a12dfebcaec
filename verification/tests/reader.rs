use flate2::read::ZlibEncoder;
use flate2::Compression;
use pakkub::archive::{Archive, ArchiveType, Unpacked};
use pakkub::builder::Builder;
use pakkub::error::ArchiveError;
use std::io::Read;

fn deflate(contents: &[u8]) -> Vec<u8> {
    let mut out = Vec::new();
    ZlibEncoder::new(contents, Compression::default())
        .read_to_end(&mut out)
        .unwrap();
    out
}

fn le(n: u32) -> [u8; 4] {
    n.to_le_bytes()
}

/// A PAK archive of one entry, laid out by hand.
fn pak_by_hand(name_line: &[u8], payload: &[u8]) -> Vec<u8> {
    let name_at = 4 + 8 + 4;
    let payload_at = name_at + name_line.len() as u32;
    let mut bytes = Vec::new();
    bytes.extend_from_slice(&le(1));
    bytes.extend_from_slice(&le(payload_at));
    bytes.extend_from_slice(&le(payload.len() as u32));
    bytes.extend_from_slice(&le(name_at));
    bytes.extend_from_slice(name_line);
    bytes.extend_from_slice(payload);
    bytes
}

#[test]
fn pak_two_files_round_trip() {
    let mut builder = Builder::new(ArchiveType::Pak);
    builder.add_file("a.txt", b"hello\n").unwrap();
    builder.add_file("b.bin", &[0x00, 0x01, 0x02, 0x03]).unwrap();
    let bytes = builder.pack().unwrap();
    assert_eq!(&bytes[..4], &[0x02, 0x00, 0x00, 0x00]);

    let mut archive = Archive::open(bytes);
    let mut entries = archive.entries().unwrap();
    let first = entries.next().unwrap();
    assert_eq!(first.name.as_deref(), Some("a.txt"));
    assert_eq!(first.archive_type(), ArchiveType::Pak);
    assert_eq!(first.unpack(), Ok(Unpacked::Contents(b"hello\n".to_vec())));
    let second = entries.next().unwrap();
    assert_eq!(second.name.as_deref(), Some("b.bin"));
    assert_eq!(second.unpack(), Ok(Unpacked::Contents(vec![0, 1, 2, 3])));
    assert!(entries.next().is_none());
    assert!(entries.next().is_none());
}

#[test]
fn kub_two_files_round_trip() {
    let first_stream = vec![0x00, 0x00, 0x00, 0x00, b'h', b'e', b'l', b'l', b'o', b'\n'];
    let second_stream = vec![0x01, 0x00, 0x00, 0x00, 0x00, 0x01, 0x02, 0x03];
    let mut builder = Builder::new(ArchiveType::Kub);
    builder.add_file("a.txt", &first_stream).unwrap();
    builder.add_file("b.bin", &second_stream).unwrap();
    let bytes = builder.pack().unwrap();
    assert_eq!(&bytes[..4], &[0x02, 0x00, 0x00, 0x00]);

    let mut archive = Archive::open(bytes);
    let mut entries = archive.entries().unwrap();
    let first = entries.next().unwrap();
    assert_eq!(first.name, None);
    assert_eq!(first.offset, 20);
    assert_eq!(first.size, 10);
    assert_eq!(first.name(), &None);
    assert_eq!(first.offset(), 20);
    assert_eq!(first.size(), 10);
    assert_eq!(first.archive_type(), ArchiveType::Kub);
    assert_eq!(first.payload(), &first_stream[..]);
    assert_eq!(first.unpack(), Ok(Unpacked::Lzrw1(first_stream)));
    let second = entries.next().unwrap();
    assert_eq!(second.name, None);
    assert_eq!(second.offset, 30);
    assert_eq!(second.size, 8);
    assert_eq!(second.unpack(), Ok(Unpacked::Lzrw1(second_stream)));
    assert!(entries.next().is_none());
}

#[test]
fn single_entry_pak_round_trips() {
    let mut builder = Builder::new(ArchiveType::Pak);
    builder.add_file("only", b"one entry").unwrap();
    let mut archive = Archive::open(builder.pack().unwrap());
    let mut entries = archive.entries().unwrap();
    let entry = entries.next().unwrap();
    assert_eq!(entry.name.as_deref(), Some("only"));
    assert_eq!(entry.unpack(), Ok(Unpacked::Contents(b"one entry".to_vec())));
    assert!(entries.next().is_none());
}

#[test]
fn single_entry_kub_round_trips() {
    let stream = vec![0x01, 0x00, 0x00, 0x00, 0x2A];
    let mut builder = Builder::new(ArchiveType::Kub);
    builder.add_file("only", &stream).unwrap();
    let mut archive = Archive::open(builder.pack().unwrap());
    let mut entries = archive.entries().unwrap();
    let entry = entries.next().unwrap();
    assert_eq!(entry.name, None);
    assert_eq!(entry.unpack(), Ok(Unpacked::Lzrw1(stream)));
    assert!(entries.next().is_none());
}

#[test]
fn empty_file_round_trips_in_pak() {
    let mut builder = Builder::new(ArchiveType::Pak);
    builder.add_file("empty", b"").unwrap();
    let mut archive = Archive::open(builder.pack().unwrap());
    let mut entries = archive.entries().unwrap();
    assert_eq!(entries.next().unwrap().unpack(), Ok(Unpacked::Contents(Vec::new())));
}

#[test]
fn names_with_spaces_and_other_scripts_round_trip() {
    let names = ["my file.txt", "  leading", "naïve café.dat", "日本語 ファイル", "smile 😀.bin"];
    let mut builder = Builder::new(ArchiveType::Pak);
    for name in names.iter() {
        builder.add_file(name, name.as_bytes()).unwrap();
    }
    let mut archive = Archive::open(builder.pack().unwrap());
    let mut entries = archive.entries().unwrap();
    for name in names.iter() {
        let entry = entries.next().unwrap();
        assert_eq!(entry.name.as_deref(), Some(*name));
        assert_eq!(entry.unpack(), Ok(Unpacked::Contents(name.as_bytes().to_vec())));
    }
    assert!(entries.next().is_none());
}

#[test]
fn white_space_at_the_end_of_a_name_is_trimmed() {
    let bytes = pak_by_hand(b"name \t\r\n", &deflate(b"x"));
    let mut archive = Archive::open(bytes);
    let mut entries = archive.entries().unwrap();
    assert_eq!(entries.next().unwrap().name.as_deref(), Some("name"));
}

#[test]
fn unicode_white_space_at_the_end_of_a_name_is_trimmed() {
    let bytes = pak_by_hand("a b\u{00A0}\u{3000}\u{2003}\n".as_bytes(), &deflate(b"x"));
    let mut archive = Archive::open(bytes);
    let mut entries = archive.entries().unwrap();
    assert_eq!(entries.next().unwrap().name.as_deref(), Some("a b"));
}

#[test]
fn name_ends_at_the_first_line_feed() {
    let bytes = pak_by_hand(b"first\nsecond\n", &deflate(b"x"));
    let mut archive = Archive::open(bytes);
    let mut entries = archive.entries().unwrap();
    assert_eq!(entries.next().unwrap().name.as_deref(), Some("first"));
}

#[test]
fn name_without_line_feed_runs_to_the_end_of_the_data() {
    // the payload comes first here, the name last and without a line feed
    let payload = deflate(b"contents");
    let payload_at = 16u32;
    let name_at = payload_at + payload.len() as u32;
    let mut bytes = Vec::new();
    bytes.extend_from_slice(&le(1));
    bytes.extend_from_slice(&le(payload_at));
    bytes.extend_from_slice(&le(payload.len() as u32));
    bytes.extend_from_slice(&le(name_at));
    bytes.extend_from_slice(&payload);
    bytes.extend_from_slice(b"tail");
    let mut archive = Archive::open(bytes);
    let mut entries = archive.entries().unwrap();
    let entry = entries.next().unwrap();
    assert_eq!(entry.name.as_deref(), Some("tail"));
    assert_eq!(entry.unpack(), Ok(Unpacked::Contents(b"contents".to_vec())));
}

#[test]
fn name_offset_behind_the_end_gives_an_empty_name() {
    let payload = deflate(b"contents");
    let mut bytes = Vec::new();
    bytes.extend_from_slice(&le(1));
    bytes.extend_from_slice(&le(16));
    bytes.extend_from_slice(&le(payload.len() as u32));
    bytes.extend_from_slice(&le(100_000));
    bytes.extend_from_slice(&payload);
    let mut archive = Archive::open(bytes);
    let mut entries = archive.entries().unwrap();
    assert_eq!(entries.next().unwrap().name.as_deref(), Some(""));
}

#[test]
fn name_that_is_not_utf8_is_refused() {
    let bytes = pak_by_hand(&[0xFF, 0xFE, 0x0A], &deflate(b"x"));
    let mut archive = Archive::open(bytes);
    assert!(matches!(archive.entries(), Err(ArchiveError::InvalidName)));
}

#[test]
fn first_payload_with_zlib_magic_is_read_as_pak() {
    let bytes = pak_by_hand(b"entry.bin\n\0", &deflate(b"classified"));
    let mut archive = Archive::open(bytes);
    let mut entries = archive.entries().unwrap();
    let entry = entries.next().unwrap();
    assert_eq!(entry.archive_type(), ArchiveType::Pak);
    assert_eq!(entry.name.as_deref(), Some("entry.bin"));
    assert_eq!(entry.offset, 27);
    assert_eq!(entry.unpack(), Ok(Unpacked::Contents(b"classified".to_vec())));
    assert!(entries.next().is_none());
}

#[test]
fn first_payload_without_zlib_magic_is_read_as_kub() {
    let mut bytes = Vec::new();
    bytes.extend_from_slice(&le(1));
    bytes.extend_from_slice(&le(12));
    bytes.extend_from_slice(&le(3));
    bytes.extend_from_slice(&[0x78, 0x9D, 0x01]);
    let mut archive = Archive::open(bytes);
    let mut entries = archive.entries().unwrap();
    let entry = entries.next().unwrap();
    assert_eq!(entry.archive_type(), ArchiveType::Kub);
    assert_eq!(entry.name, None);
    assert_eq!(entry.unpack(), Ok(Unpacked::Lzrw1(vec![0x78, 0x9D, 0x01])));
    assert!(entries.next().is_none());
}

#[test]
fn kub_stream_that_starts_like_zlib_is_read_as_pak() {
    let mut builder = Builder::new(ArchiveType::Kub);
    builder.add_file("a", &[0x78, 0x9C, 0x00, 0x00]).unwrap();
    let mut archive = Archive::open(builder.pack().unwrap());
    let mut entries = archive.entries().unwrap();
    let entry = entries.next().unwrap();
    // taken for a PAK archive: the name offset is read out of the payload
    assert_eq!(entry.archive_type(), ArchiveType::Pak);
    assert_eq!(entry.name.as_deref(), Some(""));
    assert_eq!(entry.unpack(), Err(ArchiveError::Codec));
}

#[test]
fn empty_archive_yields_no_entry() {
    let mut archive = Archive::open(vec![0x00, 0x00, 0x00, 0x00]);
    assert!(matches!(archive.entries(), Err(ArchiveError::UnexpectedEof)));
}

#[test]
fn empty_pak_then_read_yields_no_entry() {
    let bytes = Builder::new(ArchiveType::Pak).pack().unwrap();
    assert_eq!(bytes, vec![0x00, 0x00, 0x00, 0x00]);
    let mut archive = Archive::open(bytes);
    assert!(archive.entries().is_err());
}

#[test]
fn count_zero_with_a_readable_word_behind_it_has_no_entries() {
    let mut bytes = Vec::new();
    bytes.extend_from_slice(&le(0));
    bytes.extend_from_slice(&le(8));
    bytes.extend_from_slice(&[0x00, 0x00]);
    let mut archive = Archive::open(bytes);
    let mut entries = archive.entries().unwrap();
    assert!(entries.next().is_none());
}

#[test]
fn data_shorter_than_the_first_record_is_refused() {
    let mut archive = Archive::open(vec![0x01, 0x00, 0x00, 0x00, 0x0C, 0x00]);
    assert!(matches!(archive.entries(), Err(ArchiveError::UnexpectedEof)));
    let mut archive = Archive::open(Vec::new());
    assert!(matches!(archive.entries(), Err(ArchiveError::UnexpectedEof)));
}

#[test]
fn first_offset_behind_the_end_is_refused() {
    let mut bytes = Vec::new();
    bytes.extend_from_slice(&le(1));
    bytes.extend_from_slice(&le(500));
    bytes.extend_from_slice(&le(1));
    let mut archive = Archive::open(bytes);
    assert!(matches!(archive.entries(), Err(ArchiveError::UnexpectedEof)));
}

#[test]
fn payload_that_runs_past_the_end_is_refused() {
    let mut bytes = Vec::new();
    bytes.extend_from_slice(&le(1));
    bytes.extend_from_slice(&le(12));
    bytes.extend_from_slice(&le(5));
    bytes.extend_from_slice(&[0x01, 0x02, 0x03, 0x04]);
    let mut archive = Archive::open(bytes);
    assert!(matches!(archive.entries(), Err(ArchiveError::UnexpectedEof)));
}

#[test]
fn count_larger_than_the_index_is_refused() {
    let mut bytes = Vec::new();
    bytes.extend_from_slice(&le(2));
    bytes.extend_from_slice(&le(12));
    bytes.extend_from_slice(&le(2));
    bytes.extend_from_slice(&[0x01, 0x02]);
    let mut archive = Archive::open(bytes);
    assert!(matches!(archive.entries(), Err(ArchiveError::UnexpectedEof)));
}

#[test]
fn entry_of_no_bytes_may_point_anywhere() {
    let mut bytes = Vec::new();
    bytes.extend_from_slice(&le(2));
    bytes.extend_from_slice(&le(20));
    bytes.extend_from_slice(&le(2));
    bytes.extend_from_slice(&le(0xFFFF_FFFF));
    bytes.extend_from_slice(&le(0));
    bytes.extend_from_slice(&[0x05, 0x06]);
    let mut archive = Archive::open(bytes);
    let mut entries = archive.entries().unwrap();
    assert_eq!(entries.next().unwrap().unpack(), Ok(Unpacked::Lzrw1(vec![0x05, 0x06])));
    let second = entries.next().unwrap();
    assert_eq!(second.offset, 0xFFFF_FFFF);
    assert_eq!(second.size, 0);
    assert_eq!(second.unpack(), Ok(Unpacked::Lzrw1(Vec::new())));
}

#[test]
fn corrupt_zlib_stream_is_a_codec_error() {
    let bytes = pak_by_hand(b"bad\n\0", &[0x78, 0x9C, 0xFF, 0xFF, 0xFF, 0xFF]);
    let mut archive = Archive::open(bytes);
    let mut entries = archive.entries().unwrap();
    let entry = entries.next().unwrap();
    assert_eq!(entry.name.as_deref(), Some("bad"));
    assert_eq!(entry.unpack(), Err(ArchiveError::Codec));
}

#[test]
fn truncated_zlib_stream_is_a_codec_error() {
    let whole = deflate(b"some contents that will be cut short");
    let bytes = pak_by_hand(b"cut\n\0", &whole[..whole.len() / 2]);
    let mut archive = Archive::open(bytes);
    let mut entries = archive.entries().unwrap();
    assert_eq!(entries.next().unwrap().unpack(), Err(ArchiveError::Codec));
}

#[test]
fn reading_then_writing_back_gives_the_same_entries() {
    let mut builder = Builder::new(ArchiveType::Pak);
    builder.add_file("x.dat", &[7u8; 300]).unwrap();
    builder.add_file("y z.dat", b"abcabcabc").unwrap();
    let packed = builder.pack().unwrap();

    let mut archive = Archive::open(packed);
    let mut rebuilt = Builder::new(ArchiveType::Pak);
    let mut entries = archive.entries().unwrap();
    let mut contents = Vec::new();
    while let Some(entry) = entries.next() {
        match entry.unpack().unwrap() {
            Unpacked::Contents(c) => {
                rebuilt.add_file(entry.name.as_deref().unwrap(), &c).unwrap();
                contents.push(c);
            }
            Unpacked::Lzrw1(_) => unreachable!(),
        }
    }
    assert_eq!(rebuilt.len(), 2);

    let mut again = Archive::open(rebuilt.pack().unwrap());
    let mut entries = again.entries().unwrap();
    let first = entries.next().unwrap();
    assert_eq!(first.name.as_deref(), Some("x.dat"));
    assert_eq!(first.unpack(), Ok(Unpacked::Contents(contents[0].clone())));
    let second = entries.next().unwrap();
    assert_eq!(second.name.as_deref(), Some("y z.dat"));
    assert_eq!(second.unpack(), Ok(Unpacked::Contents(contents[1].clone())));
    assert!(entries.next().is_none());
}

#[test]
fn entries_can_be_read_twice() {
    let mut builder = Builder::new(ArchiveType::Pak);
    builder.add_file("a", b"1").unwrap();
    let mut archive = Archive::open(builder.pack().unwrap());
    {
        let mut entries = archive.entries().unwrap();
        assert!(entries.next().is_some());
        assert!(entries.next().is_none());
    }
    let mut entries = archive.entries().unwrap();
    assert_eq!(entries.next().unwrap().name.as_deref(), Some("a"));
    assert!(entries.next().is_none());
}
