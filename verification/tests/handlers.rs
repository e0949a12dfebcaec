use pakkub::archive::{ArchiveType, Unpacked};
use pakkub::error::ArchiveError;
use pakkub::handlers::{handle_create, handle_extract, Extracted, Extraction, Input};

fn input(name: &str, data: &[u8]) -> Input {
    Input { name: name.to_string(), data: data.to_vec() }
}

fn contents(name: &str, data: &[u8]) -> Extracted {
    Extracted { name: name.to_string(), contents: Unpacked::Contents(data.to_vec()) }
}

fn stream(name: &str, data: &[u8]) -> Extracted {
    Extracted { name: name.to_string(), contents: Unpacked::Lzrw1(data.to_vec()) }
}

#[test]
fn create_pak_then_extract_gives_the_files_back() {
    let inputs = vec![input("a.txt", b"hello\n"), input("b.bin", &[0x00, 0x01, 0x02, 0x03])];
    let bytes = handle_create(ArchiveType::Pak, &inputs).unwrap();
    assert_eq!(&bytes[..4], &[0x02, 0x00, 0x00, 0x00]);
    assert_eq!(
        handle_extract(bytes),
        Extraction {
            files: vec![
                contents("a.txt", b"hello\n"),
                contents("b.bin", &[0x00, 0x01, 0x02, 0x03]),
            ],
            failure: None,
        }
    );
}

#[test]
fn create_kub_then_extract_gives_file_one_and_two() {
    let first = [0x00, 0x00, 0x00, 0x00, b'h', b'e', b'l', b'l', b'o', b'\n'];
    let second = [0x01, 0x00, 0x00, 0x00, 0x00, 0x01, 0x02, 0x03];
    let inputs = vec![input("a.txt", &first), input("b.bin", &second)];
    let bytes = handle_create(ArchiveType::Kub, &inputs).unwrap();
    assert_eq!(
        handle_extract(bytes),
        Extraction {
            files: vec![stream("FILE 1", &first), stream("FILE 2", &second)],
            failure: None,
        }
    );
}

#[test]
fn two_inputs_named_alike_are_both_extracted() {
    let inputs = vec![input("dup.txt", b"A"), input("dup.txt", b"B")];
    let bytes = handle_create(ArchiveType::Pak, &inputs).unwrap();
    assert_eq!(
        handle_extract(bytes),
        Extraction {
            files: vec![contents("dup.txt", b"A"), contents("dup.txt-1", b"B")],
            failure: None,
        }
    );
}

#[test]
fn three_inputs_named_alike_are_numbered_in_order() {
    let inputs = vec![
        input("name", b"1"),
        input("other", b"2"),
        input("name", b"3"),
        input("name", b"4"),
    ];
    let bytes = handle_create(ArchiveType::Pak, &inputs).unwrap();
    let extraction = handle_extract(bytes);
    let names: Vec<&str> = extraction.files.iter().map(|f| f.name.as_str()).collect();
    assert_eq!(names, vec!["name", "other", "name-1", "name-2"]);
    assert_eq!(extraction.failure, None);
}

#[test]
fn no_inputs_make_four_zero_bytes_and_no_files() {
    let bytes = handle_create(ArchiveType::Pak, &Vec::new()).unwrap();
    assert_eq!(bytes, vec![0x00, 0x00, 0x00, 0x00]);
    let extraction = handle_extract(bytes);
    assert!(extraction.files.is_empty());
    assert_eq!(extraction.failure, Some(ArchiveError::UnexpectedEof));
}

#[test]
fn twelve_kub_entries_are_numbered_in_decimal() {
    let inputs: Vec<Input> = (0..12u8).map(|i| input("", &[0x00, 0x00, 0x00, 0x00, i])).collect();
    let bytes = handle_create(ArchiveType::Kub, &inputs).unwrap();
    let extraction = handle_extract(bytes);
    assert_eq!(extraction.failure, None);
    assert_eq!(extraction.files.len(), 12);
    assert_eq!(extraction.files[0].name, "FILE 1");
    assert_eq!(extraction.files[8].name, "FILE 9");
    assert_eq!(extraction.files[9].name, "FILE 10");
    assert_eq!(extraction.files[11].name, "FILE 12");
    assert_eq!(extraction.files[11].contents, Unpacked::Lzrw1(vec![0, 0, 0, 0, 11]));
}

#[test]
fn extraction_keeps_the_files_before_a_corrupt_entry() {
    // two PAK entries laid out by hand: the first a zlib stream of nothing, the second broken
    let good: [u8; 8] = [0x78, 0x9C, 0x03, 0x00, 0x00, 0x00, 0x00, 0x01];
    let bad: [u8; 4] = [0x78, 0x9C, 0xFF, 0xFF];
    let names = b"ok\n\0bad\n\0";
    let names_at = 4 + 2 * 12;
    let good_at = names_at + names.len() as u32;
    let bad_at = good_at + good.len() as u32;
    let mut bytes = Vec::new();
    bytes.extend_from_slice(&2u32.to_le_bytes());
    bytes.extend_from_slice(&good_at.to_le_bytes());
    bytes.extend_from_slice(&(good.len() as u32).to_le_bytes());
    bytes.extend_from_slice(&bad_at.to_le_bytes());
    bytes.extend_from_slice(&(bad.len() as u32).to_le_bytes());
    bytes.extend_from_slice(&names_at.to_le_bytes());
    bytes.extend_from_slice(&(names_at + 4).to_le_bytes());
    bytes.extend_from_slice(names);
    bytes.extend_from_slice(&good);
    bytes.extend_from_slice(&bad);
    assert_eq!(
        handle_extract(bytes),
        Extraction { files: vec![contents("ok", b"")], failure: Some(ArchiveError::Codec) }
    );
}

#[test]
fn extraction_of_unreadable_data_gives_no_files() {
    assert_eq!(
        handle_extract(vec![0x05, 0x00]),
        Extraction { files: Vec::new(), failure: Some(ArchiveError::UnexpectedEof) }
    );
}
