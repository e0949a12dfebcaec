use pakkub::archive::{Archive, ArchiveType, Unpacked};
use pakkub::args::{ArgumentError, Arguments, Command};
use pakkub::builder::Builder;
use pakkub::extract::OutputNames;

fn strings(items: &[&str]) -> Vec<String> {
    items.iter().map(|s| s.to_string()).collect()
}

fn arguments(extract: bool, create: bool, pak: bool, kub: bool, files: &[&str]) -> Arguments {
    Arguments { extract, create, pak, kub, files: strings(files) }
}

#[test]
fn named_entries_keep_their_names() {
    let mut names = OutputNames::new();
    assert_eq!(names.assign(&Some("a.txt".to_string())), "a.txt");
    assert_eq!(names.assign(&Some("b.bin".to_string())), "b.bin");
}

#[test]
fn entries_without_a_name_are_numbered_from_one() {
    let mut names = OutputNames::new();
    assert_eq!(names.assign(&None), "FILE 1");
    assert_eq!(names.assign(&None), "FILE 2");
    for _ in 2..9 {
        names.assign(&None);
    }
    assert_eq!(names.assign(&None), "FILE 10");
    assert_eq!(names.assign(&None), "FILE 11");
}

#[test]
fn duplicates_are_numbered_from_the_second_on() {
    let mut names = OutputNames::new();
    assert_eq!(names.assign(&Some("name".to_string())), "name");
    assert_eq!(names.assign(&Some("name".to_string())), "name-1");
    assert_eq!(names.assign(&Some("other".to_string())), "other");
    assert_eq!(names.assign(&Some("name".to_string())), "name-2");
    assert_eq!(names.assign(&Some("other".to_string())), "other-1");
}

#[test]
fn the_thirteenth_of_a_name_gets_twelve() {
    let mut names = OutputNames::new();
    let mut last = String::new();
    for _ in 0..13 {
        last = names.assign(&Some("n".to_string()));
    }
    assert_eq!(last, "n-12");
}

#[test]
fn a_name_that_looks_like_a_number_counts_as_a_duplicate() {
    let mut names = OutputNames::new();
    assert_eq!(names.assign(&None), "FILE 1");
    assert_eq!(names.assign(&Some("FILE 1".to_string())), "FILE 1-1");
}

#[test]
fn pak_with_two_inputs_of_one_name_extracts_both() {
    let mut builder = Builder::new(ArchiveType::Pak);
    builder.add_file("dup.txt", b"A").unwrap();
    builder.add_file("dup.txt", b"B").unwrap();
    let mut archive = Archive::open(builder.pack().unwrap());
    let mut entries = archive.entries().unwrap();
    let mut names = OutputNames::new();
    let mut written = Vec::new();
    while let Some(entry) = entries.next() {
        written.push((names.assign(&entry.name), entry.unpack().unwrap()));
    }
    assert_eq!(
        written,
        vec![
            ("dup.txt".to_string(), Unpacked::Contents(b"A".to_vec())),
            ("dup.txt-1".to_string(), Unpacked::Contents(b"B".to_vec())),
        ]
    );
}

#[test]
fn kub_entries_extract_as_file_one_and_two() {
    let mut builder = Builder::new(ArchiveType::Kub);
    builder.add_file("a.txt", &[0x00, 0x00, 0x00, 0x00, 0x68]).unwrap();
    builder.add_file("b.bin", &[0x01, 0x00, 0x00, 0x00, 0x00]).unwrap();
    let mut archive = Archive::open(builder.pack().unwrap());
    let mut entries = archive.entries().unwrap();
    let mut names = OutputNames::new();
    let mut written = Vec::new();
    while let Some(entry) = entries.next() {
        written.push(names.assign(&entry.name));
    }
    assert_eq!(written, vec!["FILE 1".to_string(), "FILE 2".to_string()]);
}

#[test]
fn extract_with_one_argument_goes_to_the_current_directory() {
    let command = arguments(true, false, false, false, &["in.pak"]).command();
    assert_eq!(
        command,
        Ok(Command::Extract { archive: "in.pak".to_string(), out_dir: ".".to_string() })
    );
}

#[test]
fn extract_with_two_arguments_names_the_directory() {
    let command = arguments(true, false, false, false, &["in.pak", "out"]).command();
    assert_eq!(
        command,
        Ok(Command::Extract { archive: "in.pak".to_string(), out_dir: "out".to_string() })
    );
}

#[test]
fn no_operation_means_extract() {
    let command = arguments(false, false, false, false, &["in.kub"]).command();
    assert_eq!(
        command,
        Ok(Command::Extract { archive: "in.kub".to_string(), out_dir: ".".to_string() })
    );
}

#[test]
fn extract_wants_one_or_two_arguments() {
    assert_eq!(
        arguments(true, false, false, false, &[]).command(),
        Err(ArgumentError::ExtractArguments)
    );
    assert_eq!(
        arguments(true, false, false, false, &["a", "b", "c"]).command(),
        Err(ArgumentError::ExtractArguments)
    );
}

#[test]
fn create_defaults_to_pak() {
    let command = arguments(false, true, false, false, &["out.pak", "a", "b"]).command();
    assert_eq!(
        command,
        Ok(Command::Create {
            archive: "out.pak".to_string(),
            ty: ArchiveType::Pak,
            inputs: strings(&["a", "b"]),
        })
    );
    let command = arguments(false, true, true, false, &["out.pak", "a"]).command();
    assert_eq!(
        command,
        Ok(Command::Create {
            archive: "out.pak".to_string(),
            ty: ArchiveType::Pak,
            inputs: strings(&["a"]),
        })
    );
}

#[test]
fn create_with_kub_flag_makes_a_kub() {
    let command = arguments(false, true, false, true, &["out.kub", "a"]).command();
    assert_eq!(
        command,
        Ok(Command::Create {
            archive: "out.kub".to_string(),
            ty: ArchiveType::Kub,
            inputs: strings(&["a"]),
        })
    );
}

#[test]
fn create_wants_an_output_and_an_input() {
    assert_eq!(
        arguments(false, true, false, false, &[]).command(),
        Err(ArgumentError::CreateArguments)
    );
    assert_eq!(
        arguments(false, true, false, false, &["out.pak"]).command(),
        Err(ArgumentError::CreateArguments)
    );
}

#[test]
fn both_operations_are_refused() {
    assert_eq!(
        arguments(true, true, false, false, &["out.pak", "a"]).command(),
        Err(ArgumentError::BothOperations)
    );
}
