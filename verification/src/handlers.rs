//! The two operations: extracting an archive and creating one.
//!
//! Both work on what the caller read from disk and return what it is to
//! write there.

use crate::archive::{unpacked, Archive, ArchiveType, EntryView, Unpacked, UnpackedView};
use crate::builder::{packed, stored_entry, stores, Builder};
use crate::codec::{is_zlib_stream_of, zlib_deflated};
use crate::error::ArchiveError;
use crate::extract::{base_name, output_name, OutputNames};
use crate::layout::{archive_bytes, archive_len, PackEntry};
use crate::parse::parse;
use vstd::prelude::*;

verus! {

/// A file that extracting an archive gives: the name to write it under, in
/// the output directory, and what unpacking the entry gave.
#[derive(Debug, PartialEq, Eq)]
pub struct Extracted {
    pub name: String,
    pub contents: Unpacked,
}

/// What extracting an archive gives: the files of the entries that could be
/// unpacked, in index order, and the failure that ended the work, if one
/// did.
#[derive(Debug, PartialEq, Eq)]
pub struct Extraction {
    pub files: Vec<Extracted>,
    pub failure: Option<ArchiveError>,
}

/// A file that goes into an archive: its name, without any directory, and
/// its bytes.
#[derive(Debug, PartialEq, Eq)]
pub struct Input {
    pub name: String,
    pub data: Vec<u8>,
}

/// An extracted file, as mathematics.
pub struct ExtractedView {
    pub name: Seq<char>,
    pub contents: UnpackedView,
}

/// An extraction, as mathematics.
pub struct ExtractionView {
    pub files: Seq<ExtractedView>,
    pub failure: Option<ArchiveError>,
}

/// An input file, as mathematics.
pub struct InputView {
    pub name: Seq<char>,
    pub data: Seq<u8>,
}

impl View for Extracted {
    type V = ExtractedView;

    open spec fn view(&self) -> ExtractedView {
        ExtractedView { name: self.name@, contents: self.contents@ }
    }
}

impl View for Extraction {
    type V = ExtractionView;

    open spec fn view(&self) -> ExtractionView {
        ExtractionView { files: extracted_views(self.files@), failure: self.failure }
    }
}

impl View for Input {
    type V = InputView;

    open spec fn view(&self) -> InputView {
        InputView { name: self.name@, data: self.data@ }
    }
}

/// The views of `files`, in order.
pub open spec fn extracted_views(files: Seq<Extracted>) -> Seq<ExtractedView> {
    Seq::new(files.len(), |i: int| files[i]@)
}

/// The views of `inputs`, in order.
pub open spec fn input_views(inputs: Seq<Input>) -> Seq<InputView> {
    Seq::new(inputs.len(), |i: int| inputs[i]@)
}

/// The base names of the first `k` of `found`.
pub open spec fn base_names(found: Seq<EntryView>, k: int) -> Seq<Seq<char>> {
    Seq::new(k as nat, |i: int| base_name(found[i].name, i as nat))
}

/// The file that entry `i` of `found` is extracted to, or why it cannot
/// be unpacked.
pub open spec fn extracted_at(found: Seq<EntryView>, i: int) -> Result<
    ExtractedView,
    ArchiveError,
> {
    match unpacked(found[i]) {
        Ok(contents) => Ok(
            ExtractedView { name: output_name(base_names(found, i), found[i].name), contents },
        ),
        Err(e) => Err(e),
    }
}

/// What extracting the first `k` of `found` gives: the work ends at the
/// first entry that cannot be unpacked.
pub open spec fn extracted_upto(found: Seq<EntryView>, k: int) -> ExtractionView
    decreases k,
{
    if k <= 0 {
        ExtractionView { files: Seq::empty(), failure: None }
    } else {
        let before = extracted_upto(found, k - 1);
        if before.failure is Some {
            before
        } else {
            match extracted_at(found, k - 1) {
                Ok(file) => ExtractionView { files: before.files.push(file), failure: None },
                Err(e) => ExtractionView { files: before.files, failure: Some(e) },
            }
        }
    }
}

/// What extracting the archive `data` gives.
pub open spec fn extraction(data: Seq<u8>) -> ExtractionView {
    match parse(data) {
        Ok(found) => extracted_upto(found, found.len() as int),
        Err(e) => ExtractionView { files: Seq::empty(), failure: Some(e) },
    }
}

/// The entries that a builder for `ty` holds after it took the first `k`
/// of `inputs`; `None` where zlib failed on one of them.
pub open spec fn built_upto(ty: ArchiveType, inputs: Seq<InputView>, k: int) -> Option<
    Seq<PackEntry>,
>
    decreases k,
{
    if k <= 0 {
        Some(Seq::empty())
    } else {
        match (built_upto(ty, inputs, k - 1), packed(ty, inputs[k - 1].data)) {
            (Some(entries), Some(payload)) => Some(
                entries.push(stored_entry(ty, inputs[k - 1].name, payload)),
            ),
            _ => None,
        }
    }
}

/// The archive of type `ty` that holds `inputs`, or why there is none.
pub open spec fn creation(ty: ArchiveType, inputs: Seq<InputView>) -> Result<
    Seq<u8>,
    ArchiveError,
> {
    match built_upto(ty, inputs, inputs.len() as int) {
        None => Err(ArchiveError::Codec),
        Some(entries) => if archive_len(ty, entries) <= u32::MAX {
            Ok(archive_bytes(ty, entries))
        } else {
            Err(ArchiveError::TooLarge)
        },
    }
}

/// zlib kept its word on the inputs of a PAK archive: the stream that it
/// made of each begins with `78 9C` and inflates to the input. This is what
/// `handle_create` learns from the encoder for the inputs that it packed.
pub open spec fn well_coded(ty: ArchiveType, inputs: Seq<InputView>) -> bool {
    ty is Pak ==> forall|i: int|
        0 <= i < inputs.len() ==> is_zlib_stream_of(
            zlib_deflated((#[trigger] inputs[i]).data)->Some_0,
            inputs[i].data,
        )
}

/// Once the work has failed, it stays where it is.
pub proof fn lemma_extraction_ended(found: Seq<EntryView>, k: int, m: int)
    requires
        k <= m,
        extracted_upto(found, k).failure is Some,
    ensures
        extracted_upto(found, m) == extracted_upto(found, k),
    decreases m - k,
{
    if k < m {
        lemma_extraction_ended(found, k, m - 1);
    }
}

/// Where the work has not failed before entry `i` and that entry unpacks,
/// its file is the next.
pub proof fn lemma_extraction_goes_on(found: Seq<EntryView>, i: int)
    requires
        0 <= i,
        extracted_upto(found, i).failure is None,
        extracted_at(found, i) is Ok,
    ensures
        extracted_upto(found, i + 1) == (ExtractionView {
            files: extracted_upto(found, i).files.push(extracted_at(found, i)->Ok_0),
            failure: None,
        }),
{
}

/// Where the work has not failed before entry `i` and that entry does not
/// unpack, the work ends there.
pub proof fn lemma_extraction_ends(found: Seq<EntryView>, i: int, n: int)
    requires
        0 <= i < n,
        extracted_upto(found, i).failure is None,
        extracted_at(found, i) is Err,
    ensures
        extracted_upto(found, n) == (ExtractionView {
            files: extracted_upto(found, i).files,
            failure: Some(extracted_at(found, i)->Err_0),
        }),
{
    assert(extracted_upto(found, i + 1).failure is Some);
    lemma_extraction_ended(found, i + 1, n);
}

/// Once zlib has failed on an input, no archive is built.
pub proof fn lemma_building_ended(ty: ArchiveType, inputs: Seq<InputView>, k: int, m: int)
    requires
        k <= m,
        built_upto(ty, inputs, k) is None,
    ensures
        built_upto(ty, inputs, m) is None,
    decreases m - k,
{
    if k < m {
        lemma_building_ended(ty, inputs, k, m - 1);
    }
}

/// Extracts the archive `data`: reads its entries, gives each the name of
/// its output file and unpacks it. The payloads of a KUB archive come out
/// as LZRW1 streams, for the caller's decoder.
///
/// Stops at the first entry that cannot be unpacked; the files before it
/// stand in the result, with the failure.
pub fn handle_extract(data: Vec<u8>) -> (r: Extraction)
    ensures
        r@ == extraction(data@),
{
    let ghost bytes = data@;
    let mut archive = Archive::open(data);
    let mut entries = match archive.entries() {
        Ok(entries) => entries,
        Err(e) => {
            let r = Extraction { files: Vec::new(), failure: Some(e) };
            assert(r@.files =~= Seq::<ExtractedView>::empty());
            return r;
        },
    };
    let ghost found = parse(bytes)->Ok_0;
    let ghost n = found.len() as int;
    let mut names = OutputNames::new();
    let mut files: Vec<Extracted> = Vec::new();
    assert(extracted_views(files@) =~= Seq::<ExtractedView>::empty());
    assert(names@ =~= base_names(found, 0));
    assert(entries.remaining() =~= found.subrange(0, n));
    loop
        invariant
            bytes == data@,
            parse(bytes) == Ok::<Seq<EntryView>, ArchiveError>(found),
            n == found.len(),
            files@.len() <= n,
            entries.remaining() == found.subrange(files@.len() as int, n),
            names@ == base_names(found, files@.len() as int),
            extracted_upto(found, files@.len() as int) == (ExtractionView {
                files: extracted_views(files@),
                failure: None,
            }),
        decreases n - files@.len(),
    {
        let ghost i = files@.len() as int;
        let ghost before = extracted_views(files@);
        assert(entries.remaining().len() == n - i);
        let e = match entries.next() {
            Some(e) => e,
            None => {
                return Extraction { files, failure: None };
            },
        };
        assert(e@ == found[i]) by {
            assert(found.subrange(i, n)[0] == found[i]);
        }
        assert(entries.remaining() =~= found.subrange(i + 1, n));
        let name = names.assign(e.name());
        assert(names@ =~= base_names(found, i + 1));
        match e.unpack() {
            Ok(contents) => {
                files.push(Extracted { name, contents });
                proof {
                    lemma_extraction_goes_on(found, i);
                    assert(extracted_views(files@) =~= before.push(extracted_at(found, i)->Ok_0));
                }
            },
            Err(failure) => {
                proof {
                    lemma_extraction_ends(found, i, n);
                }
                return Extraction { files, failure: Some(failure) };
            },
        }
    }
}

/// Creates the archive of type `ty` that holds `inputs`, in their order.
/// For a PAK archive each input is a file's name and contents; for a KUB
/// archive the data of each input are the file's LZRW1 stream, and the
/// names are dropped.
///
/// Fails with `Codec` where zlib fails on an input, and with `TooLarge`
/// where the archive would be longer than 32-bit offsets can address.
pub fn handle_create(ty: ArchiveType, inputs: &Vec<Input>) -> (r: Result<Vec<u8>, ArchiveError>)
    ensures
        match creation(ty, input_views(inputs@)) {
            Ok(bytes) => r matches Ok(got) && got@ == bytes,
            Err(e) => r matches Err(x) && x == e,
        },
        r is Ok ==> well_coded(ty, input_views(inputs@)),
{
    let ghost all = input_views(inputs@);
    let mut builder = Builder::new(ty);
    let mut i: usize = 0;
    while i < inputs.len()
        invariant
            i <= inputs@.len(),
            all == input_views(inputs@),
            builder@.ty == ty,
            built_upto(ty, all, i as int) == Some(builder@.entries),
            well_coded(ty, all.subrange(0, i as int)),
        decreases inputs@.len() - i,
    {
        let input = &inputs[i];
        assert(all[i as int] == input@);
        let ghost before = all.subrange(0, i as int);
        match builder.add_file(input.name.as_str(), input.data.as_slice()) {
            Ok(()) => {},
            Err(e) => {
                proof {
                    lemma_building_ended(ty, all, i + 1, all.len() as int);
                }
                return Err(e);
            },
        }
        proof {
            let taken = all.subrange(0, i + 1);
            assert(stores(ty, builder@.entries.last(), input@.name, input@.data));
            assert forall|j: int| 0 <= j < taken.len() && ty is Pak implies is_zlib_stream_of(
                zlib_deflated((#[trigger] taken[j]).data)->Some_0,
                taken[j].data,
            ) by {
                if j < i {
                    assert(before[j] == taken[j]);
                }
            }
        }
        i += 1;
    }
    assert(all.subrange(0, i as int) =~= all);
    builder.pack()
}

} // verus!
