//! What holds of the writer and the reader together.

use crate::archive::{unpacked, ArchiveType, EntryView, UnpackedView};
use crate::builder::stores;
use crate::codec::{has_zlib_magic, is_zlib_stream_of, zlib_deflated, ZLIB_MAGIC_0, ZLIB_MAGIC_1};
use crate::error::ArchiveError;
use crate::extract::{decimal_name, law_unnamed_are_numbered, output_name, unnamed};
use crate::handlers::{
    base_names, built_upto, creation, extracted_at, extracted_upto, extraction, well_coded,
    ExtractedView, InputView,
};
use crate::layout::{
    archive_bytes, archive_len, holds_at, join, lemma_holds_halves, lemma_join_holds,
    lemma_join_len_monotone, lemma_offsets, lemma_parts, lemma_sections, name_offset, name_record,
    payload_offset, payloads, payloads_start, PackEntry, LINE_FEED,
};
use crate::parse::{
    archive_type_of, entries_upto, entry_at, lemma_bytes_at, lemma_entries_read, lemma_line_at,
    lemma_name_read_is_kept, lemma_u32_at, name_at, parse, record_at, u16_at, u32_at, ZLIB_MAGIC,
};
use crate::text::{keeps, lemma_encode_no_line_feed, lemma_line_of_name};
use vstd::prelude::*;
use vstd::utf8::encode_utf8;

verus! {

/// Entry `i` as the reader finds it in the archive that was written from
/// `entries`.
pub open spec fn written_entry(ty: ArchiveType, entries: Seq<PackEntry>, i: int) -> EntryView {
    EntryView {
        name: match ty {
            ArchiveType::Pak => entries[i].name,
            ArchiveType::Kub => None,
        },
        offset: payload_offset(ty, entries, i) as u32,
        size: entries[i].payload.len() as u32,
        payload: entries[i].payload,
        ty,
    }
}

/// The first `k` entries as the reader finds them.
pub open spec fn written_entries(ty: ArchiveType, entries: Seq<PackEntry>, k: int) -> Seq<
    EntryView,
> {
    Seq::new(k as nat, |i: int| written_entry(ty, entries, i))
}

/// Every entry of a PAK archive has a name that the reader gives back as
/// it is.
pub open spec fn names_kept(ty: ArchiveType, entries: Seq<PackEntry>) -> bool {
    ty is Pak ==> forall|i: int|
        0 <= i < entries.len() ==> (#[trigger] entries[i]).name is Some && keeps(
            entries[i].name->Some_0,
        )
}

/// The reader takes the archive for what it is: there is a first payload,
/// the payloads hold two bytes or more, and the first two of them are
/// `78 9C` in a PAK archive and in no KUB archive.
pub open spec fn told_apart(ty: ArchiveType, entries: Seq<PackEntry>) -> bool {
    let blob = join(payloads(entries), entries.len() as int);
    &&& entries.len() >= 1
    &&& blob.len() >= 2
    &&& has_zlib_magic(blob) <==> ty is Pak
}

/// Entry `i` of a written archive is read as it was written.
pub proof fn lemma_entry_read_back(ty: ArchiveType, entries: Seq<PackEntry>, i: int)
    requires
        0 <= i < entries.len(),
        archive_len(ty, entries) <= u32::MAX,
        names_kept(ty, entries),
    ensures
        entry_at(archive_bytes(ty, entries), ty, entries.len() as int, i) == Ok::<
            EntryView,
            ArchiveError,
        >(written_entry(ty, entries, i)),
{
    let n = entries.len() as int;
    let data = archive_bytes(ty, entries);
    let e = entries[i];
    let offset = payload_offset(ty, entries, i) as u32;
    let size = e.payload.len() as u32;
    lemma_parts(ty, entries, i);
    lemma_offsets(ty, entries, i);
    lemma_offsets(ty, entries, i + 1);
    lemma_u32_at(data, 4 + 8 * i, offset);
    lemma_u32_at(data, 4 + 8 * i + 4, size);
    assert(record_at(data, i) == Some((offset, size)));
    lemma_bytes_at(data, payload_offset(ty, entries, i), e.payload);
    if ty is Pak {
        let name = e.name->Some_0;
        let at = name_offset(entries, i) as u32;
        lemma_u32_at(data, 4 + 8 * n + 4 * i, at);
        assert(name_record(e) =~= encode_utf8(name).push(LINE_FEED) + seq![0u8]);
        lemma_holds_halves(data, at as int, encode_utf8(name).push(LINE_FEED), seq![0u8]);
        lemma_encode_no_line_feed(name);
        lemma_line_at(data, at as int, encode_utf8(name));
        lemma_line_of_name(name);
        assert(name_at(data, n, i) == Ok::<Seq<char>, ArchiveError>(name));
    }
}

/// The first `k` entries of a written archive are read as they were
/// written.
pub proof fn lemma_entries_read_back(ty: ArchiveType, entries: Seq<PackEntry>, k: int)
    requires
        0 <= k <= entries.len(),
        archive_len(ty, entries) <= u32::MAX,
        names_kept(ty, entries),
    ensures
        entries_upto(archive_bytes(ty, entries), ty, entries.len() as int, k) == Ok::<
            Seq<EntryView>,
            ArchiveError,
        >(written_entries(ty, entries, k)),
    decreases k,
{
    if k > 0 {
        lemma_entries_read_back(ty, entries, k - 1);
        lemma_entry_read_back(ty, entries, k - 1);
        assert(written_entries(ty, entries, k) =~= written_entries(ty, entries, k - 1).push(
            written_entry(ty, entries, k - 1),
        ));
    } else {
        assert(written_entries(ty, entries, k) =~= Seq::<EntryView>::empty());
    }
}

/// The reader tells the two containers apart by two bytes: where the word
/// at byte 4 points at two bytes of the data, the archive is a PAK archive
/// if they are `78 9C`, and a KUB archive if they are anything else.
pub proof fn law_told_by_first_payload(data: Seq<u8>)
    requires
        u32_at(data, 4) is Some,
        u32_at(data, 4)->Some_0 + 2 <= data.len(),
    ensures
        archive_type_of(data) == Ok::<ArchiveType, ArchiveError>(
            if data[u32_at(data, 4)->Some_0 as int] == ZLIB_MAGIC_0 && data[u32_at(
                data,
                4,
            )->Some_0 + 1] == ZLIB_MAGIC_1 {
                ArchiveType::Pak
            } else {
                ArchiveType::Kub
            },
        ),
{
    let first = u32_at(data, 4)->Some_0 as int;
    let word = data.subrange(first, first + 2);
    assert(word[0] == data[first] && word[1] == data[first + 1]);
}

/// The word at `pos` is the zlib magic where the bytes that stand there
/// begin with `78 9C`, and only there.
pub proof fn lemma_magic_word(data: Seq<u8>, pos: int, part: Seq<u8>)
    requires
        holds_at(data, pos, part),
        part.len() >= 2,
    ensures
        u16_at(data, pos) is Some,
        u16_at(data, pos) == Some(ZLIB_MAGIC) <==> has_zlib_magic(part),
{
    let word = data.subrange(pos, pos + 2);
    assert(word[0] == part[0] && word[1] == part[1]) by {
        assert(data.subrange(pos, pos + part.len())[0] == data[pos]);
        assert(data.subrange(pos, pos + part.len())[1] == data[pos + 1]);
    }
}

/// What the reader takes a written archive for. Where the archive has an
/// entry and its payloads hold two bytes or more, those two bytes decide:
/// `78 9C` makes it a PAK archive, whatever it was written as, and anything
/// else a KUB archive.
pub proof fn law_type_of_written(ty: ArchiveType, entries: Seq<PackEntry>)
    requires
        entries.len() >= 1,
        join(payloads(entries), entries.len() as int).len() >= 2,
        archive_len(ty, entries) <= u32::MAX,
    ensures
        archive_type_of(archive_bytes(ty, entries)) == Ok::<ArchiveType, ArchiveError>(
            if has_zlib_magic(join(payloads(entries), entries.len() as int)) {
                ArchiveType::Pak
            } else {
                ArchiveType::Kub
            },
        ),
{
    let data = archive_bytes(ty, entries);
    let blob = join(payloads(entries), entries.len() as int);
    let start = payloads_start(ty, entries);
    assert(0 <= start <= u32::MAX && payload_offset(ty, entries, 0) == start) by {
        lemma_offsets(ty, entries, 0);
    }
    assert(u32_at(data, 4) == Some(start as u32)) by {
        lemma_parts(ty, entries, 0);
        lemma_u32_at(data, 4, start as u32);
    }
    assert(holds_at(data, start, blob)) by {
        lemma_sections(ty, entries);
    }
    lemma_magic_word(data, start, blob);
}

/// What was written is read back: an archive that the reader takes for
/// what it is, and whose names are kept, is read as the entries that were
/// written, in their order, each with its name, its place and its payload.
pub proof fn law_read_back(ty: ArchiveType, entries: Seq<PackEntry>)
    requires
        archive_len(ty, entries) <= u32::MAX,
        told_apart(ty, entries),
        names_kept(ty, entries),
    ensures
        parse(archive_bytes(ty, entries)) == Ok::<Seq<EntryView>, ArchiveError>(
            written_entries(ty, entries, entries.len() as int),
        ),
{
    let n = entries.len() as int;
    let data = archive_bytes(ty, entries);
    law_type_of_written(ty, entries);
    lemma_sections(ty, entries);
    lemma_offsets(ty, entries, 0);
    lemma_u32_at(data, 0, n as u32);
    lemma_entries_read_back(ty, entries, n);
}

/// What unpacking gives for a file that `add_file` took: the file's
/// contents from a PAK archive, and from a KUB archive the stream that was
/// handed in.
pub open spec fn given_back(ty: ArchiveType, data: Seq<u8>) -> UnpackedView {
    match ty {
        ArchiveType::Pak => UnpackedView::Contents(data),
        ArchiveType::Kub => UnpackedView::Lzrw1(data),
    }
}

/// The name under which the reader finds a file that was handed in under
/// `name`.
pub open spec fn name_read(ty: ArchiveType, name: Seq<char>) -> Option<Seq<char>> {
    match ty {
        ArchiveType::Pak => Some(name),
        ArchiveType::Kub => None,
    }
}

/// A PAK archive whose first payload is a zlib stream made here is taken
/// for a PAK archive.
pub proof fn lemma_pak_told_apart(entries: Seq<PackEntry>, first: Seq<u8>)
    requires
        entries.len() >= 1,
        is_zlib_stream_of(entries[0].payload, first),
    ensures
        told_apart(ArchiveType::Pak, entries),
{
    let n = entries.len() as int;
    let blob = join(payloads(entries), n);
    lemma_join_holds(payloads(entries), n, 0);
    let p = entries[0].payload;
    assert(blob.subrange(0, p.len() as int)[0] == blob[0]);
    assert(blob.subrange(0, p.len() as int)[1] == blob[1]);
}

/// Packing and then reading gives the files back. Let a builder take one
/// file or more through `add_file`, and let `pack` succeed. Then the reader
/// finds as many entries, in the same order. From a PAK archive each comes
/// with its name and unpacks to its contents, where no name holds a line
/// feed or ends in white space. From a KUB archive each comes without a
/// name and unpacks to the stream that was handed in, where the streams
/// together hold two bytes or more and do not begin with `78 9C`.
pub proof fn law_files_come_back(
    ty: ArchiveType,
    entries: Seq<PackEntry>,
    names: Seq<Seq<char>>,
    files: Seq<Seq<u8>>,
)
    requires
        entries.len() >= 1,
        entries.len() == names.len(),
        entries.len() == files.len(),
        forall|i: int| 0 <= i < entries.len() ==> stores(ty, #[trigger] entries[i], names[i], files[i]),
        archive_len(ty, entries) <= u32::MAX,
        ty is Pak ==> forall|i: int| 0 <= i < names.len() ==> keeps(#[trigger] names[i]),
        ty is Kub ==> told_apart(ty, entries),
    ensures
        parse(archive_bytes(ty, entries)) is Ok,
        parse(archive_bytes(ty, entries))->Ok_0.len() == entries.len(),
        forall|i: int|
            0 <= i < entries.len() ==> {
                let found = #[trigger] parse(archive_bytes(ty, entries))->Ok_0[i];
                &&& found.name == name_read(ty, names[i])
                &&& unpacked(found) == Ok::<UnpackedView, ArchiveError>(given_back(ty, files[i]))
            },
{
    if ty is Pak {
        assert(stores(ty, entries[0], names[0], files[0]));
        lemma_pak_told_apart(entries, files[0]);
        assert forall|i: int| 0 <= i < entries.len() implies (#[trigger] entries[i]).name is Some
            && keeps(entries[i].name->Some_0) by {
            assert(stores(ty, entries[i], names[i], files[i]));
            assert(keeps(names[i]));
        }
    }
    law_read_back(ty, entries);
    let all = parse(archive_bytes(ty, entries))->Ok_0;
    assert forall|i: int| 0 <= i < entries.len() implies {
        let found = #[trigger] all[i];
        &&& found.name == name_read(ty, names[i])
        &&& unpacked(found) == Ok::<UnpackedView, ArchiveError>(given_back(ty, files[i]))
    } by {
        assert(stores(ty, entries[i], names[i], files[i]));
        assert(all[i] == written_entry(ty, entries, i));
    }
}

/// The names of `inputs`, in order.
pub open spec fn input_names(inputs: Seq<InputView>) -> Seq<Seq<char>> {
    Seq::new(inputs.len(), |i: int| inputs[i].name)
}

/// The data of `inputs`, in order.
pub open spec fn input_data(inputs: Seq<InputView>) -> Seq<Seq<u8>> {
    Seq::new(inputs.len(), |i: int| inputs[i].data)
}

/// The name of the file that input `i` is extracted to: from a PAK archive
/// its own name, with a number behind it if an earlier input had that name;
/// from a KUB archive `FILE` and its place, counted from 1.
pub open spec fn name_extracted(ty: ArchiveType, inputs: Seq<InputView>, i: int) -> Seq<char> {
    match ty {
        ArchiveType::Pak => output_name(input_names(inputs).subrange(0, i), Some(inputs[i].name)),
        ArchiveType::Kub => decimal_name((i + 1) as nat),
    }
}

/// The entries that a builder holds after it took the first `k` inputs
/// are what `add_file` stores for each of them.
pub proof fn lemma_built(ty: ArchiveType, inputs: Seq<InputView>, k: int)
    requires
        0 <= k <= inputs.len(),
        built_upto(ty, inputs, k) is Some,
        well_coded(ty, inputs),
    ensures
        built_upto(ty, inputs, k)->Some_0.len() == k,
        forall|i: int|
            0 <= i < k ==> stores(
                ty,
                #[trigger] built_upto(ty, inputs, k)->Some_0[i],
                inputs[i].name,
                inputs[i].data,
            ),
    decreases k,
{
    if k > 0 {
        lemma_built(ty, inputs, k - 1);
        let before = built_upto(ty, inputs, k - 1)->Some_0;
        let all = built_upto(ty, inputs, k)->Some_0;
        assert forall|i: int| 0 <= i < k implies stores(
            ty,
            #[trigger] all[i],
            inputs[i].name,
            inputs[i].data,
        ) by {
            if i < k - 1 {
                assert(all[i] == before[i]);
            } else {
                assert(ty is Pak ==> is_zlib_stream_of(
                    zlib_deflated(inputs[i].data)->Some_0,
                    inputs[i].data,
                ));
            }
        }
    }
}

/// Where every one of the first `k` entries unpacks, extracting them gives
/// a file for each and no failure.
pub proof fn lemma_all_extracted(found: Seq<EntryView>, k: int)
    requires
        0 <= k <= found.len(),
        forall|i: int| 0 <= i < k ==> unpacked(#[trigger] found[i]) is Ok,
    ensures
        extracted_upto(found, k).failure is None,
        extracted_upto(found, k).files.len() == k,
        forall|i: int|
            0 <= i < k ==> extracted_at(found, i) == Ok::<ExtractedView, ArchiveError>(
                #[trigger] extracted_upto(found, k).files[i],
            ),
    decreases k,
{
    if k > 0 {
        lemma_all_extracted(found, k - 1);
        assert(unpacked(found[k - 1]) is Ok);
    }
}

/// Creating an archive and extracting it gives the files back. Let
/// `handle_create` succeed on one input or more, and let `handle_extract`
/// take the archive. Then it ends without a failure and gives as many files,
/// in the same order. From a PAK archive each has the contents of its
/// input, under the input's name, numbered if an earlier input had the
/// same; this holds where no name holds a line feed or ends in white space.
/// From a KUB archive each is the stream of its input, under `FILE 1`,
/// `FILE 2`, and so on; this holds where the streams together hold two
/// bytes or more and do not begin with `78 9C`.
pub proof fn law_create_then_extract(ty: ArchiveType, inputs: Seq<InputView>)
    requires
        inputs.len() >= 1,
        creation(ty, inputs) is Ok,
        well_coded(ty, inputs),
        ty is Pak ==> forall|i: int| 0 <= i < inputs.len() ==> keeps((#[trigger] inputs[i]).name),
        ty is Kub ==> told_apart(ty, built_upto(ty, inputs, inputs.len() as int)->Some_0),
    ensures
        extraction(creation(ty, inputs)->Ok_0).failure is None,
        extraction(creation(ty, inputs)->Ok_0).files.len() == inputs.len(),
        forall|i: int|
            0 <= i < inputs.len() ==> (#[trigger] extraction(
                creation(ty, inputs)->Ok_0,
            ).files[i]) == (ExtractedView {
                name: name_extracted(ty, inputs, i),
                contents: given_back(ty, inputs[i].data),
            }),
{
    let n = inputs.len() as int;
    let entries = built_upto(ty, inputs, n)->Some_0;
    let names = input_names(inputs);
    let data = input_data(inputs);
    lemma_built(ty, inputs, n);
    assert forall|i: int| 0 <= i < entries.len() implies stores(
        ty,
        #[trigger] entries[i],
        names[i],
        data[i],
    ) by {}
    assert(ty is Pak ==> forall|i: int| 0 <= i < names.len() ==> keeps(#[trigger] names[i])) by {
        if ty is Pak {
            assert forall|i: int| 0 <= i < names.len() implies keeps(#[trigger] names[i]) by {
                assert(keeps(inputs[i].name));
            }
        }
    }
    law_files_come_back(ty, entries, names, data);
    let found = parse(archive_bytes(ty, entries))->Ok_0;
    assert forall|i: int| 0 <= i < n implies unpacked(#[trigger] found[i]) is Ok by {}
    lemma_all_extracted(found, n);
    let files = extracted_upto(found, n).files;
    assert forall|i: int| 0 <= i < n implies (#[trigger] files[i]) == (ExtractedView {
        name: name_extracted(ty, inputs, i),
        contents: given_back(ty, inputs[i].data),
    }) by {
        assert(extracted_at(found, i) == Ok::<ExtractedView, ArchiveError>(files[i]));
        assert(found[i].name == name_read(ty, names[i]));
        assert(unpacked(found[i]) == Ok::<UnpackedView, ArchiveError>(given_back(ty, data[i])));
        match ty {
            ArchiveType::Pak => {
                assert(base_names(found, i) =~= names.subrange(0, i)) by {
                    assert forall|j: int| 0 <= j < i implies base_names(found, i)[j]
                        == names.subrange(0, i)[j] by {
                        assert(found[j].name == name_read(ty, names[j]));
                    }
                }
            },
            ArchiveType::Kub => {
                assert(base_names(found, i) =~= unnamed(i as nat)) by {
                    assert forall|j: int| 0 <= j < i implies base_names(found, i)[j] == unnamed(
                        i as nat,
                    )[j] by {
                        assert(found[j].name == name_read(ty, names[j]));
                    }
                }
                law_unnamed_are_numbered(i as nat);
            },
        }
    }
}

/// Reading a PAK archive, writing every entry back and reading again
/// gives the same entries. Let a PAK archive be read with one entry or
/// more, let each entry unpack, let a builder take each name with the
/// unpacked contents through `add_file`, and let `pack` succeed. Then the
/// reader finds in the new archive as many entries, in the same order, each
/// with the name and the contents that it had.
pub proof fn law_rewritten_pak(
    data: Seq<u8>,
    files: Seq<Seq<u8>>,
    entries: Seq<PackEntry>,
)
    requires
        archive_type_of(data) == Ok::<ArchiveType, ArchiveError>(ArchiveType::Pak),
        parse(data) is Ok,
        parse(data)->Ok_0.len() >= 1,
        parse(data)->Ok_0.len() == files.len(),
        parse(data)->Ok_0.len() == entries.len(),
        forall|i: int|
            0 <= i < files.len() ==> unpacked(#[trigger] parse(data)->Ok_0[i]) == Ok::<
                UnpackedView,
                ArchiveError,
            >(UnpackedView::Contents(files[i])),
        forall|i: int|
            0 <= i < entries.len() ==> (#[trigger] entries[i]).name == parse(data)->Ok_0[i].name
                && is_zlib_stream_of(entries[i].payload, files[i]),
        archive_len(ArchiveType::Pak, entries) <= u32::MAX,
    ensures
        parse(archive_bytes(ArchiveType::Pak, entries)) is Ok,
        parse(archive_bytes(ArchiveType::Pak, entries))->Ok_0.len() == parse(data)->Ok_0.len(),
        forall|i: int|
            0 <= i < entries.len() ==> {
                let again = #[trigger] parse(archive_bytes(ArchiveType::Pak, entries))->Ok_0[i];
                &&& again.name == parse(data)->Ok_0[i].name
                &&& unpacked(again) == unpacked(parse(data)->Ok_0[i])
            },
{
    let ty = ArchiveType::Pak;
    let found = parse(data)->Ok_0;
    let count = u32_at(data, 0)->Some_0 as int;
    lemma_entries_read(data, ty, count, count);
    assert(found.len() == count);
    assert forall|i: int| 0 <= i < entries.len() implies (#[trigger] entries[i]).name is Some
        && keeps(entries[i].name->Some_0) by {
        assert(entry_at(data, ty, count, i) == Ok::<EntryView, ArchiveError>(found[i]));
        lemma_name_read_is_kept(data, count, i);
    }
    lemma_pak_told_apart(entries, files[0]);
    law_read_back(ty, entries);
    let all = parse(archive_bytes(ty, entries))->Ok_0;
    assert forall|i: int| 0 <= i < entries.len() implies {
        let again = #[trigger] all[i];
        &&& again.name == found[i].name
        &&& unpacked(again) == unpacked(found[i])
    } by {
        assert(all[i] == written_entry(ty, entries, i));
        assert(is_zlib_stream_of(entries[i].payload, files[i]));
        assert(unpacked(found[i]) == Ok::<UnpackedView, ArchiveError>(
            UnpackedView::Contents(files[i]),
        ));
    }
}

/// The width of what an archive of type `ty` holds per entry before its
/// names and payloads: a record of the index, and in a PAK archive a name
/// offset.
pub open spec fn tables_width(ty: ArchiveType) -> int {
    match ty {
        ArchiveType::Pak => 12,
        ArchiveType::Kub => 8,
    }
}

/// The shape of every archive that `pack` returns. Its first four bytes
/// spell the number of entries. The index holds for each entry the offset
/// and the size of its payload, and the payload stands there. The first
/// payload stands behind the tables, each payload ends where the next
/// begins or before it, and the last ends with the archive.
pub proof fn law_layout(ty: ArchiveType, entries: Seq<PackEntry>)
    requires
        archive_len(ty, entries) <= u32::MAX,
    ensures
        u32_at(archive_bytes(ty, entries), 0) == Some(entries.len() as u32),
        forall|i: int|
            0 <= i < entries.len() ==> {
                let record = #[trigger] record_at(archive_bytes(ty, entries), i);
                &&& record is Some
                &&& record->Some_0.1 == entries[i].payload.len()
                &&& holds_at(archive_bytes(ty, entries), record->Some_0.0 as int, entries[i].payload)
                &&& record->Some_0.0 >= 4 + tables_width(ty) * entries.len()
            },
        forall|i: int, j: int|
            0 <= i < j < entries.len() ==> (#[trigger] record_at(
                archive_bytes(ty, entries),
                i,
            ))->Some_0.0 + record_at(archive_bytes(ty, entries), i)->Some_0.1 <= (#[trigger] record_at(
                archive_bytes(ty, entries),
                j,
            ))->Some_0.0,
{
    let n = entries.len() as int;
    let data = archive_bytes(ty, entries);
    lemma_sections(ty, entries);
    lemma_offsets(ty, entries, 0);
    lemma_u32_at(data, 0, n as u32);
    assert forall|i: int| 0 <= i < n implies {
        let record = #[trigger] record_at(data, i);
        &&& record == Some((payload_offset(ty, entries, i) as u32, entries[i].payload.len() as u32))
        &&& payload_offset(ty, entries, i) + entries[i].payload.len() == payload_offset(
            ty,
            entries,
            i + 1,
        )
        &&& holds_at(data, payload_offset(ty, entries, i), entries[i].payload)
        &&& 4 + tables_width(ty) * n <= payload_offset(ty, entries, i) <= u32::MAX
    } by {
        lemma_parts(ty, entries, i);
        lemma_offsets(ty, entries, i);
        lemma_offsets(ty, entries, i + 1);
        lemma_u32_at(data, 4 + 8 * i, payload_offset(ty, entries, i) as u32);
        lemma_u32_at(data, 4 + 8 * i + 4, entries[i].payload.len() as u32);
    }
    assert forall|i: int, j: int| 0 <= i < j < n implies (#[trigger] record_at(
        data,
        i,
    ))->Some_0.0 + record_at(data, i)->Some_0.1 <= (#[trigger] record_at(data, j))->Some_0.0 by {
        lemma_join_len_monotone(payloads(entries), i + 1, j);
    }
}

/// A PAK archive says what it is: where the first file went through
/// `add_file`, the two bytes at the first payload's offset are `78 9C`.
pub proof fn law_pak_magic(entries: Seq<PackEntry>, first: Seq<u8>)
    requires
        entries.len() >= 1,
        is_zlib_stream_of(entries[0].payload, first),
        archive_len(ArchiveType::Pak, entries) <= u32::MAX,
    ensures
        record_at(archive_bytes(ArchiveType::Pak, entries), 0) is Some,
        ({
            let data = archive_bytes(ArchiveType::Pak, entries);
            let at = record_at(data, 0)->Some_0.0 as int;
            at + 2 <= data.len() && data[at] == ZLIB_MAGIC_0 && data[at + 1] == ZLIB_MAGIC_1
        }),
{
    let ty = ArchiveType::Pak;
    let data = archive_bytes(ty, entries);
    let p = entries[0].payload;
    law_layout(ty, entries);
    let at = record_at(data, 0)->Some_0.0 as int;
    assert(data.subrange(at, at + p.len())[0] == data[at]);
    assert(data.subrange(at, at + p.len())[1] == data[at + 1]);
}

/// The archive without entries is the four bytes `00 00 00 00`, whatever
/// its type. The reader, which looks for the first payload's offset behind
/// them, finds the data at their end and no entry.
pub proof fn law_empty_archive(ty: ArchiveType)
    ensures
        archive_len(ty, Seq::<PackEntry>::empty()) == 4,
        archive_bytes(ty, Seq::<PackEntry>::empty()) == seq![0u8, 0u8, 0u8, 0u8],
        parse(seq![0u8, 0u8, 0u8, 0u8]) == Err::<Seq<EntryView>, ArchiveError>(
            ArchiveError::UnexpectedEof,
        ),
{
    let none = Seq::<PackEntry>::empty();
    assert(archive_bytes(ty, none) =~= seq![0u8, 0u8, 0u8, 0u8]);
}

} // verus!
