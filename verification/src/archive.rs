//! Reading an archive.

use crate::codec::{zlib_inflate, zlib_inflated};
use crate::error::ArchiveError;
use crate::layout::LINE_FEED;
use crate::le::{read_u16_le, read_u32_le};
use crate::parse::{
    archive_type_of, bytes_at, entries_upto, entry_at, lemma_first_failure, lemma_next_entry,
    line_at, line_end, name_at, parse, record_at, u16_at, u32_at, ZLIB_MAGIC,
};
use crate::text::{trim_end, utf8_str};
use vstd::prelude::*;
use vstd::slice::{slice_subrange, slice_to_vec};

verus! {

/// The two containers.
#[derive(Clone, Copy, Debug, PartialEq, Eq, Structural)]
pub enum ArchiveType {
    /// Named entries, zlib payloads.
    Pak,
    /// Anonymous entries, LZRW1 payloads.
    Kub,
}

/// An archive in memory, and the entries that were read from it.
pub struct Archive {
    entries: Vec<FileEntry>,
    data: Vec<u8>,
}

/// The entries of an archive, handed out one by one in index order.
pub struct ArchiveIterator<'a> {
    index: u32,
    len: u32,
    entries: &'a Vec<FileEntry>,
}

/// One entry of an archive that was read: where its payload stands, and the
/// payload itself, still compressed.
pub struct FileEntry {
    pub name: Option<String>,
    pub offset: u32,
    pub size: u32,
    buffer: Vec<u8>,
    ty: ArchiveType,
}

/// What an entry is, as mathematics.
pub struct EntryView {
    pub name: Option<Seq<char>>,
    pub offset: u32,
    pub size: u32,
    pub payload: Seq<u8>,
    pub ty: ArchiveType,
}

/// What unpacking an entry gives.
#[derive(Debug, PartialEq, Eq)]
pub enum Unpacked {
    /// The contents of a PAK entry.
    Contents(Vec<u8>),
    /// The payload of a KUB entry: an LZRW1 stream, which the caller's
    /// decoder turns into the contents.
    Lzrw1(Vec<u8>),
}

/// What unpacking an entry gives, as mathematics.
pub enum UnpackedView {
    Contents(Seq<u8>),
    Lzrw1(Seq<u8>),
}

impl View for Unpacked {
    type V = UnpackedView;

    open spec fn view(&self) -> UnpackedView {
        match self {
            Unpacked::Contents(c) => UnpackedView::Contents(c@),
            Unpacked::Lzrw1(s) => UnpackedView::Lzrw1(s@),
        }
    }
}

/// What unpacking `e` gives: zlib decides for a PAK entry, and a KUB entry
/// hands its payload on.
pub open spec fn unpacked(e: EntryView) -> Result<UnpackedView, ArchiveError> {
    match e.ty {
        ArchiveType::Pak => match zlib_inflated(e.payload) {
            Some(contents) => Ok(UnpackedView::Contents(contents)),
            None => Err(ArchiveError::Codec),
        },
        ArchiveType::Kub => Ok(UnpackedView::Lzrw1(e.payload)),
    }
}

/// The view of an optional name.
pub open spec fn name_view(name: Option<String>) -> Option<Seq<char>> {
    match name {
        Some(s) => Some(s@),
        None => None,
    }
}

/// The views of `entries`, in order.
pub open spec fn entry_views(entries: Seq<FileEntry>) -> Seq<EntryView> {
    Seq::new(entries.len(), |i: int| entries[i]@)
}

/// The 16-bit word at `pos`.
fn read_u16_at(data: &[u8], pos: u64) -> (r: Option<u16>)
    ensures
        r == u16_at(data@, pos as int),
{
    let len = data.len();
    if len < 2 || pos > (len - 2) as u64 {
        None
    } else {
        let at = pos as usize;
        Some(read_u16_le(slice_subrange(data, at, at + 2)))
    }
}

/// The 32-bit word at `pos`.
fn read_u32_at(data: &[u8], pos: u64) -> (r: Option<u32>)
    ensures
        r == u32_at(data@, pos as int),
{
    let len = data.len();
    if len < 4 || pos > (len - 4) as u64 {
        None
    } else {
        let at = pos as usize;
        Some(read_u32_le(slice_subrange(data, at, at + 4)))
    }
}

/// A copy of the `size` bytes at `pos`.
fn read_bytes_at(data: &[u8], pos: u32, size: u32) -> (r: Option<Vec<u8>>)
    ensures
        match r {
            Some(v) => bytes_at(data@, pos as int, size as int) == Some(v@),
            None => bytes_at(data@, pos as int, size as int) is None,
        },
{
    if size == 0 {
        Some(Vec::new())
    } else if pos as u64 + size as u64 > data.len() as u64 {
        None
    } else {
        let from = pos as usize;
        Some(slice_to_vec(slice_subrange(data, from, from + size as usize)))
    }
}

/// The line at `pos`, its line feed included.
fn read_line_at(data: &[u8], pos: u32) -> (r: &[u8])
    ensures
        r@ == line_at(data@, pos as int),
{
    let len = data.len();
    if pos as u64 >= len as u64 {
        return slice_subrange(data, 0, 0);
    }
    let from = pos as usize;
    let mut end = from;
    while end < len && data[end] != LINE_FEED
        invariant
            from <= end <= len,
            len == data@.len(),
            line_end(data@, from as int) == line_end(data@, end as int),
        decreases len - end,
    {
        end += 1;
    }
    if end < len {
        end += 1;
    }
    slice_subrange(data, from, end)
}

impl View for FileEntry {
    type V = EntryView;

    closed spec fn view(&self) -> EntryView {
        EntryView {
            name: name_view(self.name),
            offset: self.offset,
            size: self.size,
            payload: self.buffer@,
            ty: self.ty,
        }
    }
}

impl FileEntry {
    /// The entry's name; a KUB entry has none.
    pub fn name(&self) -> (n: &Option<String>)
        ensures
            name_view(*n) == self@.name,
    {
        &self.name
    }

    /// Where the payload stands in the archive.
    pub fn offset(&self) -> (offset: u32)
        ensures
            offset == self@.offset,
    {
        self.offset
    }

    /// The length of the payload.
    pub fn size(&self) -> (size: u32)
        ensures
            size == self@.size,
    {
        self.size
    }

    /// The payload, still compressed.
    pub fn payload(&self) -> (p: &[u8])
        ensures
            p@ == self@.payload,
    {
        self.buffer.as_slice()
    }

    /// The container that the entry was read from, which decides its codec.
    pub fn archive_type(&self) -> (ty: ArchiveType)
        ensures
            ty == self@.ty,
    {
        self.ty
    }

    /// Unpacks the entry: inflates the payload of a PAK entry, and hands on
    /// the payload of a KUB entry for the caller's LZRW1 decoder.
    ///
    /// Fails with `Codec` where zlib refuses the payload.
    pub fn unpack(&self) -> (r: Result<Unpacked, ArchiveError>)
        ensures
            match unpacked(self@) {
                Ok(u) => r matches Ok(got) && got@ == u,
                Err(e) => r matches Err(x) && x == e,
            },
    {
        match self.ty {
            ArchiveType::Pak => self.unpack_pak(),
            ArchiveType::Kub => self.unpack_kub(),
        }
    }

    fn unpack_kub(&self) -> (r: Result<Unpacked, ArchiveError>)
        ensures
            r matches Ok(got) && got@ == UnpackedView::Lzrw1(self@.payload),
    {
        Ok(Unpacked::Lzrw1(self.buffer.clone()))
    }

    fn unpack_pak(&self) -> (r: Result<Unpacked, ArchiveError>)
        ensures
            match zlib_inflated(self@.payload) {
                Some(contents) => r matches Ok(got) && got@ == UnpackedView::Contents(contents),
                None => r matches Err(x) && x == ArchiveError::Codec,
            },
    {
        match zlib_inflate(self.buffer.as_slice()) {
            Some(contents) => Ok(Unpacked::Contents(contents)),
            None => Err(ArchiveError::Codec),
        }
    }
}

impl Archive {
    /// The bytes of the archive.
    pub closed spec fn data(&self) -> Seq<u8> {
        self.data@
    }

    /// The entries read so far.
    pub closed spec fn listed(&self) -> Seq<EntryView> {
        entry_views(self.entries@)
    }

    /// Wraps the bytes of an archive. Nothing is read yet.
    pub fn open(data: Vec<u8>) -> (a: Archive)
        ensures
            a.data() == data@,
            a.listed() == Seq::<EntryView>::empty(),
    {
        let a = Archive { entries: Vec::new(), data };
        assert(a.listed() =~= Seq::<EntryView>::empty());
        a
    }

    /// Reads the entries and hands them out in index order.
    ///
    /// Fails, and keeps the entries it had, with `UnexpectedEof` where the
    /// index, a name offset or a payload lies beyond the end of the data, and
    /// with `InvalidName` where a name is not UTF-8; the first entry that
    /// cannot be read decides.
    pub fn entries(&mut self) -> (r: Result<ArchiveIterator<'_>, ArchiveError>)
        ensures
            final(self).data() == old(self).data(),
            match parse(old(self).data()) {
                Ok(found) => {
                    &&& r matches Ok(it) && it.remaining() == found
                    &&& final(self).listed() == found
                },
                Err(e) => {
                    &&& r matches Err(x) && x == e
                    &&& final(self).listed() == old(self).listed()
                },
            },
    {
        let found = match self.get_type() {
            Ok(ArchiveType::Pak) => self.get_pak_entries(),
            Ok(ArchiveType::Kub) => self.get_kub_entries(),
            Err(e) => Err(e),
        };
        match found {
            Ok(entries) => {
                let len = entries.len() as u32;
                self.entries = entries;
                let it = ArchiveIterator { index: 0, len, entries: &self.entries };
                assert(self.entries@.subrange(0, len as int) =~= self.entries@);
                Ok(it)
            },
            Err(e) => Err(e),
        }
    }

    /// The `(offset, size)` record of entry `i`.
    fn read_record(&self, i: u32) -> (r: Option<(u32, u32)>)
        ensures
            r == record_at(self.data(), i as int),
    {
        let data = self.data.as_slice();
        let at = 4 + 8 * (i as u64);
        match (read_u32_at(data, at), read_u32_at(data, at + 4)) {
            (Some(offset), Some(size)) => Some((offset, size)),
            _ => None,
        }
    }

    /// The name of entry `i` of a PAK archive of `count` entries.
    fn read_name(&self, count: u32, i: u32) -> (r: Result<String, ArchiveError>)
        ensures
            match name_at(self.data(), count as int, i as int) {
                Ok(name) => r matches Ok(s) && s@ == name,
                Err(e) => r matches Err(x) && x == e,
            },
    {
        let data = self.data.as_slice();
        let slot = 4 + 8 * (count as u64) + 4 * (i as u64);
        let at = match read_u32_at(data, slot) {
            Some(at) => at,
            None => {
                return Err(ArchiveError::UnexpectedEof);
            },
        };
        match utf8_str(read_line_at(data, at)) {
            Some(line) => Ok(trim_end(line).to_owned()),
            None => Err(ArchiveError::InvalidName),
        }
    }

    /// The entries of a KUB archive: for each record of the index, the
    /// payload that it points at.
    fn get_kub_entries(&self) -> (r: Result<Vec<FileEntry>, ArchiveError>)
        ensures
            match u32_at(self.data(), 0) {
                Some(count) => match entries_upto(
                    self.data(),
                    ArchiveType::Kub,
                    count as int,
                    count as int,
                ) {
                    Ok(found) => r matches Ok(v) && entry_views(v@) == found && v@.len() == count,
                    Err(e) => r matches Err(x) && x == e,
                },
                None => r matches Err(x) && x == ArchiveError::UnexpectedEof,
            },
    {
        let file_count = match read_u32_at(self.data.as_slice(), 0) {
            Some(count) => count,
            None => {
                return Err(ArchiveError::UnexpectedEof);
            },
        };
        let ghost data = self.data();
        let ghost ty = ArchiveType::Kub;
        let ghost count = file_count as int;
        let mut entries: Vec<FileEntry> = Vec::new();
        let mut i: u32 = 0;
        assert(entry_views(entries@) =~= Seq::<EntryView>::empty());
        while i < file_count
            invariant
                i <= file_count,
                count == file_count,
                data == self.data(),
                u32_at(data, 0) == Some(file_count),
                ty == ArchiveType::Kub,
                entries@.len() == i,
                entries_upto(data, ty, count, i as int) == Ok::<Seq<EntryView>, ArchiveError>(
                    entry_views(entries@),
                ),
            decreases file_count - i,
        {
            let ghost before = entry_views(entries@);
            let (offset, size) = match self.read_record(i) {
                Some(record) => record,
                None => {
                    proof {
                        lemma_first_failure(data, ty, count, i as int);
                    }
                    return Err(ArchiveError::UnexpectedEof);
                },
            };
            let buffer = match read_bytes_at(self.data.as_slice(), offset, size) {
                Some(buffer) => buffer,
                None => {
                    proof {
                        lemma_first_failure(data, ty, count, i as int);
                    }
                    return Err(ArchiveError::UnexpectedEof);
                },
            };
            entries.push(FileEntry { name: None, offset, size, buffer, ty: ArchiveType::Kub });
            proof {
                lemma_next_entry(data, ty, count, i as int);
                assert(entry_views(entries@) =~= before.push(
                    entry_at(data, ty, count, i as int)->Ok_0,
                ));
            }
            i += 1;
        }
        Ok(entries)
    }

    /// The entries of a PAK archive: for each record of the index, the name
    /// that the entry's slot in the name table points at, and the payload.
    fn get_pak_entries(&self) -> (r: Result<Vec<FileEntry>, ArchiveError>)
        ensures
            match u32_at(self.data(), 0) {
                Some(count) => match entries_upto(
                    self.data(),
                    ArchiveType::Pak,
                    count as int,
                    count as int,
                ) {
                    Ok(found) => r matches Ok(v) && entry_views(v@) == found && v@.len() == count,
                    Err(e) => r matches Err(x) && x == e,
                },
                None => r matches Err(x) && x == ArchiveError::UnexpectedEof,
            },
    {
        let file_count = match read_u32_at(self.data.as_slice(), 0) {
            Some(count) => count,
            None => {
                return Err(ArchiveError::UnexpectedEof);
            },
        };
        let ghost data = self.data();
        let ghost ty = ArchiveType::Pak;
        let ghost count = file_count as int;
        let mut entries: Vec<FileEntry> = Vec::new();
        let mut i: u32 = 0;
        assert(entry_views(entries@) =~= Seq::<EntryView>::empty());
        while i < file_count
            invariant
                i <= file_count,
                count == file_count,
                data == self.data(),
                u32_at(data, 0) == Some(file_count),
                ty == ArchiveType::Pak,
                entries@.len() == i,
                entries_upto(data, ty, count, i as int) == Ok::<Seq<EntryView>, ArchiveError>(
                    entry_views(entries@),
                ),
            decreases file_count - i,
        {
            let ghost before = entry_views(entries@);
            let (offset, size) = match self.read_record(i) {
                Some(record) => record,
                None => {
                    proof {
                        lemma_first_failure(data, ty, count, i as int);
                    }
                    return Err(ArchiveError::UnexpectedEof);
                },
            };
            let name = match self.read_name(file_count, i) {
                Ok(name) => name,
                Err(e) => {
                    proof {
                        lemma_first_failure(data, ty, count, i as int);
                    }
                    return Err(e);
                },
            };
            let buffer = match read_bytes_at(self.data.as_slice(), offset, size) {
                Some(buffer) => buffer,
                None => {
                    proof {
                        lemma_first_failure(data, ty, count, i as int);
                    }
                    return Err(ArchiveError::UnexpectedEof);
                },
            };
            entries.push(
                FileEntry { name: Some(name), offset, size, buffer, ty: ArchiveType::Pak },
            );
            proof {
                lemma_next_entry(data, ty, count, i as int);
                assert(entry_views(entries@) =~= before.push(
                    entry_at(data, ty, count, i as int)->Ok_0,
                ));
            }
            i += 1;
        }
        Ok(entries)
    }

    /// Tells a PAK archive from a KUB archive by the first two bytes of the
    /// first payload.
    fn get_type(&self) -> (r: Result<ArchiveType, ArchiveError>)
        ensures
            r == archive_type_of(self.data()),
    {
        let data = self.data.as_slice();
        let first = match read_u32_at(data, 4) {
            Some(first) => first,
            None => {
                return Err(ArchiveError::UnexpectedEof);
            },
        };
        match read_u16_at(data, first as u64) {
            Some(word) => Ok(
                if word == ZLIB_MAGIC {
                    ArchiveType::Pak
                } else {
                    ArchiveType::Kub
                },
            ),
            None => Err(ArchiveError::UnexpectedEof),
        }
    }
}

impl<'a> ArchiveIterator<'a> {
    /// The cursor lies within the entries.
    #[verifier::type_invariant]
    spec fn wf(&self) -> bool {
        self.index <= self.len <= self.entries@.len()
    }

    /// The entries that are still to come.
    pub closed spec fn remaining(&self) -> Seq<EntryView> {
        entry_views(self.entries@.subrange(self.index as int, self.len as int))
    }

    /// The next entry, if one is left.
    pub fn next(&mut self) -> (r: Option<&'a FileEntry>)
        ensures
            match r {
                Some(e) => {
                    &&& old(self).remaining().len() > 0
                    &&& e@ == old(self).remaining()[0]
                    &&& final(self).remaining() == old(self).remaining().drop_first()
                },
                None => old(self).remaining().len() == 0 && final(self).remaining() == old(
                    self,
                ).remaining(),
            },
    {
        proof {
            use_type_invariant(&*self);
        }
        if self.index < self.len {
            let result = Some(&self.entries[self.index as usize]);
            self.index += 1;
            assert(self.remaining() =~= old(self).remaining().drop_first());
            result
        } else {
            None
        }
    }
}

} // verus!
