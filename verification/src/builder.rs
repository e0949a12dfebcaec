//! Writing an archive.

use crate::archive::ArchiveType;
use crate::codec::{is_zlib_stream_of, zlib_deflate, zlib_deflated};
use crate::error::ArchiveError;
use crate::layout::{
    archive_bytes, archive_len, index_records, join, lemma_offsets, name_bytes, name_offset,
    name_records, name_slots, payload_offset, payloads, payloads_start, PackEntry, LINE_FEED,
};
use crate::le::{le32_bytes, u32_le_bytes};
use vstd::prelude::*;
use vstd::slice::slice_to_vec;

verus! {

/// Collects the entries of an archive and lays them out.
pub struct Builder {
    ty: ArchiveType,
    entries: Vec<FileEntry>,
}

struct FileEntry {
    name: Option<String>,
    buffer: Vec<u8>,
}

/// What a builder holds: the container it writes and its entries so far.
pub struct BuilderView {
    pub ty: ArchiveType,
    pub entries: Seq<PackEntry>,
}

/// The payload that a builder for `ty` stores for `data`: the zlib stream of
/// `data` in a PAK archive, `data` itself in a KUB archive, whose payloads
/// come packed by the caller's LZRW1 codec. `None` where zlib fails.
pub open spec fn packed(ty: ArchiveType, data: Seq<u8>) -> Option<Seq<u8>> {
    match ty {
        ArchiveType::Pak => zlib_deflated(data),
        ArchiveType::Kub => Some(data),
    }
}

/// The entry that a builder for `ty` stores for a payload handed in under
/// `name`: only a PAK archive keeps the name.
pub open spec fn stored_entry(ty: ArchiveType, name: Seq<char>, payload: Seq<u8>) -> PackEntry {
    PackEntry {
        name: match ty {
            ArchiveType::Pak => Some(name),
            ArchiveType::Kub => None,
        },
        payload,
    }
}

/// `e` is what a builder for `ty` stores for the file `data` handed in
/// under `name`: in a PAK archive the name and a zlib stream of `data`, in
/// a KUB archive `data` alone.
pub open spec fn stores(ty: ArchiveType, e: PackEntry, name: Seq<char>, data: Seq<u8>) -> bool {
    match ty {
        ArchiveType::Pak => e.name == Some(name) && is_zlib_stream_of(e.payload, data),
        ArchiveType::Kub => e.name is None && e.payload == data,
    }
}

/// `v` with one more entry at its end.
pub open spec fn with_entry(v: BuilderView, e: PackEntry) -> BuilderView {
    BuilderView { ty: v.ty, entries: v.entries.push(e) }
}

/// Appends `src` to `out`.
fn append_bytes(out: &mut Vec<u8>, src: &[u8])
    ensures
        final(out)@ == old(out)@ + src@,
{
    out.extend_from_slice(src);
    assert(out@ =~= old(out)@ + src@);
}

/// `total + len`, where that still fits in 32 bits.
fn grown(total: u64, len: usize) -> (r: Option<u64>)
    requires
        total <= u32::MAX,
    ensures
        match r {
            Some(t) => t == total + len && t <= u32::MAX,
            None => total + len > u32::MAX,
        },
{
    let room: u64 = 0xFFFF_FFFF - total;
    if len as u64 > room {
        None
    } else {
        Some(total + len as u64)
    }
}

impl FileEntry {
    spec fn view(&self) -> PackEntry {
        PackEntry {
            name: match self.name {
                Some(s) => Some(s@),
                None => None,
            },
            payload: self.buffer@,
        }
    }
}

impl View for Builder {
    type V = BuilderView;

    closed spec fn view(&self) -> BuilderView {
        BuilderView {
            ty: self.ty,
            entries: Seq::new(self.entries@.len(), |i: int| self.entries@[i].view()),
        }
    }
}

impl Builder {
    /// An empty builder for an archive of type `ty`.
    pub fn new(ty: ArchiveType) -> (b: Builder)
        ensures
            b@ == (BuilderView { ty, entries: Seq::empty() }),
    {
        let b = Builder { ty, entries: Vec::new() };
        assert(b@.entries =~= Seq::empty());
        b
    }

    /// The container that this builder writes.
    pub fn archive_type(&self) -> (ty: ArchiveType)
        ensures
            ty == self@.ty,
    {
        self.ty
    }

    /// The number of entries so far.
    pub fn len(&self) -> (n: usize)
        ensures
            n == self@.entries.len(),
    {
        self.entries.len()
    }

    /// Appends an entry whose payload is compressed already. A PAK builder
    /// stores it under `name`; a KUB builder stores no name.
    pub fn add_entry(&mut self, name: &str, payload: Vec<u8>)
        ensures
            final(self)@ == with_entry(old(self)@, stored_entry(old(self)@.ty, name@, payload@)),
    {
        let stored = match self.ty {
            ArchiveType::Pak => Some(name.to_owned()),
            ArchiveType::Kub => None,
        };
        self.entries.push(FileEntry { name: stored, buffer: payload });
        assert(self@.entries =~= old(self)@.entries.push(
            stored_entry(old(self)@.ty, name@, payload@),
        ));
    }

    /// Where the payloads begin and where the archive ends, if that fits in
    /// 32 bits.
    fn measure(&self) -> (r: Option<(u32, u32)>)
        ensures
            match r {
                Some((start, end)) => {
                    &&& start == payloads_start(self@.ty, self@.entries)
                    &&& end == archive_len(self@.ty, self@.entries)
                },
                None => archive_len(self@.ty, self@.entries) > u32::MAX,
            },
    {
        let ghost ty = self@.ty;
        let ghost entries = self@.entries;
        let n = self.entries.len();
        let width: u64 = match self.ty {
            ArchiveType::Pak => 12,
            ArchiveType::Kub => 8,
        };
        proof {
            lemma_offsets(ty, entries, 0);
        }
        if n as u64 > 0xFFFF_FFFB / width {
            return None;
        }
        let mut total: u64 = 4 + width * (n as u64);
        if let ArchiveType::Pak = self.ty {
            let mut i: usize = 0;
            while i < n
                invariant
                    i <= n,
                    n == entries.len(),
                    entries == self@.entries,
                    self@.ty is Pak,
                    ty is Pak,
                    total == name_offset(entries, i as int),
                    total <= u32::MAX,
                decreases n - i,
            {
                proof {
                    lemma_offsets(ty, entries, i as int);
                    lemma_offsets(ty, entries, i + 1);
                }
                let name_len = match &self.entries[i].name {
                    Some(s) => s.as_str().as_bytes().len(),
                    None => 0,
                };
                assert(entries[i as int] == self.entries@[i as int].view());
                assert(name_len == name_bytes(entries[i as int]).len());
                let with_name = match grown(total, name_len) {
                    Some(t) => t,
                    None => {
                        return None;
                    },
                };
                total = match grown(with_name, 2) {
                    Some(t) => t,
                    None => {
                        return None;
                    },
                };
                i += 1;
            }
        }
        let start = total;
        let mut i: usize = 0;
        while i < n
            invariant
                i <= n,
                n == entries.len(),
                entries == self@.entries,
                ty == self@.ty,
                start == payloads_start(ty, entries),
                total == payload_offset(ty, entries, i as int),
                start <= total <= u32::MAX,
            decreases n - i,
        {
            proof {
                lemma_offsets(ty, entries, i as int);
                lemma_offsets(ty, entries, i + 1);
            }
            total = match grown(total, self.entries[i].buffer.len()) {
                Some(t) => t,
                None => {
                    return None;
                },
            };
            i += 1;
        }
        Some((start as u32, total as u32))
    }

    /// Appends the index: for each entry the offset and the size of its
    /// payload. The first payload stands at `start`.
    fn write_index(&self, out: &mut Vec<u8>, start: u32)
        requires
            archive_len(self@.ty, self@.entries) <= u32::MAX,
            start == payloads_start(self@.ty, self@.entries),
        ensures
            final(out)@ == old(out)@ + join(
                index_records(self@.ty, self@.entries),
                self@.entries.len() as int,
            ),
    {
        let ghost ty = self@.ty;
        let ghost entries = self@.entries;
        let n = self.entries.len();
        let mut offset: u32 = start;
        let mut i: usize = 0;
        assert(out@ =~= old(out)@ + join(index_records(ty, entries), 0));
        while i < n
            invariant
                i <= n,
                n == entries.len(),
                entries == self@.entries,
                ty == self@.ty,
                archive_len(ty, entries) <= u32::MAX,
                offset == payload_offset(ty, entries, i as int),
                out@ == old(out)@ + join(index_records(ty, entries), i as int),
            decreases n - i,
        {
            proof {
                lemma_offsets(ty, entries, i as int);
                lemma_offsets(ty, entries, i + 1);
            }
            let size = self.entries[i].buffer.len() as u32;
            let mut offset_bytes = u32_le_bytes(offset);
            let mut size_bytes = u32_le_bytes(size);
            out.append(&mut offset_bytes);
            out.append(&mut size_bytes);
            assert(out@ =~= old(out)@ + join(index_records(ty, entries), i + 1));
            offset = offset + size;
            i += 1;
        }
    }

    /// Appends the payloads, in entry order.
    fn write_payloads(&self, out: &mut Vec<u8>)
        ensures
            final(out)@ == old(out)@ + join(payloads(self@.entries), self@.entries.len() as int),
    {
        let ghost entries = self@.entries;
        let n = self.entries.len();
        let mut i: usize = 0;
        assert(out@ =~= old(out)@ + join(payloads(entries), 0));
        while i < n
            invariant
                i <= n,
                n == entries.len(),
                entries == self@.entries,
                out@ == old(out)@ + join(payloads(entries), i as int),
            decreases n - i,
        {
            append_bytes(out, self.entries[i].buffer.as_slice());
            assert(out@ =~= old(out)@ + join(payloads(entries), i + 1));
            i += 1;
        }
    }

    /// Appends what a KUB archive holds behind its count: the index and the
    /// payloads.
    fn pack_kub(&self, out: &mut Vec<u8>, start: u32)
        requires
            self@.ty is Kub,
            archive_len(self@.ty, self@.entries) <= u32::MAX,
            start == payloads_start(self@.ty, self@.entries),
            old(out)@ == le32_bytes(self@.entries.len() as u32),
        ensures
            final(out)@ == archive_bytes(self@.ty, self@.entries),
    {
        self.write_index(out, start);
        self.write_payloads(out);
        assert(out@ =~= archive_bytes(self@.ty, self@.entries));
    }

    /// Appends what a PAK archive holds behind its count: the index, the
    /// table of name offsets, the names, each with a line feed and a NUL
    /// behind it, and the payloads.
    fn pack_pak(&self, out: &mut Vec<u8>, start: u32)
        requires
            self@.ty is Pak,
            archive_len(self@.ty, self@.entries) <= u32::MAX,
            start == payloads_start(self@.ty, self@.entries),
            old(out)@ == le32_bytes(self@.entries.len() as u32),
        ensures
            final(out)@ == archive_bytes(self@.ty, self@.entries),
    {
        let ghost ty = self@.ty;
        let ghost entries = self@.entries;
        let n = self.entries.len();
        self.write_index(out, start);
        let ghost indexed = out@;

        proof {
            lemma_offsets(ty, entries, 0);
        }
        let mut name_at: u32 = (4 + 12 * (n as u64)) as u32;
        let mut i: usize = 0;
        assert(out@ =~= indexed + join(name_slots(entries), 0));
        while i < n
            invariant
                i <= n,
                n == entries.len(),
                entries == self@.entries,
                ty == self@.ty,
                ty is Pak,
                archive_len(ty, entries) <= u32::MAX,
                name_at == name_offset(entries, i as int),
                out@ == indexed + join(name_slots(entries), i as int),
            decreases n - i,
        {
            proof {
                lemma_offsets(ty, entries, i as int);
                lemma_offsets(ty, entries, i + 1);
            }
            let name_len = match &self.entries[i].name {
                Some(s) => s.as_str().as_bytes().len(),
                None => 0,
            };
            let mut slot = u32_le_bytes(name_at);
            out.append(&mut slot);
            assert(out@ =~= indexed + join(name_slots(entries), i + 1));
            name_at = name_at + name_len as u32 + 2;
            i += 1;
        }
        let ghost slotted = out@;

        let mut i: usize = 0;
        assert(out@ =~= slotted + join(name_records(entries), 0));
        while i < n
            invariant
                i <= n,
                n == entries.len(),
                entries == self@.entries,
                out@ == slotted + join(name_records(entries), i as int),
            decreases n - i,
        {
            match &self.entries[i].name {
                Some(s) => append_bytes(out, s.as_str().as_bytes()),
                None => {},
            }
            out.push(LINE_FEED);
            out.push(0u8);
            assert(out@ =~= slotted + join(name_records(entries), i + 1));
            i += 1;
        }

        self.write_payloads(out);
        assert(out@ =~= archive_bytes(ty, entries));
    }

    /// The archive that holds the entries, in the order in which they were
    /// added.
    ///
    /// Fails with `TooLarge` where the archive would be longer than 32-bit
    /// offsets can address.
    pub fn pack(&self) -> (r: Result<Vec<u8>, ArchiveError>)
        ensures
            match r {
                Ok(bytes) => {
                    &&& archive_len(self@.ty, self@.entries) <= u32::MAX
                    &&& bytes@ == archive_bytes(self@.ty, self@.entries)
                },
                Err(e) => e == ArchiveError::TooLarge && archive_len(self@.ty, self@.entries)
                    > u32::MAX,
            },
    {
        let start = match self.measure() {
            Some((start, _)) => start,
            None => {
                return Err(ArchiveError::TooLarge);
            },
        };
        proof {
            lemma_offsets(self@.ty, self@.entries, 0);
        }
        let mut out = u32_le_bytes(self.entries.len() as u32);
        match self.ty {
            ArchiveType::Kub => self.pack_kub(&mut out, start),
            ArchiveType::Pak => self.pack_pak(&mut out, start),
        }
        Ok(out)
    }

    /// Appends a file. A PAK builder compresses `data`, the file's contents,
    /// with zlib at the default level and stores the stream under `name`. A
    /// KUB builder stores `data` as it is and drops the name: `data` is then
    /// the file's LZRW1 stream, which the caller's codec made.
    ///
    /// Fails with `Codec`, and adds nothing, where zlib reports an error.
    pub fn add_file(&mut self, name: &str, data: &[u8]) -> (r: Result<(), ArchiveError>)
        ensures
            match packed(old(self)@.ty, data@) {
                Some(payload) => {
                    &&& r is Ok
                    &&& final(self)@ == with_entry(
                        old(self)@,
                        stored_entry(old(self)@.ty, name@, payload),
                    )
                    &&& stores(old(self)@.ty, final(self)@.entries.last(), name@, data@)
                },
                None => r == Err::<(), ArchiveError>(ArchiveError::Codec) && final(self)@ == old(
                    self,
                )@,
            },
    {
        let payload = match self.ty {
            ArchiveType::Pak => zlib_deflate(data),
            ArchiveType::Kub => Some(slice_to_vec(data)),
        };
        match payload {
            Some(p) => {
                self.add_entry(name, p);
                Ok(())
            },
            None => Err(ArchiveError::Codec),
        }
    }
}

} // verus!
