//! What the bytes of an archive mean to the reader.
//!
//! The reader trusts the index: it follows each offset as it finds it and
//! fails where a read runs past the end of the data. The first failure, in
//! entry order, is the one reported.

use crate::archive::{ArchiveType, EntryView};
use crate::error::ArchiveError;
use crate::layout::{holds_at, LINE_FEED};
use crate::le::{le16_value, le32_bytes, le32_value, lemma_le32_round_trip};
use crate::text::{has_no_line_feed, keeps, lemma_trimmed_line_is_kept, trimmed};
use vstd::prelude::*;
use vstd::utf8::{decode_utf8, valid_utf8};

verus! {

/// The first two bytes of a default-level zlib stream, `78 9C`, read as a
/// little-endian word.
pub const ZLIB_MAGIC: u16 = 0x9C78;

/// The 16-bit word at `pos`, if the data reach that far.
pub open spec fn u16_at(data: Seq<u8>, pos: int) -> Option<u16> {
    if 0 <= pos && pos + 2 <= data.len() {
        Some(le16_value(data.subrange(pos, pos + 2)) as u16)
    } else {
        None
    }
}

/// The 32-bit word at `pos`, if the data reach that far.
pub open spec fn u32_at(data: Seq<u8>, pos: int) -> Option<u32> {
    if 0 <= pos && pos + 4 <= data.len() {
        Some(le32_value(data.subrange(pos, pos + 4)) as u32)
    } else {
        None
    }
}

/// The `size` bytes at `pos`, if the data reach that far. No bytes can be
/// read anywhere, even behind the end.
pub open spec fn bytes_at(data: Seq<u8>, pos: int, size: int) -> Option<Seq<u8>> {
    if size == 0 {
        Some(Seq::empty())
    } else if 0 <= pos && pos + size <= data.len() {
        Some(data.subrange(pos, pos + size))
    } else {
        None
    }
}

/// Where the line that begins at `pos` ends: behind its line feed, or at
/// the end of the data where there is none.
pub open spec fn line_end(data: Seq<u8>, pos: int) -> int
    decreases data.len() - pos,
{
    if pos < 0 || pos >= data.len() {
        pos
    } else if data[pos] == LINE_FEED {
        pos + 1
    } else {
        line_end(data, pos + 1)
    }
}

/// The line at `pos`, its line feed included; empty behind the end of the
/// data.
pub open spec fn line_at(data: Seq<u8>, pos: int) -> Seq<u8> {
    if 0 <= pos < data.len() {
        data.subrange(pos, line_end(data, pos))
    } else {
        Seq::empty()
    }
}

/// Which container the data hold: the word at the first payload's offset
/// decides, and that offset is the word at byte 4.
pub open spec fn archive_type_of(data: Seq<u8>) -> Result<ArchiveType, ArchiveError> {
    match u32_at(data, 4) {
        None => Err(ArchiveError::UnexpectedEof),
        Some(first) => match u16_at(data, first as int) {
            None => Err(ArchiveError::UnexpectedEof),
            Some(word) => Ok(
                if word == ZLIB_MAGIC {
                    ArchiveType::Pak
                } else {
                    ArchiveType::Kub
                },
            ),
        },
    }
}

/// Where the index holds the record of entry `i`.
pub open spec fn record_pos(i: int) -> int {
    4 + 8 * i
}

/// Where a PAK archive of `count` entries holds the name offset of entry
/// `i`.
pub open spec fn name_slot_pos(count: int, i: int) -> int {
    4 + 8 * count + 4 * i
}

/// The `(offset, size)` record of entry `i`, if the index reaches that far.
pub open spec fn record_at(data: Seq<u8>, i: int) -> Option<(u32, u32)> {
    match (u32_at(data, record_pos(i)), u32_at(data, record_pos(i) + 4)) {
        (Some(offset), Some(size)) => Some((offset, size)),
        _ => None,
    }
}

/// The name of entry `i` of a PAK archive: the line at the entry's name
/// offset, decoded and trimmed.
pub open spec fn name_at(data: Seq<u8>, count: int, i: int) -> Result<Seq<char>, ArchiveError> {
    match u32_at(data, name_slot_pos(count, i)) {
        None => Err(ArchiveError::UnexpectedEof),
        Some(at) => {
            let line = line_at(data, at as int);
            if valid_utf8(line) {
                Ok(trimmed(decode_utf8(line)))
            } else {
                Err(ArchiveError::InvalidName)
            }
        },
    }
}

/// The name of entry `i`, for an archive of either type: a KUB archive has
/// none.
pub open spec fn entry_name(data: Seq<u8>, ty: ArchiveType, count: int, i: int) -> Result<
    Option<Seq<char>>,
    ArchiveError,
> {
    match ty {
        ArchiveType::Kub => Ok(None),
        ArchiveType::Pak => match name_at(data, count, i) {
            Ok(name) => Ok(Some(name)),
            Err(e) => Err(e),
        },
    }
}

/// Entry `i` of an archive of type `ty` and `count` entries: its record,
/// then its name if the archive has names, then its payload.
pub open spec fn entry_at(data: Seq<u8>, ty: ArchiveType, count: int, i: int) -> Result<
    EntryView,
    ArchiveError,
> {
    match record_at(data, i) {
        None => Err(ArchiveError::UnexpectedEof),
        Some((offset, size)) => match entry_name(data, ty, count, i) {
            Err(e) => Err(e),
            Ok(name) => match bytes_at(data, offset as int, size as int) {
                None => Err(ArchiveError::UnexpectedEof),
                Some(payload) => Ok(EntryView { name, offset, size, payload, ty }),
            },
        },
    }
}

/// The first `k` entries, or the first failure among them.
pub open spec fn entries_upto(data: Seq<u8>, ty: ArchiveType, count: int, k: int) -> Result<
    Seq<EntryView>,
    ArchiveError,
>
    decreases k,
{
    if k <= 0 {
        Ok(Seq::empty())
    } else {
        match entries_upto(data, ty, count, k - 1) {
            Err(e) => Err(e),
            Ok(before) => match entry_at(data, ty, count, k - 1) {
                Err(e) => Err(e),
                Ok(entry) => Ok(before.push(entry)),
            },
        }
    }
}

/// The entries of an archive, in index order, or the reason why it cannot
/// be read.
pub open spec fn parse(data: Seq<u8>) -> Result<Seq<EntryView>, ArchiveError> {
    match archive_type_of(data) {
        Err(e) => Err(e),
        Ok(ty) => match u32_at(data, 0) {
            None => Err(ArchiveError::UnexpectedEof),
            Some(count) => entries_upto(data, ty, count as int, count as int),
        },
    }
}

/// A failure among the first `k` entries is the failure of every longer
/// run.
pub proof fn lemma_failure_stays(data: Seq<u8>, ty: ArchiveType, count: int, k: int, m: int)
    requires
        k <= m,
        entries_upto(data, ty, count, k) is Err,
    ensures
        entries_upto(data, ty, count, m) == entries_upto(data, ty, count, k),
    decreases m - k,
{
    if k < m {
        lemma_failure_stays(data, ty, count, k, m - 1);
    }
}

/// Where the entries before `i` were read and entry `i` cannot be, its
/// failure is that of the whole archive.
pub proof fn lemma_first_failure(data: Seq<u8>, ty: ArchiveType, count: int, i: int)
    requires
        0 <= i < count,
        entries_upto(data, ty, count, i) is Ok,
        entry_at(data, ty, count, i) is Err,
    ensures
        entries_upto(data, ty, count, count) == Err::<Seq<EntryView>, ArchiveError>(
            entry_at(data, ty, count, i)->Err_0,
        ),
{
    assert(entries_upto(data, ty, count, i + 1) is Err);
    lemma_failure_stays(data, ty, count, i + 1, count);
}

/// Where the entries before `i` were read and entry `i` can be, it is the
/// next of them.
pub proof fn lemma_next_entry(data: Seq<u8>, ty: ArchiveType, count: int, i: int)
    requires
        0 <= i,
        entries_upto(data, ty, count, i) is Ok,
        entry_at(data, ty, count, i) is Ok,
    ensures
        entries_upto(data, ty, count, i + 1) == Ok::<Seq<EntryView>, ArchiveError>(
            entries_upto(data, ty, count, i)->Ok_0.push(entry_at(data, ty, count, i)->Ok_0),
        ),
{
}

/// A number that stands in the data, least significant byte first, is
/// read as that number.
pub proof fn lemma_u32_at(data: Seq<u8>, pos: int, v: u32)
    requires
        holds_at(data, pos, le32_bytes(v)),
    ensures
        u32_at(data, pos) == Some(v),
{
    lemma_le32_round_trip(v);
}

/// Bytes that stand in the data are read as they stand.
pub proof fn lemma_bytes_at(data: Seq<u8>, pos: int, part: Seq<u8>)
    requires
        holds_at(data, pos, part),
    ensures
        bytes_at(data, pos, part.len() as int) == Some(part),
{
    if part.len() == 0 {
        assert(part =~= Seq::<u8>::empty());
    }
}

/// A line ends behind the first line feed.
pub proof fn lemma_line_end(data: Seq<u8>, pos: int, k: int)
    requires
        0 <= pos,
        0 <= k,
        pos + k < data.len(),
        forall|j: int| pos <= j < pos + k ==> data[j] != LINE_FEED,
        data[pos + k] == LINE_FEED,
    ensures
        line_end(data, pos) == pos + k + 1,
    decreases k,
{
    if k > 0 {
        lemma_line_end(data, pos + 1, k - 1);
    }
}

/// Bytes without a line feed that stand in the data with a line feed
/// behind them are read as one line.
pub proof fn lemma_line_at(data: Seq<u8>, pos: int, body: Seq<u8>)
    requires
        holds_at(data, pos, body.push(LINE_FEED)),
        has_no_line_feed(body),
    ensures
        line_at(data, pos) == body.push(LINE_FEED),
{
    let line = body.push(LINE_FEED);
    let k = body.len() as int;
    assert forall|j: int| pos <= j < pos + k implies data[j] != LINE_FEED by {
        assert(data.subrange(pos, pos + line.len())[j - pos] == line[j - pos]);
        assert(line[j - pos] == body[j - pos]);
    }
    assert(data[pos + k] == LINE_FEED) by {
        assert(data.subrange(pos, pos + line.len())[k] == line[k]);
    }
    lemma_line_end(data, pos, k);
}

/// The line at `pos` holds no line feed but, at most, its last byte.
pub proof fn lemma_line_shape(data: Seq<u8>, pos: int)
    requires
        0 <= pos < data.len(),
    ensures
        pos < line_end(data, pos) <= data.len(),
        forall|j: int| pos <= j < line_end(data, pos) - 1 ==> data[j] != LINE_FEED,
    decreases data.len() - pos,
{
    if data[pos] != LINE_FEED {
        if pos + 1 < data.len() {
            lemma_line_shape(data, pos + 1);
        } else {
            assert(line_end(data, pos + 1) == pos + 1);
        }
    }
}

/// A name that was read is a name that is kept.
pub proof fn lemma_name_read_is_kept(data: Seq<u8>, count: int, i: int)
    requires
        name_at(data, count, i) is Ok,
    ensures
        keeps(name_at(data, count, i)->Ok_0),
{
    let at = u32_at(data, name_slot_pos(count, i))->Some_0 as int;
    let line = line_at(data, at);
    if 0 <= at < data.len() {
        lemma_line_shape(data, at);
        assert forall|k: int| 0 <= k < line.len() - 1 implies #[trigger] line[k] != LINE_FEED by {
            assert(line[k] == data[at + k]);
        }
    }
    lemma_trimmed_line_is_kept(line);
}

/// Entries that were read are, one by one, what the index says, and as
/// many as were asked for.
pub proof fn lemma_entries_read(data: Seq<u8>, ty: ArchiveType, count: int, k: int)
    requires
        0 <= k,
        entries_upto(data, ty, count, k) is Ok,
    ensures
        entries_upto(data, ty, count, k)->Ok_0.len() == k,
        forall|i: int|
            0 <= i < k ==> #[trigger] entry_at(data, ty, count, i) == Ok::<EntryView, ArchiveError>(
                entries_upto(data, ty, count, k)->Ok_0[i],
            ),
    decreases k,
{
    if k > 0 {
        lemma_entries_read(data, ty, count, k - 1);
    }
}

} // verus!
