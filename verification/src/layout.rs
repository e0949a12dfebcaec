//! The bytes of an archive, as the writer lays them out.
//!
//! ```text
//! PAK: count | count x (offset, size) | count x name offset | names | payloads
//! KUB: count | count x (offset, size) | payloads
//! ```
//!
//! Every integer is 32 bits wide and little-endian; every offset counts from
//! the first byte of the archive. A name is stored as its UTF-8 bytes, a
//! line feed and a NUL byte.

use crate::archive::ArchiveType;
use crate::le::le32_bytes;
use vstd::prelude::*;
use vstd::utf8::encode_utf8;

verus! {

/// The byte that ends a stored name.
pub const LINE_FEED: u8 = 0x0A;

/// One entry of an archive to be written: its name, if the archive names
/// its entries, and its payload, compressed already.
pub struct PackEntry {
    pub name: Option<Seq<char>>,
    pub payload: Seq<u8>,
}

/// The first `k` of `parts`, one after the other.
pub open spec fn join(parts: Seq<Seq<u8>>, k: int) -> Seq<u8>
    decreases k,
{
    if k <= 0 {
        Seq::empty()
    } else {
        join(parts, k - 1) + parts[k - 1]
    }
}

/// The length of `join(parts, k)`.
pub open spec fn join_len(parts: Seq<Seq<u8>>, k: int) -> int
    decreases k,
{
    if k <= 0 {
        0
    } else {
        join_len(parts, k - 1) + parts[k - 1].len()
    }
}

/// The bytes of an entry's name; none for an entry without one.
pub open spec fn name_bytes(e: PackEntry) -> Seq<u8> {
    match e.name {
        Some(n) => encode_utf8(n),
        None => Seq::empty(),
    }
}

/// A name as the name blob holds it: its bytes, a line feed, a NUL.
pub open spec fn name_record(e: PackEntry) -> Seq<u8> {
    name_bytes(e) + seq![LINE_FEED, 0u8]
}

/// The records of the name blob, in entry order.
pub open spec fn name_records(entries: Seq<PackEntry>) -> Seq<Seq<u8>> {
    Seq::new(entries.len(), |i: int| name_record(entries[i]))
}

/// The payloads, in entry order.
pub open spec fn payloads(entries: Seq<PackEntry>) -> Seq<Seq<u8>> {
    Seq::new(entries.len(), |i: int| entries[i].payload)
}

/// Where the name blob of a PAK archive of `n` entries begins.
pub open spec fn names_start(n: int) -> int {
    4 + 12 * n
}

/// Where the name of entry `i` of a PAK archive begins.
pub open spec fn name_offset(entries: Seq<PackEntry>, i: int) -> int {
    names_start(entries.len() as int) + join_len(name_records(entries), i)
}

/// Where the payload blob begins: behind the index, and in a PAK archive
/// behind the names too.
pub open spec fn payloads_start(ty: ArchiveType, entries: Seq<PackEntry>) -> int {
    match ty {
        ArchiveType::Kub => 4 + 8 * (entries.len() as int),
        ArchiveType::Pak => name_offset(entries, entries.len() as int),
    }
}

/// Where the payload of entry `i` begins.
pub open spec fn payload_offset(ty: ArchiveType, entries: Seq<PackEntry>, i: int) -> int {
    payloads_start(ty, entries) + join_len(payloads(entries), i)
}

/// The length of the whole archive.
pub open spec fn archive_len(ty: ArchiveType, entries: Seq<PackEntry>) -> int {
    payload_offset(ty, entries, entries.len() as int)
}

/// The index: for each entry its payload's offset and size.
pub open spec fn index_records(ty: ArchiveType, entries: Seq<PackEntry>) -> Seq<Seq<u8>> {
    Seq::new(
        entries.len(),
        |i: int|
            le32_bytes(payload_offset(ty, entries, i) as u32) + le32_bytes(
                entries[i].payload.len() as u32,
            ),
    )
}

/// The table of name offsets of a PAK archive.
pub open spec fn name_slots(entries: Seq<PackEntry>) -> Seq<Seq<u8>> {
    Seq::new(entries.len(), |i: int| le32_bytes(name_offset(entries, i) as u32))
}

/// What stands between the index and the payloads: in a PAK archive the
/// table of name offsets and the name blob, in a KUB archive nothing.
pub open spec fn name_section(ty: ArchiveType, entries: Seq<PackEntry>) -> Seq<u8> {
    let n = entries.len() as int;
    match ty {
        ArchiveType::Kub => Seq::empty(),
        ArchiveType::Pak => join(name_slots(entries), n) + join(name_records(entries), n),
    }
}

/// The archive that holds `entries`, byte for byte. It means what it says
/// where `archive_len(ty, entries)` fits in 32 bits.
pub open spec fn archive_bytes(ty: ArchiveType, entries: Seq<PackEntry>) -> Seq<u8> {
    let n = entries.len() as int;
    le32_bytes(n as u32) + join(index_records(ty, entries), n) + name_section(ty, entries) + join(
        payloads(entries),
        n,
    )
}

/// `join(parts, k)` is as long as `join_len(parts, k)` says, and grows
/// with `k`.
pub proof fn lemma_join_len(parts: Seq<Seq<u8>>, k: int)
    ensures
        join(parts, k).len() == join_len(parts, k),
        join_len(parts, k) >= 0,
    decreases k,
{
    if k > 0 {
        lemma_join_len(parts, k - 1);
    }
}

/// A longer prefix of the parts is no shorter.
pub proof fn lemma_join_len_monotone(parts: Seq<Seq<u8>>, i: int, k: int)
    requires
        i <= k,
    ensures
        join_len(parts, i) <= join_len(parts, k),
    decreases k - i,
{
    lemma_join_len(parts, i);
    if i < k {
        lemma_join_len_monotone(parts, i, k - 1);
    }
}

/// Parts that are all `w` bytes wide: the first `k` of them take `w * k`
/// bytes.
pub proof fn lemma_join_len_fixed(parts: Seq<Seq<u8>>, w: int, k: int)
    requires
        0 <= k <= parts.len(),
        forall|i: int| 0 <= i < parts.len() ==> (#[trigger] parts[i]).len() == w,
    ensures
        join_len(parts, k) == w * k,
    decreases k,
{
    if k > 0 {
        lemma_join_len_fixed(parts, w, k - 1);
        assert(w * k == w * (k - 1) + w) by (nonlinear_arith);
    } else {
        assert(w * k == 0) by (nonlinear_arith)
            requires
                k == 0,
        ;
    }
}

/// Part `i` stands in the joined bytes where the parts before it end.
pub proof fn lemma_join_part(parts: Seq<Seq<u8>>, k: int, i: int)
    requires
        0 <= i < k,
    ensures
        0 <= join_len(parts, i),
        join_len(parts, i + 1) == join_len(parts, i) + parts[i].len(),
        join_len(parts, i + 1) <= join(parts, k).len(),
        join(parts, k).subrange(join_len(parts, i), join_len(parts, i + 1)) == parts[i],
    decreases k,
{
    lemma_join_len(parts, k);
    lemma_join_len(parts, k - 1);
    lemma_join_len(parts, i);
    if i == k - 1 {
        assert(join(parts, k).subrange(join_len(parts, i), join_len(parts, i + 1)) =~= parts[i]);
    } else {
        lemma_join_part(parts, k - 1, i);
        assert(join(parts, k).subrange(join_len(parts, i), join_len(parts, i + 1)) =~= join(
            parts,
            k - 1,
        ).subrange(join_len(parts, i), join_len(parts, i + 1)));
    }
}

/// `part` stands in `data` at `pos`.
pub open spec fn holds_at(data: Seq<u8>, pos: int, part: Seq<u8>) -> bool {
    &&& 0 <= pos
    &&& pos + part.len() <= data.len()
    &&& data.subrange(pos, pos + part.len()) == part
}

/// What is joined between two others stands behind the first.
pub proof fn lemma_holds_middle(a: Seq<u8>, m: Seq<u8>, c: Seq<u8>)
    ensures
        holds_at(a + m + c, a.len() as int, m),
{
    assert((a + m + c).subrange(a.len() as int, (a.len() + m.len()) as int) =~= m);
}

/// What stands in a part of the data stands in the data.
pub proof fn lemma_holds_within(data: Seq<u8>, s: int, m: Seq<u8>, x: int, part: Seq<u8>)
    requires
        holds_at(data, s, m),
        holds_at(m, x, part),
    ensures
        holds_at(data, s + x, part),
{
    assert(data.subrange(s + x, s + x + part.len()) =~= data.subrange(s, s + m.len()).subrange(
        x,
        x + part.len(),
    ));
}

/// Where two pieces stand joined, each of them stands.
pub proof fn lemma_holds_halves(data: Seq<u8>, pos: int, x: Seq<u8>, y: Seq<u8>)
    requires
        holds_at(data, pos, x + y),
    ensures
        holds_at(data, pos, x),
        holds_at(data, pos + x.len(), y),
{
    assert(holds_at(x + y, 0, x)) by {
        assert((x + y).subrange(0, x.len() as int) =~= x);
    }
    assert(holds_at(x + y, x.len() as int, y)) by {
        assert((x + y).subrange(x.len() as int, (x.len() + y.len()) as int) =~= y);
    }
    lemma_holds_within(data, pos, x + y, 0, x);
    lemma_holds_within(data, pos, x + y, x.len() as int, y);
}

/// Part `i` of the joined parts stands where the parts before it end.
pub proof fn lemma_join_holds(parts: Seq<Seq<u8>>, k: int, i: int)
    requires
        0 <= i < k,
    ensures
        holds_at(join(parts, k), join_len(parts, i), parts[i]),
{
    lemma_join_part(parts, k, i);
}

/// The sections of an archive: the count, the index, in a PAK archive the
/// table of name offsets and the names, and the payloads.
pub proof fn lemma_sections(ty: ArchiveType, entries: Seq<PackEntry>)
    ensures
        archive_bytes(ty, entries).len() == archive_len(ty, entries),
        holds_at(archive_bytes(ty, entries), 0, le32_bytes(entries.len() as u32)),
        holds_at(
            archive_bytes(ty, entries),
            4,
            join(index_records(ty, entries), entries.len() as int),
        ),
        join(index_records(ty, entries), entries.len() as int).len() == 8 * entries.len(),
        ty is Pak ==> holds_at(
            archive_bytes(ty, entries),
            4 + 8 * (entries.len() as int),
            join(name_slots(entries), entries.len() as int),
        ),
        join(name_slots(entries), entries.len() as int).len() == 4 * entries.len(),
        ty is Pak ==> holds_at(
            archive_bytes(ty, entries),
            names_start(entries.len() as int),
            join(name_records(entries), entries.len() as int),
        ),
        holds_at(
            archive_bytes(ty, entries),
            payloads_start(ty, entries),
            join(payloads(entries), entries.len() as int),
        ),
{
    let n = entries.len() as int;
    let head = le32_bytes(n as u32);
    let index = join(index_records(ty, entries), n);
    let slots = join(name_slots(entries), n);
    let names = join(name_records(entries), n);
    let blob = join(payloads(entries), n);
    let data = archive_bytes(ty, entries);
    lemma_join_len(index_records(ty, entries), n);
    lemma_join_len(name_slots(entries), n);
    lemma_join_len(name_records(entries), n);
    lemma_join_len(payloads(entries), n);
    lemma_join_len_fixed(index_records(ty, entries), 8, n);
    lemma_join_len_fixed(name_slots(entries), 4, n);
    assert(data =~= head + index + name_section(ty, entries) + blob);
    assert(holds_at(data, 0, head)) by {
        assert(data.subrange(0, 4) =~= head);
    }
    assert(holds_at(data, 4, index)) by {
        lemma_holds_middle(head, index, name_section(ty, entries) + blob);
        assert(data =~= head + index + (name_section(ty, entries) + blob));
    }
    assert(holds_at(data, payloads_start(ty, entries), blob)) by {
        lemma_holds_middle(head + index + name_section(ty, entries), blob, Seq::empty());
        assert(data =~= head + index + name_section(ty, entries) + blob + Seq::<u8>::empty());
    }
    if ty is Pak {
        assert(holds_at(data, 4 + 8 * n, slots)) by {
            lemma_holds_middle(head + index, slots, names + blob);
            assert(data =~= head + index + slots + (names + blob));
        }
        assert(holds_at(data, names_start(n), names)) by {
            lemma_holds_middle(head + index + slots, names, blob);
            assert(data =~= head + index + slots + names + blob);
        }
    }
}

/// Where the archive holds what belongs to entry `i`: its record in the
/// index, in a PAK archive its name offset and its name, and its payload.
pub proof fn lemma_parts(ty: ArchiveType, entries: Seq<PackEntry>, i: int)
    requires
        0 <= i < entries.len(),
    ensures
        holds_at(
            archive_bytes(ty, entries),
            4 + 8 * i,
            le32_bytes(payload_offset(ty, entries, i) as u32),
        ),
        holds_at(
            archive_bytes(ty, entries),
            4 + 8 * i + 4,
            le32_bytes(entries[i].payload.len() as u32),
        ),
        ty is Pak ==> holds_at(
            archive_bytes(ty, entries),
            4 + 8 * (entries.len() as int) + 4 * i,
            le32_bytes(name_offset(entries, i) as u32),
        ),
        ty is Pak ==> holds_at(
            archive_bytes(ty, entries),
            name_offset(entries, i),
            name_record(entries[i]),
        ),
        holds_at(archive_bytes(ty, entries), payload_offset(ty, entries, i), entries[i].payload),
{
    let n = entries.len() as int;
    let data = archive_bytes(ty, entries);
    lemma_sections(ty, entries);
    let records = index_records(ty, entries);
    lemma_join_holds(records, n, i);
    lemma_join_len_fixed(records, 8, i);
    lemma_holds_within(data, 4, join(records, n), 8 * i, records[i]);
    lemma_holds_halves(
        data,
        4 + 8 * i,
        le32_bytes(payload_offset(ty, entries, i) as u32),
        le32_bytes(entries[i].payload.len() as u32),
    );
    lemma_join_holds(payloads(entries), n, i);
    lemma_holds_within(
        data,
        payloads_start(ty, entries),
        join(payloads(entries), n),
        join_len(payloads(entries), i),
        entries[i].payload,
    );
    if ty is Pak {
        let slots = name_slots(entries);
        lemma_join_holds(slots, n, i);
        lemma_join_len_fixed(slots, 4, i);
        lemma_holds_within(data, 4 + 8 * n, join(slots, n), 4 * i, slots[i]);
        lemma_join_holds(name_records(entries), n, i);
        lemma_holds_within(
            data,
            names_start(n),
            join(name_records(entries), n),
            join_len(name_records(entries), i),
            name_record(entries[i]),
        );
    }
}

/// How the offsets of an archive follow one another: the names behind the
/// two tables, each name behind the one before it, the payloads behind the
/// names, each payload behind the one before it, and the archive's end
/// behind them all.
pub proof fn lemma_offsets(ty: ArchiveType, entries: Seq<PackEntry>, i: int)
    requires
        0 <= i <= entries.len(),
    ensures
        4 + 8 * entries.len() <= payloads_start(ty, entries),
        ty is Pak ==> names_start(entries.len() as int) <= name_offset(entries, i)
            <= payloads_start(ty, entries),
        payloads_start(ty, entries) <= payload_offset(ty, entries, i) <= archive_len(ty, entries),
        i < entries.len() ==> name_offset(entries, i + 1) == name_offset(entries, i)
            + name_bytes(entries[i]).len() + 2,
        i < entries.len() ==> payload_offset(ty, entries, i + 1) == payload_offset(ty, entries, i)
            + entries[i].payload.len(),
{
    let n = entries.len() as int;
    lemma_join_len(name_records(entries), n);
    lemma_join_len(name_records(entries), i);
    lemma_join_len(payloads(entries), i);
    lemma_join_len_monotone(name_records(entries), i, n);
    lemma_join_len_monotone(payloads(entries), i, n);
}

} // verus!
