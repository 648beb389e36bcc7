//! Directory records as bytes, and where they lie in a directory's sectors.

use crate::bytes::push_all;
#[allow(unused_imports)]
use crate::iso::extent::{align_up, align_up_bounds, is_sector_size};
use crate::iso::records::{PendingRecord, PendingRecords};
#[allow(unused_imports)]
use crate::iso::records::{even_up, record_views, RecordView};
#[allow(unused_imports)]
use crate::iso::susp::both32;
use crate::iso::susp::push_both32;
use crate::iso::time::RripTime;
use vstd::prelude::*;

verus! {

/// Bytes of a record: the header of 33 bytes and the identifier, filled up to an even
/// length, then the System Use data.
pub open spec fn record_size(r: RecordView) -> int {
    even_up((33 + r.name.len()) as int) + r.inline.len()
}

/// The bytes of a record: its length, no extended attributes, extent, data length, time,
/// flags, no interleaving, volume 1, the identifier's length, the identifier, System Use
/// data.
pub open spec fn record_bytes(r: RecordView, time: Seq<u8>) -> Seq<u8> {
    seq![record_size(r) as u8, 0u8] + both32(r.dir_ref.extent.0 as u32) + both32(
        r.dir_ref.size as u32,
    ) + time + seq![r.flags.bits, 0u8, 0u8, 1u8, 0u8, 0u8, 1u8, r.name.len() as u8] + r.name + (
    if r.name.len() % 2 == 0 {
        seq![0u8]
    } else {
        Seq::empty()
    }) + r.inline
}

/// Bytes of a record.
pub fn directory_record_size(record: &PendingRecord) -> (r: usize)
    requires
        record_size(record.view()) <= usize::MAX,
    ensures
        r == record_size(record.view()),
{
    let raw: usize = 33 + record.name.as_bytes().len();
    raw + raw % 2 + record.split.inline.len()
}

/// The bytes of a record.
pub fn encode_directory_record(record: &PendingRecord, time: &RripTime) -> (out: Vec<u8>)
    requires
        record_size(record.view()) <= 255,
    ensures
        out@ == record_bytes(record.view(), time@),
        out@.len() == record_size(record.view()),
{
    let mut out: Vec<u8> = Vec::new();
    let name: &[u8] = record.name.as_bytes();
    out.push(directory_record_size(record) as u8);
    out.push(0);
    push_both32(&mut out, record.dir_ref.extent.0 as u32);
    push_both32(&mut out, record.dir_ref.size as u32);
    push_all(&mut out, time);
    out.push(record.flags.bits);
    out.push(0);
    out.push(0);
    out.push(1);
    out.push(0);
    out.push(0);
    out.push(1);
    out.push(name.len() as u8);
    let ghost header = out@;
    let ghost r = record.view();
    assert(header =~= seq![record_size(r) as u8, 0u8] + both32(r.dir_ref.extent.0 as u32) + both32(
        r.dir_ref.size as u32,
    ) + time@ + seq![r.flags.bits, 0u8, 0u8, 1u8, 0u8, 0u8, 1u8, r.name.len() as u8]);
    push_all(&mut out, name);
    if name.len() % 2 == 0 {
        out.push(0);
    }
    push_all(&mut out, record.split.inline.as_slice());
    assert(out@ =~= record_bytes(r, time@));
    out
}

/// Where a record of the given size is put if the next free byte is `pos`: there, or in
/// the next sector where it would cross the end of this one.
pub open spec fn place_record(pos: int, size: int, s: int) -> int {
    if size > s - pos % s {
        pos + (s - pos % s)
    } else {
        pos
    }
}

/// The byte behind the records that start at `pos`.
pub open spec fn pack_end(pos: int, records: Seq<RecordView>, s: int) -> int
    decreases records.len(),
{
    if records.len() == 0 {
        pos
    } else {
        let size = record_size(records.last());
        place_record(pack_end(pos, records.drop_last(), s), size, s) + size
    }
}

/// A record that fits into a sector does not cross the end of one.
pub proof fn records_stay_within_sectors(pos: int, size: int, s: int)
    requires
        0 <= pos,
        0 < size <= s,
    ensures
        pos <= place_record(pos, size, s),
        place_record(pos, size, s) % s + size <= s,
        place_record(pos, size, s) / s == (place_record(pos, size, s) + size - 1) / s,
{
    let p = place_record(pos, size, s);
    vstd::arithmetic::div_mod::lemma_fundamental_div_mod(pos, s);
    if size > s - pos % s {
        assert(p == s * (pos / s + 1)) by (nonlinear_arith)
            requires
                p == pos + (s - pos % s),
                pos == s * (pos / s) + pos % s,
        ;
        vstd::arithmetic::div_mod::lemma_fundamental_div_mod_converse(p, s, pos / s + 1, 0);
    }
    vstd::arithmetic::div_mod::lemma_fundamental_div_mod(p, s);
    vstd::arithmetic::div_mod::lemma_fundamental_div_mod_converse(
        p + size - 1,
        s,
        p / s,
        p % s + size - 1,
    );
}

/// Each record moves the end of the records up.
pub proof fn pack_end_grows(pos: int, records: Seq<RecordView>, k: int, s: int)
    requires
        0 <= k <= records.len(),
        s > 0,
        pos >= 0,
    ensures
        pos <= pack_end(pos, records.take(k), s) <= pack_end(pos, records, s),
    decreases records.len(),
{
    if records.len() == 0 {
        assert(records.take(k) =~= records);
    } else {
        let prev = records.drop_last();
        pack_end_grows(pos, prev, prev.len() as int, s);
        assert(prev.take(prev.len() as int) =~= prev);
        let p = pack_end(pos, prev, s);
        assert(0 <= p % s < s) by {
            vstd::arithmetic::div_mod::lemma_mod_bound(p, s);
        }
        if k == records.len() {
            assert(records.take(k) =~= records);
        } else {
            assert(prev.take(k) =~= records.take(k));
            pack_end_grows(pos, prev, k, s);
        }
    }
}

/// The sector in which a directory's records start if the next free byte is `pos`, and how
/// many sectors they take. No record crosses the end of a sector.
pub fn layout_directory_records(pos: u64, sector_size: u64, records: &PendingRecords) -> (r: (
    u64,
    u64,
))
    requires
        is_sector_size(sector_size),
        forall|i: int|
            0 <= i < records@.len() ==> record_size(#[trigger] records@[i]) <= usize::MAX,
        pack_end(align_up(pos as int, sector_size as int), records@, sector_size as int)
            + sector_size <= u64::MAX,
    ensures
        ({
            let s = sector_size as int;
            let start = align_up(pos as int, s);
            &&& r.0 == start / s
            &&& r.1 == (align_up(pack_end(start, records@, s), s) - start) / s
        }),
{
    let ghost s = sector_size as int;
    let ghost all = records@;
    let ghost first = align_up(pos as int, s);
    proof {
        align_up_bounds(pos as int, s);
        pack_end_grows(first, all, 0, s);
        assert(all.take(0) =~= Seq::empty());
    }
    let start: u64 = align(pos, sector_size);
    let mut at: u64 = start;
    let items: &Vec<PendingRecord> = records.iter();
    let mut i: usize = 0;
    while i < items.len()
        invariant
            i <= items@.len(),
            all == record_views(items@),
            all == records@,
            s == sector_size,
            s > 0,
            first == start,
            first >= 0,
            forall|k: int| 0 <= k < all.len() ==> record_size(#[trigger] all[k]) <= usize::MAX,
            pack_end(first, all, s) + s <= u64::MAX,
            at == pack_end(first, all.take(i as int), s),
        decreases items.len() - i,
    {
        proof {
            assert(all[i as int] == items@[i as int].view());
            assert(all.take(i + 1).drop_last() =~= all.take(i as int));
            pack_end_grows(first, all, i + 1, s);
            vstd::arithmetic::div_mod::lemma_mod_bound(at as int, s);
        }
        let size: u64 = directory_record_size(&items[i]) as u64;
        let remaining: u64 = sector_size - at % sector_size;
        if size > remaining {
            at = at + remaining;
        }
        at = at + size;
        i += 1;
    }
    assert(all.take(i as int) =~= all);
    proof {
        align_up_bounds(at as int, s);
    }
    let end: u64 = align(at, sector_size);
    (start / sector_size, (end - start) / sector_size)
}

/// The first multiple of the sector size that is not below `pos`.
pub fn align(pos: u64, sector_size: u64) -> (r: u64)
    requires
        sector_size > 0,
        pos + sector_size <= u64::MAX,
    ensures
        r == align_up(pos as int, sector_size as int),
{
    let q: u64 = (pos + (sector_size - 1)) / sector_size;
    proof {
        align_up_bounds(pos as int, sector_size as int);
        assert(q == (pos + sector_size - 1) / sector_size as int);
    }
    q * sector_size
}

/// Whether moving from one position to an aligned one leaves bytes to be written.
pub fn alignment_requires_materialization(current_position: u64, aligned_position: u64) -> (r: bool)
    ensures
        r == (aligned_position > current_position),
{
    aligned_position > current_position
}

} // verus!
