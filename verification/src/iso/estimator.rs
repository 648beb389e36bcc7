//! An estimate of the size of an image before it is written.

use crate::iso::extent::MAX_EXTENT_SIZE;
use crate::iso::name::find_first_dot;
#[allow(unused_imports)]
use crate::iso::name::{base_identifier, file_identifier, first_dot, first_dot_bounds};
use crate::iso::options::{build_entry_types, CreationFeatures, IsoFormatOptions, PartitionScheme};
#[allow(unused_imports)]
use crate::iso::options::{entry_types_of, has_gpt};
#[allow(unused_imports)]
use crate::iso::records::even_up;
#[allow(unused_imports)]
use crate::iso::susp::{concat, sl_fields};
use crate::iso::susp::RripBuilder;
#[allow(unused_imports)]
use crate::iso::tree::{entries_view, files_view, relocates, EntryView, KindView};
use crate::iso::tree::{File, InputEntry, InputEntryKind, InputFiles, InputTree};
use crate::iso::types::EntryType;
use crate::iso::planned::plan_image;
#[allow(unused_imports)]
use crate::iso::planned::planned_len;
use crate::iso::usual_size::{usual_entries, usual_files};
#[allow(unused_imports)]
use crate::iso::usual_size::{tree_usual, usual_pair, Usual};
use crate::text::encode_utf16;
#[allow(unused_imports)]
use crate::text::utf16;
use vstd::prelude::*;
#[allow(unused_imports)]
use vstd::utf8::encode_utf8;

verus! {

/// The parts of an estimate, in bytes.
#[derive(Debug, Clone, Copy, PartialEq, Eq)]
pub struct SizeBreakdown {
    /// System area.
    pub system_area: u64,
    /// Volume descriptors.
    pub volume_descriptors: u64,
    /// Path tables.
    pub path_tables: u64,
    /// Directory records.
    pub directory_records: u64,
    /// Continuation areas.
    pub continuation_areas: u64,
    /// File data in whole sectors.
    pub file_data: u64,
    /// Boot catalog.
    pub boot_catalog: u64,
    /// Backup GPT.
    pub backup_gpt: u64,
}

impl Default for SizeBreakdown {
    fn default() -> (r: Self)
        ensures
            r == (SizeBreakdown {
                system_area: 0,
                volume_descriptors: 0,
                path_tables: 0,
                directory_records: 0,
                continuation_areas: 0,
                file_data: 0,
                boot_catalog: 0,
                backup_gpt: 0,
            }),
    {
        SizeBreakdown {
            system_area: 0,
            volume_descriptors: 0,
            path_tables: 0,
            directory_records: 0,
            continuation_areas: 0,
            file_data: 0,
            boot_catalog: 0,
            backup_gpt: 0,
        }
    }
}

/// An estimate.
#[derive(Debug, Clone, Copy, PartialEq, Eq)]
pub struct IsoSizeEstimate {
    /// Sectors.
    pub minimum_sectors: u64,
    /// The parts.
    pub breakdown: SizeBreakdown,
}

impl IsoSizeEstimate {
    /// Bytes, at 2048 to a sector.
    pub fn minimum_bytes(&self) -> (r: u64)
        requires
            self.minimum_sectors * 2048 <= u64::MAX,
        ensures
            r == self.minimum_sectors * 2048,
    {
        self.minimum_sectors * 2048
    }
}

/// What the walk over a tree counts.
#[derive(Debug, Clone, Copy)]
pub struct TreeStats {
    /// Directories.
    pub dir_count: u64,
    /// Everything else.
    pub file_count: u64,
    /// File data in whole sectors.
    pub total_file_bytes: u64,
    /// Bytes of directory identifiers.
    pub dir_name_bytes: u64,
    /// Directory records of all namespaces in whole sectors.
    pub dir_record_bytes: u64,
    /// Continuation areas in whole sectors.
    pub area_bytes: u64,
    /// Rock Ridge fields in the records of directories.
    pub dir_field_bytes: u64,
}

/// The mathematical value of a [`TreeStats`].
pub struct Stats {
    /// Directories.
    pub dirs: int,
    /// Everything else.
    pub files: int,
    /// File data in whole sectors.
    pub file_bytes: int,
    /// Bytes of directory identifiers.
    pub name_bytes: int,
    /// Directory records of all namespaces in whole sectors.
    pub record_bytes: int,
    /// Continuation areas in whole sectors.
    pub area_bytes: int,
    /// Rock Ridge fields in the records of directories.
    pub field_bytes: int,
}

impl Stats {
    /// Both together.
    pub open spec fn plus(self, other: Stats) -> Stats {
        Stats {
            dirs: self.dirs + other.dirs,
            files: self.files + other.files,
            file_bytes: self.file_bytes + other.file_bytes,
            name_bytes: self.name_bytes + other.name_bytes,
            record_bytes: self.record_bytes + other.record_bytes,
            area_bytes: self.area_bytes + other.area_bytes,
            field_bytes: self.field_bytes + other.field_bytes,
        }
    }

    /// Whether every count fits 64 bits.
    pub open spec fn fits(self) -> bool {
        &&& self.dirs < u64::MAX
        &&& self.files <= u64::MAX
        &&& self.file_bytes <= u64::MAX
        &&& self.name_bytes <= u64::MAX
        &&& self.record_bytes <= u64::MAX
        &&& self.area_bytes <= u64::MAX
        &&& self.field_bytes <= u64::MAX
    }

    /// Whether no count is negative.
    pub open spec fn natural(self) -> bool {
        &&& self.dirs >= 0
        &&& self.files >= 0
        &&& self.file_bytes >= 0
        &&& self.name_bytes >= 0
        &&& self.record_bytes >= 0
        &&& self.area_bytes >= 0
        &&& self.field_bytes >= 0
    }
}

/// Nothing counted.
pub open spec fn no_stats() -> Stats {
    Stats {
        dirs: 0,
        files: 0,
        file_bytes: 0,
        name_bytes: 0,
        record_bytes: 0,
        area_bytes: 0,
        field_bytes: 0,
    }
}

impl TreeStats {
    /// The mathematical value.
    pub open spec fn view(&self) -> Stats {
        Stats {
            dirs: self.dir_count as int,
            files: self.file_count as int,
            file_bytes: self.total_file_bytes as int,
            name_bytes: self.dir_name_bytes as int,
            record_bytes: self.dir_record_bytes as int,
            area_bytes: self.area_bytes as int,
            field_bytes: self.dir_field_bytes as int,
        }
    }
}

/// How many sectors `bytes` take.
pub open spec fn sectors(bytes: int, s: int) -> int {
    bytes / s + (if bytes % s == 0 {
        0int
    } else {
        1int
    })
}

/// `bytes` in whole sectors.
pub open spec fn whole(bytes: int, s: int) -> int {
    sectors(bytes, s) * s
}

/// The smaller of two numbers.
pub open spec fn least(a: int, b: int) -> int {
    if a < b {
        a
    } else {
        b
    }
}

/// The larger of two numbers.
pub open spec fn most(a: int, b: int) -> int {
    if a < b {
        b
    } else {
        a
    }
}

/// The most bytes that the identifier of a name has in a namespace.
pub open spec fn estimated_name_len(name: Seq<char>, ty: EntryType) -> int {
    let utf8 = encode_utf8(name);
    match ty {
        EntryType::Level1 { .. } => {
            let p = first_dot(utf8);
            if p < utf8.len() {
                least(p, 8) + 1 + least(utf8.len() - p - 1, 3) + 2
            } else {
                least(utf8.len() as int, 8) + 2
            }
        },
        EntryType::Level2 { .. } => least(utf8.len() as int, 30) + 2,
        EntryType::Level3 { .. } => least(utf8.len() as int, 207),
        EntryType::Joliet { .. } => least(utf16(name).len() as int, 103) * 2,
    }
}

/// The most bytes that the identifier of a name has in any of the namespaces.
pub open spec fn longest_name_len(name: Seq<char>, types: Seq<EntryType>) -> int
    decreases types.len(),
{
    if types.len() == 0 {
        0
    } else {
        most(longest_name_len(name, types.drop_last()), estimated_name_len(name, types.last()))
    }
}

/// How many decimal digits a number has.
pub open spec fn digits(n: int) -> int
    decreases n,
{
    if n < 10 {
        1
    } else {
        1 + digits(n / 10)
    }
}

/// The most bytes that an identifier gains where it must be kept apart from others, in a
/// directory with `n` entries and up to two more.
pub open spec fn suffix_room(ty: EntryType, n: int) -> int {
    let r = 1 + digits(n + 5);
    if ty is Joliet {
        2 * r
    } else {
        r
    }
}

/// Bytes of the Rock Ridge fields that only some kinds of entries have: the target of a
/// link, the number of a device, where a directory was moved to.
pub open spec fn kind_len(kind: KindView) -> int {
    match kind {
        KindView::Symlink(target) => concat(sl_fields(encode_utf8(target))).len() as int,
        KindView::CharacterDevice(..) => 20,
        KindView::BlockDevice(..) => 20,
        KindView::Directory(_) => 12,
        KindView::File(_) => 0,
    }
}

/// The most bytes that the NM fields of a name of `n` bytes take.
pub open spec fn name_fields_len(n: int) -> int {
    n + 5 * (n / 250 + 1)
}

/// The most bytes that the Rock Ridge fields of an entry take: PX and TF have 70, NM five
/// for each 250 bytes of the name.
pub open spec fn fields_len(entry: EntryView) -> int {
    70 + name_fields_len(encode_utf8(entry.name).len() as int) + kind_len(entry.kind)
}

/// How many records an entry has: one for each extent of a file, and one for anything else.
pub open spec fn record_count(kind: KindView) -> int {
    match kind {
        KindView::File(contents) => if contents.len() <= MAX_EXTENT_SIZE {
            1
        } else {
            (contents.len() + MAX_EXTENT_SIZE - 1) / (MAX_EXTENT_SIZE as int)
        },
        _ => 1,
    }
}

/// The most bytes that the records of an entry take in a directory with `n` entries: header
/// and identifier, filled up to an even length, and in the first record the Rock Ridge
/// fields, but never more than 255 in a record.
pub open spec fn estimated_record(entry: EntryView, ty: EntryType, n: int) -> int {
    let plain = even_up(33 + estimated_name_len(entry.name, ty) + suffix_room(ty, n));
    least(
        plain + (if ty.rrip() {
            fields_len(entry)
        } else {
            0
        }),
        255,
    ) + (record_count(entry.kind) - 1) * least(plain, 255)
}

/// The most bytes that the records of entries take in a directory with `n` of them, with
/// those of the directory itself and of its parent.
pub open spec fn dir_total(entries: Seq<EntryView>, ty: EntryType, n: int) -> int
    decreases entries.len(),
{
    if entries.len() == 0 {
        if ty.rrip() {
            384
        } else {
            68
        }
    } else {
        dir_total(entries.drop_last(), ty, n) + estimated_record(entries.last(), ty, n)
    }
}

/// The most bytes of an entry's Rock Ridge fields that do not fit its record.
pub open spec fn estimated_overflow(entry: EntryView, ty: EntryType) -> int {
    if even_up(33 + estimated_name_len(entry.name, ty)) + fields_len(entry) <= 256 {
        0
    } else {
        fields_len(entry)
    }
}

/// The most bytes that the continuation area of a directory takes, but for what that of the
/// root holds for the root itself.
pub open spec fn area_total(entries: Seq<EntryView>, ty: EntryType) -> int
    decreases entries.len(),
{
    if entries.len() == 0 {
        0
    } else {
        area_total(entries.drop_last(), ty) + estimated_overflow(entries.last(), ty)
    }
}

/// The most bytes of any identifier in a namespace.
pub open spec fn longest_identifier(ty: EntryType) -> int {
    match ty {
        EntryType::Level1 { .. } => 14,
        EntryType::Level2 { .. } => 32,
        EntryType::Level3 { .. } => 207,
        EntryType::Joliet { .. } => 206,
    }
}

/// The most bytes of one record in a directory with `n` entries.
pub open spec fn widest_record(ty: EntryType, n: int) -> int {
    if ty.rrip() {
        255
    } else {
        least(even_up(33 + longest_identifier(ty) + suffix_room(ty, n)), 255)
    }
}

/// How many bytes of a sector are filled at least before a record of at most `widest` bytes
/// goes to the next.
pub open spec fn filled(widest: int, s: int) -> int {
    if s >= widest {
        s - widest + 1
    } else {
        1
    }
}

/// The most sectors that records of `total` bytes take, each of at most `widest`, none of
/// which crosses the end of a sector.
pub open spec fn packed_sectors(total: int, widest: int, s: int) -> int {
    if total <= s {
        1
    } else {
        total / filled(widest, s) + 1
    }
}

/// The most bytes that the records of a directory take in all namespaces.
pub open spec fn dir_space(entries: Seq<EntryView>, types: Seq<EntryType>, s: int) -> int
    decreases types.len(),
{
    if types.len() == 0 {
        0
    } else {
        dir_space(entries, types.drop_last(), s) + packed_sectors(
            dir_total(entries, types.last(), entries.len() as int),
            widest_record(types.last(), entries.len() as int),
            s,
        ) * s
    }
}

/// The most bytes that the continuation areas of a directory take in all namespaces.
pub open spec fn area_space(entries: Seq<EntryView>, types: Seq<EntryType>, s: int) -> int
    decreases types.len(),
{
    if types.len() == 0 {
        0
    } else {
        area_space(entries, types.drop_last(), s) + (if types.last().rrip() {
            whole(area_total(entries, types.last()), s)
        } else {
            0
        })
    }
}

/// Whether any namespace has Rock Ridge fields.
pub open spec fn any_rrip(types: Seq<EntryType>) -> bool {
    exists|i: int| 0 <= i < types.len() && (#[trigger] types[i]).rrip()
}

/// What an entry and those below it count for.
pub open spec fn entry_stats(entry: EntryView, types: Seq<EntryType>, s: int) -> Stats
    decreases entry,
{
    match entry.kind {
        KindView::File(contents) => Stats {
            files: 1,
            file_bytes: whole(contents.len() as int, s),
            ..no_stats()
        },
        KindView::Directory(children) => Stats {
            dirs: 1,
            name_bytes: longest_name_len(entry.name, types),
            field_bytes: fields_len(entry),
            ..no_stats()
        }.plus(tree_stats(children, types, s)),
        _ => Stats { files: 1, ..no_stats() },
    }
}

/// What entries and those below them count for, without the directory that holds them.
pub open spec fn list_stats(entries: Seq<EntryView>, types: Seq<EntryType>, s: int) -> Stats
    decreases entries, 0nat,
{
    if entries.len() == 0 {
        no_stats()
    } else {
        list_stats(entries.drop_last(), types, s).plus(entry_stats(entries.last(), types, s))
    }
}

/// What a directory with the given entries counts for.
pub open spec fn tree_stats(entries: Seq<EntryView>, types: Seq<EntryType>, s: int) -> Stats
    decreases entries, 1nat,
{
    list_stats(entries, types, s).plus(
        Stats {
            record_bytes: dir_space(entries, types, s),
            area_bytes: area_space(entries, types, s),
            ..no_stats()
        },
    )
}

/// What takes whole sectors takes less than a sector more.
pub proof fn sectors_bounds(bytes: int, s: int)
    requires
        bytes >= 0,
        s > 0,
    ensures
        0 <= sectors(bytes, s),
        bytes <= whole(bytes, s) < bytes + s,
        whole(0, s) == 0,
{
    vstd::arithmetic::div_mod::lemma_fundamental_div_mod(bytes, s);
    vstd::arithmetic::div_mod::lemma_mod_bound(bytes, s);
    vstd::arithmetic::div_mod::lemma_div_pos_is_pos(bytes, s);
    let q = bytes / s;
    assert((q + 1) * s == s * q + s) by (nonlinear_arith);
    assert(q * s == s * q) by (nonlinear_arith);
    vstd::arithmetic::div_mod::lemma_fundamental_div_mod_converse(0, s, 0, 0);
}

/// No identifier has a negative length, and no more than 207 bytes.
pub proof fn name_len_natural(name: Seq<char>, ty: EntryType)
    ensures
        0 <= estimated_name_len(name, ty) <= longest_identifier(ty) <= 207,
{
    first_dot_bounds(encode_utf8(name));
}

proof fn longest_natural(name: Seq<char>, types: Seq<EntryType>)
    ensures
        0 <= longest_name_len(name, types) <= 207,
    decreases types.len(),
{
    if types.len() > 0 {
        longest_natural(name, types.drop_last());
        name_len_natural(name, types.last());
    }
}

proof fn digits_natural(n: int)
    ensures
        digits(n) >= 1,
    decreases n,
{
    if n >= 10 {
        digits_natural(n / 10);
    }
}

/// What an entry takes is never negative.
pub proof fn record_natural(entry: EntryView, ty: EntryType, n: int)
    ensures
        fields_len(entry) >= 0,
        record_count(entry.kind) >= 1,
        estimated_record(entry, ty, n) >= 0,
        estimated_overflow(entry, ty) >= 0,
        estimated_record(entry, ty, n) <= 255 * record_count(entry.kind),
        suffix_room(ty, n) >= 2,
{
    name_len_natural(entry.name, ty);
    digits_natural(n + 5);
    let plain = even_up(33 + estimated_name_len(entry.name, ty) + suffix_room(ty, n));
    let k = record_count(entry.kind) - 1;
    assert(k * least(plain, 255) >= 0 && k * least(plain, 255) <= k * 255) by (nonlinear_arith)
        requires
            k >= 0,
            0 <= least(plain, 255) <= 255,
    ;
}

proof fn totals_prefix(entries: Seq<EntryView>, k: int, ty: EntryType, n: int)
    requires
        0 <= k <= entries.len(),
    ensures
        0 <= dir_total(entries.take(k), ty, n) <= dir_total(entries, ty, n),
        0 <= area_total(entries.take(k), ty) <= area_total(entries, ty),
    decreases entries.len(),
{
    if entries.len() > 0 {
        let init = entries.drop_last();
        record_natural(entries.last(), ty, n);
        if k == entries.len() {
            assert(entries.take(k) =~= entries);
            totals_prefix(init, k - 1, ty, n);
            assert(init.take(k - 1) =~= init);
        } else {
            assert(init.take(k) =~= entries.take(k));
            totals_prefix(init, k, ty, n);
        }
    } else {
        assert(entries.take(k) =~= entries);
    }
}

/// Records take at least their bytes, and at least a sector.
pub proof fn packed_bounds(total: int, widest: int, s: int)
    requires
        s > 0,
        total >= 0,
        widest >= 1,
    ensures
        packed_sectors(total, widest, s) >= 1,
        packed_sectors(total, widest, s) * s >= total,
        packed_sectors(total, widest, s) * s >= s,
{
    let q = packed_sectors(total, widest, s);
    let f = filled(widest, s);
    vstd::arithmetic::div_mod::lemma_fundamental_div_mod(total, f);
    vstd::arithmetic::div_mod::lemma_mod_bound(total, f);
    vstd::arithmetic::div_mod::lemma_div_pos_is_pos(total, f);
    assert(q * s >= s) by (nonlinear_arith)
        requires
            q >= 1,
            s > 0,
    ;
    if total > s {
        let d = total / f;
        assert(f * d <= s * d) by (nonlinear_arith)
            requires
                f <= s,
                d >= 0,
        ;
        assert((d + 1) * s == s * d + s) by (nonlinear_arith);
    }
}

/// A record has at least 34 bytes, and no more than 255.
pub proof fn widest_bounds(ty: EntryType, n: int)
    ensures
        34 <= widest_record(ty, n) <= 255,
{
    digits_natural(n + 5);
}

proof fn space_natural(entries: Seq<EntryView>, types: Seq<EntryType>, s: int)
    requires
        s > 0,
    ensures
        0 <= dir_space(entries, types, s),
        0 <= area_space(entries, types, s),
    decreases types.len(),
{
    if types.len() > 0 {
        space_natural(entries, types.drop_last(), s);
        totals_prefix(entries, entries.len() as int, types.last(), entries.len() as int);
        assert(entries.take(entries.len() as int) =~= entries);
        widest_bounds(types.last(), entries.len() as int);
        packed_bounds(
            dir_total(entries, types.last(), entries.len() as int),
            widest_record(types.last(), entries.len() as int),
            s,
        );
        sectors_bounds(area_total(entries, types.last()), s);
    }
}

proof fn space_prefix(entries: Seq<EntryView>, types: Seq<EntryType>, k: int, s: int)
    requires
        s > 0,
        0 <= k < types.len(),
    ensures
        ({
            let ty = types[k];
            let n = entries.len() as int;
            &&& dir_space(entries, types.take(k + 1), s) == dir_space(entries, types.take(k), s)
                + packed_sectors(dir_total(entries, ty, n), widest_record(ty, n), s) * s
            &&& area_space(entries, types.take(k + 1), s) == area_space(
                entries,
                types.take(k),
                s,
            ) + (if ty.rrip() {
                whole(area_total(entries, ty), s)
            } else {
                0
            })
            &&& 0 <= dir_space(entries, types.take(k), s)
            &&& 0 <= area_space(entries, types.take(k), s)
            &&& 0 <= dir_total(entries, ty, n)
            &&& dir_total(entries, ty, n) <= packed_sectors(
                dir_total(entries, ty, n),
                widest_record(ty, n),
                s,
            ) * s
            &&& 0 <= area_total(entries, ty) <= whole(area_total(entries, ty), s)
            &&& dir_space(entries, types.take(k + 1), s) <= dir_space(entries, types, s)
            &&& area_space(entries, types.take(k + 1), s) <= area_space(entries, types, s)
        }),
    decreases types.len() - k,
{
    let ty = types[k];
    let n = entries.len() as int;
    assert(types.take(k + 1).drop_last() =~= types.take(k));
    assert(types.take(k + 1).last() == ty);
    space_natural(entries, types.take(k), s);
    totals_prefix(entries, n, ty, n);
    assert(entries.take(n) =~= entries);
    widest_bounds(ty, n);
    packed_bounds(dir_total(entries, ty, n), widest_record(ty, n), s);
    sectors_bounds(area_total(entries, ty), s);
    if k + 1 < types.len() {
        space_prefix(entries, types, k + 1, s);
        totals_prefix(entries, n, types[k + 1], n);
        widest_bounds(types[k + 1], n);
        packed_bounds(dir_total(entries, types[k + 1], n), widest_record(types[k + 1], n), s);
        sectors_bounds(area_total(entries, types[k + 1]), s);
    } else {
        assert(types.take(k + 1) =~= types);
    }
}

/// No count is negative.
pub proof fn stats_natural(entries: Seq<EntryView>, types: Seq<EntryType>, s: int)
    requires
        s > 0,
    ensures
        list_stats(entries, types, s).natural(),
        tree_stats(entries, types, s).natural(),
        tree_stats(entries, types, s).record_bytes >= list_stats(entries, types, s).record_bytes,
        tree_stats(entries, types, s).area_bytes >= list_stats(entries, types, s).area_bytes,
    decreases entries, 1nat,
{
    if entries.len() > 0 {
        stats_natural(entries.drop_last(), types, s);
        entry_stats_natural(entries.last(), types, s);
    }
    space_natural(entries, types, s);
}

proof fn entry_stats_natural(entry: EntryView, types: Seq<EntryType>, s: int)
    requires
        s > 0,
    ensures
        entry_stats(entry, types, s).natural(),
    decreases entry, 0nat,
{
    match entry.kind {
        KindView::Directory(children) => {
            stats_natural(children, types, s);
            longest_natural(entry.name, types);
        },
        KindView::File(contents) => {
            sectors_bounds(contents.len() as int, s);
        },
        _ => {},
    }
}

proof fn list_stats_prefix(entries: Seq<EntryView>, k: int, types: Seq<EntryType>, s: int)
    requires
        s > 0,
        0 <= k < entries.len(),
    ensures
        ({
            let before = list_stats(entries.take(k), types, s);
            let own = entry_stats(entries[k], types, s);
            let all = list_stats(entries, types, s);
            &&& list_stats(entries.take(k + 1), types, s) == before.plus(own)
            &&& before.natural()
            &&& own.natural()
            &&& before.dirs + own.dirs <= all.dirs
            &&& before.files + own.files <= all.files
            &&& before.file_bytes + own.file_bytes <= all.file_bytes
            &&& before.name_bytes + own.name_bytes <= all.name_bytes
            &&& before.record_bytes + own.record_bytes <= all.record_bytes
            &&& before.area_bytes + own.area_bytes <= all.area_bytes
            &&& before.field_bytes + own.field_bytes <= all.field_bytes
        }),
    decreases entries.len() - k,
{
    assert(entries.take(k + 1).drop_last() =~= entries.take(k));
    stats_natural(entries.take(k), types, s);
    entry_stats_natural(entries[k], types, s);
    if k + 1 < entries.len() {
        list_stats_prefix(entries, k + 1, types, s);
    } else {
        assert(entries.take(k + 1) =~= entries);
    }
}

/// How many sectors `bytes` take.
fn align_to_sector(bytes: u64, sector_size: u64) -> (r: u64)
    requires
        sector_size > 0,
    ensures
        r == sectors(bytes as int, sector_size as int),
{
    let q: u64 = bytes / sector_size;
    if bytes % sector_size == 0 {
        q
    } else {
        proof {
            vstd::arithmetic::div_mod::lemma_fundamental_div_mod(bytes as int, sector_size as int);
            let s = sector_size as int;
            assert(s * q >= q) by (nonlinear_arith)
                requires
                    s >= 1,
                    q >= 0,
            ;
        }
        q + 1
    }
}

/// `bytes` in whole sectors.
pub(crate) fn whole_sectors(bytes: u64, sector_size: u64) -> (r: u64)
    requires
        sector_size > 0,
        whole(bytes as int, sector_size as int) <= u64::MAX,
    ensures
        r == whole(bytes as int, sector_size as int),
{
    align_to_sector(bytes, sector_size) * sector_size
}

/// The most bytes that records of `total` bytes, each of at most `widest`, take in whole
/// sectors.
fn packed_space(total: u64, widest: u64, sector_size: u64) -> (r: u64)
    requires
        sector_size > 0,
        widest > 0,
        packed_sectors(total as int, widest as int, sector_size as int) * sector_size <= u64::MAX,
    ensures
        r == packed_sectors(total as int, widest as int, sector_size as int) * sector_size,
{
    if total <= sector_size {
        assert(1 * sector_size == sector_size);
        sector_size
    } else {
        let full: u64 = if sector_size >= widest {
            sector_size - widest + 1
        } else {
            1
        };
        let q: u64 = total / full;
        proof {
            let (a, b) = (q as int, sector_size as int);
            vstd::arithmetic::div_mod::lemma_div_pos_is_pos(total as int, full as int);
            assert((a + 1) * b >= a + 1) by (nonlinear_arith)
                requires
                    b >= 1,
                    a >= 0,
            ;
        }
        (q + 1) * sector_size
    }
}

/// The most bytes that the identifier of a name has in a namespace.
pub(crate) fn estimate_converted_name_len(name: &str, ty: EntryType) -> (r: u64)
    ensures
        r == estimated_name_len(name@, ty),
        r <= 207,
{
    let utf8: &[u8] = name.as_bytes();
    let len: usize = utf8.len();
    match ty {
        EntryType::Level1 { .. } => {
            let p: usize = find_first_dot(utf8);
            if p < len {
                let base: usize = if p < 8 {
                    p
                } else {
                    8
                };
                let rest: usize = len - p - 1;
                let ext: usize = if rest < 3 {
                    rest
                } else {
                    3
                };
                (base + 1 + ext + 2) as u64
            } else {
                let base: usize = if len < 8 {
                    len
                } else {
                    8
                };
                (base + 2) as u64
            }
        },
        EntryType::Level2 { .. } => {
            let base: usize = if len < 30 {
                len
            } else {
                30
            };
            (base + 2) as u64
        },
        EntryType::Level3 { .. } => {
            let base: usize = if len < 207 {
                len
            } else {
                207
            };
            base as u64
        },
        EntryType::Joliet { .. } => {
            let units: usize = encode_utf16(name).len();
            let kept: usize = if units < 103 {
                units
            } else {
                103
            };
            (kept * 2) as u64
        },
    }
}

/// The most bytes that the identifier of a name has in any of the namespaces.
fn longest_converted_name_len(name: &str, entry_types: &Vec<EntryType>) -> (r: u64)
    ensures
        r == longest_name_len(name@, entry_types@),
        r <= 207,
{
    let ghost types = entry_types@;
    let mut longest: u64 = 0;
    let mut i: usize = 0;
    assert(types.take(0) =~= Seq::empty());
    while i < entry_types.len()
        invariant
            i <= entry_types@.len(),
            types == entry_types@,
            longest <= 207,
            longest == longest_name_len(name@, types.take(i as int)),
        decreases entry_types.len() - i,
    {
        let len: u64 = estimate_converted_name_len(name, entry_types[i]);
        assert(types.take(i + 1).drop_last() =~= types.take(i as int));
        if longest < len {
            longest = len;
        }
        i += 1;
    }
    assert(types.take(i as int) =~= types);
    longest
}

/// How many decimal digits a number has.
fn count_digits(n: u128) -> (r: u64)
    ensures
        r == digits(n as int),
        1 <= r <= 39,
{
    let mut rest: u128 = n;
    let mut count: u64 = 1;
    while rest >= 10
        invariant
            count + digits(rest as int) == 1 + digits(n as int),
            1 <= count <= 39,
            digits_bound(count as int) * rest <= n,
        decreases rest,
    {
        proof {
            let b = digits_bound(count as int);
            let q = (rest / 10) as int;
            digits_bound_positive(count as int);
            assert(b * rest >= b * (10 * q)) by (nonlinear_arith)
                requires
                    rest >= 10 * q,
                    b >= 0,
            ;
            assert(b * (10 * q) == (10 * b) * q) by (nonlinear_arith);
            digits_bound_step(count as int, q, n as int);
        }
        rest = rest / 10;
        count = count + 1;
    }
    count
}

/// Ten to the power of `k - 1`.
spec fn digits_bound(k: int) -> int
    decreases k,
{
    if k <= 1 {
        1
    } else {
        10 * digits_bound(k - 1)
    }
}

proof fn digits_bound_positive(k: int)
    ensures
        digits_bound(k) >= 1,
    decreases k,
{
    if k > 1 {
        digits_bound_positive(k - 1);
    }
}

proof fn digits_bound_step(k: int, q: int, n: int)
    requires
        1 <= k <= 39,
        q >= 1,
        (10 * digits_bound(k)) * q <= n,
        n <= u128::MAX,
    ensures
        digits_bound(k + 1) == 10 * digits_bound(k),
        k + 1 <= 39,
{
    if k == 39 {
        reveal_with_fuel(digits_bound, 40);
        assert(digits_bound(39) == 100000000000000000000000000000000000000);
        assert((10 * digits_bound(39)) * q >= 10 * digits_bound(39)) by (nonlinear_arith)
            requires
                q >= 1,
                digits_bound(39) >= 0,
        ;
    }
}

/// Bytes of the Rock Ridge fields that only some kinds of entries have.
fn kind_estimate(kind: &InputEntryKind) -> (r: u128)
    ensures
        r == kind_len(kind.view()),
        r <= 0xFFFF_FFFF_FFFF_FFFE_0000_0000_0000_0001,
{
    match kind {
        InputEntryKind::Symlink(target) => {
            let mut builder: RripBuilder = RripBuilder::new();
            builder.add_sl(target.as_str());
            assert(builder@ =~= sl_fields(encode_utf8(target@)));
            builder.total_len()
        },
        InputEntryKind::CharacterDevice { .. } => 20,
        InputEntryKind::BlockDevice { .. } => 20,
        InputEntryKind::Directory(_) => 12,
        InputEntryKind::File(_) => 0,
    }
}

/// How many records a file of `len` bytes has.
fn file_records_estimate(len: usize, Ghost(contents): Ghost<Seq<u8>>) -> (r: u64)
    requires
        len == contents.len(),
    ensures
        r == record_count(KindView::File(contents)),
        r <= 0x1_0000_1000,
{
    if len as u64 <= MAX_EXTENT_SIZE {
        1
    } else {
        let n: u128 = (len as u128 + (MAX_EXTENT_SIZE as u128 - 1)) / MAX_EXTENT_SIZE as u128;
        n as u64
    }
}

/// The most bytes that an identifier gains where it must be kept apart from others.
fn suffix_room_len(ty: EntryType, n: usize) -> (r: u64)
    ensures
        r == suffix_room(ty, n as int),
        r <= 100,
{
    let suffix: u64 = 1 + count_digits(n as u128 + 5);
    match ty {
        EntryType::Joliet { .. } => 2 * suffix,
        _ => suffix,
    }
}

/// The most bytes of one record in a directory with `n` entries.
fn widest_record_len(ty: EntryType, n: usize) -> (r: u64)
    ensures
        r == widest_record(ty, n as int),
        r >= 34,
{
    proof {
        widest_bounds(ty, n as int);
    }
    if ty.supports_rrip() {
        return 255;
    }
    let name: u64 = match ty {
        EntryType::Level1 { .. } => 14,
        EntryType::Level2 { .. } => 32,
        EntryType::Level3 { .. } => 207,
        EntryType::Joliet { .. } => 206,
    };
    let longest: u64 = 33 + name + suffix_room_len(ty, n);
    let all: u64 = longest + longest % 2;
    if all < 255 {
        all
    } else {
        255
    }
}

/// The most bytes that the records of an entry take in a directory with `n` entries, and
/// those that do not fit them.
fn record_estimate(
    name: &str,
    extra: u128,
    records: u64,
    ty: EntryType,
    n: usize,
    Ghost(entry): Ghost<EntryView>,
) -> (r: (u64, u128))
    requires
        entry.name == name@,
        extra == kind_len(entry.kind),
        extra <= 0xFFFF_FFFF_FFFF_FFFE_0000_0000_0000_0001,
        records == record_count(entry.kind),
        records <= 0x1_0000_1000,
    ensures
        r.0 == estimated_record(entry, ty, n as int),
        r.0 <= 255 * 0x1_0000_1000,
        r.1 == estimated_overflow(entry, ty),
{
    let len: u128 = name.as_bytes().len() as u128;
    let fields: u128 = 70 + (len + 5 * (len / 250 + 1)) + extra;
    assert(fields == fields_len(entry));
    let name_len: u64 = estimate_converted_name_len(name, ty);
    let longest: u64 = 33 + name_len + suffix_room_len(ty, n);
    let plain: u64 = longest + longest % 2;
    let base: u64 = 33 + name_len;
    let own: u64 = base + base % 2;
    let one: u64 = if plain < 255 {
        plain
    } else {
        255
    };
    let first: u64 = if ty.supports_rrip() {
        let all: u128 = plain as u128 + fields;
        if all < 255 {
            all as u64
        } else {
            255
        }
    } else {
        one
    };
    proof {
        record_natural(entry, ty, n as int);
        let (a, b) = (records - 1, one as int);
        assert(0 <= a * b <= 255 * a) by (nonlinear_arith)
            requires
                a >= 0,
                0 <= b <= 255,
        ;
    }
    let overflow: u128 = if own as u128 + fields <= 256 {
        0
    } else {
        fields
    };
    (first + (records - 1) * one, overflow)
}

fn has_any_rrip(types: &Vec<EntryType>) -> (r: bool)
    ensures
        r == any_rrip(types@),
{
    let mut i: usize = 0;
    while i < types.len()
        invariant
            i <= types@.len(),
            forall|k: int| 0 <= k < i ==> !(#[trigger] types@[k]).rrip(),
        decreases types.len() - i,
    {
        if types[i].supports_rrip() {
            return true;
        }
        i += 1;
    }
    false
}

/// The most bytes that the records of a directory with the given files take in a namespace,
/// and where it has Rock Ridge fields, those of the continuation area.
fn files_total(files: &Vec<File>, ty: EntryType) -> (r: (u64, u64))
    requires
        dir_total(files_view(files@), ty, files@.len() as int) <= u64::MAX,
        ty.rrip() ==> area_total(files_view(files@), ty) <= u64::MAX,
    ensures
        r.0 == dir_total(files_view(files@), ty, files@.len() as int),
        ty.rrip() ==> r.1 == area_total(files_view(files@), ty),
{
    let ghost all = files_view(files@);
    let n: usize = files.len();
    let rrip: bool = ty.supports_rrip();
    let mut total: u64 = if rrip {
        256 + 128
    } else {
        34 + 34
    };
    let mut area: u64 = 0;
    let mut i: usize = 0;
    assert(all.take(0) =~= Seq::empty());
    while i < files.len()
        invariant
            i <= files@.len(),
            n == files@.len(),
            all == files_view(files@),
            rrip == ty.rrip(),
            dir_total(all, ty, n as int) <= u64::MAX,
            rrip ==> area_total(all, ty) <= u64::MAX,
            total == dir_total(all.take(i as int), ty, n as int),
            rrip ==> area == area_total(all.take(i as int), ty),
        decreases files.len() - i,
    {
        let ghost value = files@[i as int].view();
        proof {
            assert(all[i as int] == value);
            assert(all.take(i + 1).drop_last() =~= all.take(i as int));
            totals_prefix(all, i + 1, ty, n as int);
            record_natural(value, ty, n as int);
        }
        let (name, extra, records): (&str, u128, u64) = match &files[i] {
            File::File { name, contents } => (
                name.as_str(),
                0,
                file_records_estimate(contents.len(), Ghost(contents@)),
            ),
            File::Directory { name, .. } => (name.as_str(), 12, 1),
        };
        let (record, overflow): (u64, u128) = record_estimate(
            name,
            extra,
            records,
            ty,
            n,
            Ghost(value),
        );
        total = total + record;
        if rrip {
            area = area + overflow as u64;
        }
        i += 1;
    }
    assert(all.take(i as int) =~= all);
    (total, area)
}

/// The most bytes that the records of a directory with the given entries take in a namespace,
/// and where it has Rock Ridge fields, those of the continuation area.
fn entries_total(files: &Vec<InputEntry>, ty: EntryType) -> (r: (u64, u64))
    requires
        dir_total(entries_view(files@), ty, files@.len() as int) <= u64::MAX,
        ty.rrip() ==> area_total(entries_view(files@), ty) <= u64::MAX,
    ensures
        r.0 == dir_total(entries_view(files@), ty, files@.len() as int),
        ty.rrip() ==> r.1 == area_total(entries_view(files@), ty),
{
    let ghost all = entries_view(files@);
    let n: usize = files.len();
    let rrip: bool = ty.supports_rrip();
    let mut total: u64 = if rrip {
        256 + 128
    } else {
        34 + 34
    };
    let mut area: u64 = 0;
    let mut i: usize = 0;
    assert(all.take(0) =~= Seq::empty());
    while i < files.len()
        invariant
            i <= files@.len(),
            n == files@.len(),
            all == entries_view(files@),
            rrip == ty.rrip(),
            dir_total(all, ty, n as int) <= u64::MAX,
            rrip ==> area_total(all, ty) <= u64::MAX,
            total == dir_total(all.take(i as int), ty, n as int),
            rrip ==> area == area_total(all.take(i as int), ty),
        decreases files.len() - i,
    {
        let ghost value = files@[i as int].view();
        proof {
            assert(all[i as int] == value);
            assert(all.take(i + 1).drop_last() =~= all.take(i as int));
            totals_prefix(all, i + 1, ty, n as int);
            record_natural(value, ty, n as int);
        }
        let entry: &InputEntry = &files[i];
        let name: &str = entry.name.as_str();
        let extra: u128 = kind_estimate(&entry.kind);
        let records: u64 = match &entry.kind {
            InputEntryKind::File(contents) => file_records_estimate(
                contents.len(),
                Ghost(contents@),
            ),
            _ => 1,
        };
        let (record, overflow): (u64, u128) = record_estimate(
            name,
            extra,
            records,
            ty,
            n,
            Ghost(value),
        );
        total = total + record;
        if rrip {
            area = area + overflow as u64;
        }
        i += 1;
    }
    assert(all.take(i as int) =~= all);
    (total, area)
}

/// The most bytes that the records of a directory with the given files take in all
/// namespaces, and those of its continuation areas.
fn files_space(files: &Vec<File>, entry_types: &Vec<EntryType>, sector_size: u64) -> (r: (u64, u64))
    requires
        sector_size > 0,
        dir_space(files_view(files@), entry_types@, sector_size as int) <= u64::MAX,
        area_space(files_view(files@), entry_types@, sector_size as int) <= u64::MAX,
    ensures
        r.0 == dir_space(files_view(files@), entry_types@, sector_size as int),
        r.1 == area_space(files_view(files@), entry_types@, sector_size as int),
{
    let ghost all = files_view(files@);
    let ghost types = entry_types@;
    let ghost s = sector_size as int;
    let mut records: u64 = 0;
    let mut areas: u64 = 0;
    let mut i: usize = 0;
    assert(types.take(0) =~= Seq::empty());
    while i < entry_types.len()
        invariant
            i <= entry_types@.len(),
            all == files_view(files@),
            all.len() == files@.len(),
            types == entry_types@,
            sector_size > 0,
            s == sector_size,
            dir_space(all, types, s) <= u64::MAX,
            area_space(all, types, s) <= u64::MAX,
            records == dir_space(all, types.take(i as int), s),
            areas == area_space(all, types.take(i as int), s),
        decreases entry_types.len() - i,
    {
        let ty: EntryType = entry_types[i];
        proof {
            space_prefix(all, types, i as int, s);
        }
        let (total, area): (u64, u64) = files_total(files, ty);
        let widest: u64 = widest_record_len(ty, files.len());
        records = records + packed_space(total, widest, sector_size);
        if ty.supports_rrip() {
            areas = areas + whole_sectors(area, sector_size);
        }
        i += 1;
    }
    assert(types.take(i as int) =~= types);
    (records, areas)
}

/// The most bytes that the records of a directory with the given entries take in all
/// namespaces, and those of its continuation areas.
fn entries_space(
    files: &Vec<InputEntry>,
    entry_types: &Vec<EntryType>,
    sector_size: u64,
) -> (r: (u64, u64))
    requires
        sector_size > 0,
        dir_space(entries_view(files@), entry_types@, sector_size as int) <= u64::MAX,
        area_space(entries_view(files@), entry_types@, sector_size as int) <= u64::MAX,
    ensures
        r.0 == dir_space(entries_view(files@), entry_types@, sector_size as int),
        r.1 == area_space(entries_view(files@), entry_types@, sector_size as int),
{
    let ghost all = entries_view(files@);
    let ghost types = entry_types@;
    let ghost s = sector_size as int;
    let mut records: u64 = 0;
    let mut areas: u64 = 0;
    let mut i: usize = 0;
    assert(types.take(0) =~= Seq::empty());
    while i < entry_types.len()
        invariant
            i <= entry_types@.len(),
            all == entries_view(files@),
            all.len() == files@.len(),
            types == entry_types@,
            sector_size > 0,
            s == sector_size,
            dir_space(all, types, s) <= u64::MAX,
            area_space(all, types, s) <= u64::MAX,
            records == dir_space(all, types.take(i as int), s),
            areas == area_space(all, types.take(i as int), s),
        decreases entry_types.len() - i,
    {
        let ty: EntryType = entry_types[i];
        proof {
            space_prefix(all, types, i as int, s);
        }
        let (total, area): (u64, u64) = entries_total(files, ty);
        let widest: u64 = widest_record_len(ty, files.len());
        records = records + packed_space(total, widest, sector_size);
        if ty.supports_rrip() {
            areas = areas + whole_sectors(area, sector_size);
        }
        i += 1;
    }
    assert(types.take(i as int) =~= types);
    (records, areas)
}

/// The most bytes that the Rock Ridge fields of a directory's record take.
fn directory_fields(name: &str, Ghost(entry): Ghost<EntryView>) -> (r: u64)
    requires
        entry.name == name@,
        entry.kind is Directory,
        fields_len(entry) <= u64::MAX,
    ensures
        r == fields_len(entry),
{
    let len: u64 = name.as_bytes().len() as u64;
    82 + (len + 5 * (len / 250 + 1))
}

/// Adds what a directory with the given files counts for.
fn walk_files_stats(
    files: &Vec<File>,
    entry_types: &Vec<EntryType>,
    sector_size: u64,
    stats: &mut TreeStats,
)
    requires
        sector_size > 0,
        old(stats)@.plus(
            tree_stats(files_view(files@), entry_types@, sector_size as int),
        ).fits(),
    ensures
        final(stats)@ == old(stats)@.plus(
            tree_stats(files_view(files@), entry_types@, sector_size as int),
        ),
    decreases *files,
{
    let ghost all = files_view(files@);
    let ghost s = sector_size as int;
    let ghost types = entry_types@;
    let ghost start = stats@;
    let mut i: usize = 0;
    proof {
        stats_natural(all, types, s);
        space_natural(all, types, s);
        assert(all.take(0) =~= Seq::empty());
    }
    while i < files.len()
        invariant
            i <= files@.len(),
            sector_size > 0,
            s == sector_size,
            types == entry_types@,
            all == files_view(files@),
            start.natural(),
            start.plus(tree_stats(all, types, s)).fits(),
            tree_stats(all, types, s).record_bytes >= list_stats(all, types, s).record_bytes,
            tree_stats(all, types, s).area_bytes >= list_stats(all, types, s).area_bytes,
            stats@ == start.plus(list_stats(all.take(i as int), types, s)),
        decreases files.len() - i,
    {
        let ghost value = files@[i as int].view();
        proof {
            assert(all[i as int] == value);
            list_stats_prefix(all, i as int, types, s);
        }
        match &files[i] {
            File::File { contents, .. } => {
                stats.file_count = stats.file_count + 1;
                if contents.len() > 0 {
                    stats.total_file_bytes = stats.total_file_bytes + whole_sectors(
                        contents.len() as u64,
                        sector_size,
                    );
                } else {
                    proof {
                        sectors_bounds(0, s);
                    }
                }
            },
            File::Directory { name, children } => {
                proof {
                    assert(value.kind->Directory_0 =~= files_view(children@));
                    assert(decreases_to!(*files => files@[i as int]));
                    stats_natural(files_view(children@), types, s);
                    longest_natural(value.name, types);
                }
                stats.dir_count = stats.dir_count + 1;
                stats.dir_name_bytes = stats.dir_name_bytes + longest_converted_name_len(
                    name.as_str(),
                    entry_types,
                );
                stats.dir_field_bytes = stats.dir_field_bytes + directory_fields(
                    name.as_str(),
                    Ghost(value),
                );
                walk_files_stats(children, entry_types, sector_size, stats);
            },
        }
        i += 1;
    }
    assert(all.take(i as int) =~= all);
    let (records, areas): (u64, u64) = files_space(files, entry_types, sector_size);
    stats.dir_record_bytes = stats.dir_record_bytes + records;
    stats.area_bytes = stats.area_bytes + areas;
}

/// Adds what a directory with the given entries counts for.
fn walk_entries_stats(
    entries: &Vec<InputEntry>,
    entry_types: &Vec<EntryType>,
    sector_size: u64,
    stats: &mut TreeStats,
)
    requires
        sector_size > 0,
        old(stats)@.plus(
            tree_stats(entries_view(entries@), entry_types@, sector_size as int),
        ).fits(),
    ensures
        final(stats)@ == old(stats)@.plus(
            tree_stats(entries_view(entries@), entry_types@, sector_size as int),
        ),
    decreases *entries,
{
    let ghost all = entries_view(entries@);
    let ghost s = sector_size as int;
    let ghost types = entry_types@;
    let ghost start = stats@;
    let mut i: usize = 0;
    proof {
        stats_natural(all, types, s);
        space_natural(all, types, s);
        assert(all.take(0) =~= Seq::empty());
    }
    while i < entries.len()
        invariant
            i <= entries@.len(),
            sector_size > 0,
            s == sector_size,
            types == entry_types@,
            all == entries_view(entries@),
            start.natural(),
            start.plus(tree_stats(all, types, s)).fits(),
            tree_stats(all, types, s).record_bytes >= list_stats(all, types, s).record_bytes,
            tree_stats(all, types, s).area_bytes >= list_stats(all, types, s).area_bytes,
            stats@ == start.plus(list_stats(all.take(i as int), types, s)),
        decreases entries.len() - i,
    {
        let entry: &InputEntry = &entries[i];
        let ghost value = entry.view();
        proof {
            assert(all[i as int] == value);
            list_stats_prefix(all, i as int, types, s);
        }
        match &entry.kind {
            InputEntryKind::File(contents) => {
                stats.file_count = stats.file_count + 1;
                if contents.len() > 0 {
                    stats.total_file_bytes = stats.total_file_bytes + whole_sectors(
                        contents.len() as u64,
                        sector_size,
                    );
                } else {
                    proof {
                        sectors_bounds(0, s);
                    }
                }
            },
            InputEntryKind::Directory(children) => {
                proof {
                    assert(value.kind->Directory_0 =~= entries_view(children@));
                    assert(decreases_to!(*entries => entries@[i as int]));
                    stats_natural(entries_view(children@), types, s);
                    longest_natural(value.name, types);
                }
                stats.dir_count = stats.dir_count + 1;
                stats.dir_name_bytes = stats.dir_name_bytes + longest_converted_name_len(
                    entry.name.as_str(),
                    entry_types,
                );
                stats.dir_field_bytes = stats.dir_field_bytes + directory_fields(
                    entry.name.as_str(),
                    Ghost(value),
                );
                walk_entries_stats(children, entry_types, sector_size, stats);
            },
            _ => {
                stats.file_count = stats.file_count + 1;
            },
        }
        i += 1;
    }
    assert(all.take(i as int) =~= all);
    let (records, areas): (u64, u64) = entries_space(entries, entry_types, sector_size);
    stats.dir_record_bytes = stats.dir_record_bytes + records;
    stats.area_bytes = stats.area_bytes + areas;
}

/// How many volume descriptors an image has.
pub open spec fn descriptor_count(features: CreationFeatures) -> int {
    2 + (if features.el_torito is Some {
        1int
    } else {
        0
    }) + (if features.long_filenames {
        1int
    } else {
        0
    }) + (if features.joliet is Some {
        1int
    } else {
        0
    })
}

/// The most bytes that the identifier of a relocated directory has: `RRD` and at least six
/// digits.
pub open spec fn relocated_len(dirs: int) -> int {
    if dirs < 1000000 {
        18
    } else {
        46
    }
}

/// The most bytes of a path table with the root and the given directories: 10 for the root,
/// and for each directory 8, its identifier and one byte to fill it up. Relocation adds a
/// directory and may give any directory a new name.
pub open spec fn path_table_len(stats: Stats, relocating: bool) -> int {
    10 + 8 * stats.dirs + stats.name_bytes + stats.dirs + (if relocating {
        67 + stats.dirs * relocated_len(stats.dirs)
    } else {
        0
    })
}

/// Bytes of all path tables: two for each namespace, each in whole sectors.
pub open spec fn path_tables_len(stats: Stats, features: CreationFeatures, s: int) -> int {
    let n = entry_types_of(features).len() as int;
    sectors(path_table_len(stats, relocates(features.rock_ridge)), s) * 2 * n * s
}

/// Bytes of the boot catalog: 96 and 64 for each section.
pub open spec fn catalog_bytes_len(features: CreationFeatures) -> int {
    match features.el_torito {
        Some(boot) => 96 + 64 * (boot.entries@.len() as int),
        None => 0,
    }
}

/// How many records the file of the boot catalog has, where there is one.
pub open spec fn catalog_records(features: CreationFeatures) -> int {
    match features.el_torito {
        Some(boot) => if boot.write_boot_catalog {
            catalog_bytes_len(features) / (MAX_EXTENT_SIZE as int) + 1
        } else {
            0
        },
        None => 0,
    }
}

/// Bytes of all directories. Relocation needs one more sector for each directory and
/// namespace, and the file of the boot catalog one for each of its records.
pub open spec fn directories_len(stats: Stats, features: CreationFeatures, s: int) -> int {
    let n = entry_types_of(features).len() as int;
    stats.record_bytes + (if relocates(features.rock_ridge) {
        (stats.dirs + 1) * n * s
    } else {
        0
    }) + catalog_records(features) * n * s
}

/// Bytes of all continuation areas. That of the root holds up to 320 bytes for the root
/// itself, and relocation adds that of the directory that holds the relocated ones.
pub open spec fn areas_len(stats: Stats, features: CreationFeatures, s: int) -> int {
    stats.area_bytes + (if any_rrip(entry_types_of(features)) {
        whole(320, s) + (if relocates(features.rock_ridge) {
            whole(stats.field_bytes, s)
        } else {
            0
        })
    } else {
        0
    })
}

/// Bytes of the backup GPT: 33 blocks of 512 bytes in whole sectors.
pub open spec fn backup_len(features: CreationFeatures, s: int) -> int {
    if has_gpt(features) {
        sectors(33, s / 512) * (s / 512) * 512
    } else {
        0
    }
}

/// The most that a tree needs that counts for `stats`, the root left out of its directories.
pub open spec fn needed_of(stats: Stats, features: CreationFeatures, s: int) -> (int, int, int, int,
    int, int, int, int) {
    (
        16 * s,
        descriptor_count(features) * s,
        path_tables_len(stats, features, s),
        directories_len(stats, features, s),
        areas_len(stats, features, s),
        stats.file_bytes,
        whole(catalog_bytes_len(features), s),
        backup_len(features, s),
    )
}

/// Bytes of a path table as a rule: 10 for the root, and for each directory 8, its identifier
/// and one byte to fill it up.
pub open spec fn usual_table_len(stats: Stats, usual: Usual) -> int {
    10 + 8 * stats.dirs + usual.name_bytes + stats.dirs
}

/// What a tree takes as a rule that counts for `stats`, the root left out of its
/// directories. Each namespace has the same directories. Relocation adds a sector for each
/// directory and namespace and one to each path table. Rock Ridge fields have a sector of
/// continuation area in each directory.
pub open spec fn usual_of(stats: Stats, usual: Usual, features: CreationFeatures, s: int) -> (int,
    int, int, int, int, int, int, int) {
    let n = entry_types_of(features).len() as int;
    let relocating = relocates(features.rock_ridge);
    (
        16 * s,
        descriptor_count(features) * s,
        sectors(usual_table_len(stats, usual), s) * 2 * n * s + (if relocating {
            n * 2 * s
        } else {
            0
        }),
        usual.record_bytes * n + (if relocating {
            (stats.dirs + 1) * n * s
        } else {
            0
        }),
        if any_rrip(entry_types_of(features)) {
            (stats.dirs + 1) * s
        } else {
            0
        },
        stats.file_bytes,
        if features.el_torito is Some {
            s
        } else {
            0
        },
        backup_len(features, s),
    )
}

/// The estimate for a tree: what it takes as a rule, or where its image turns out to take
/// more when it is laid out, the most that it needs.
pub open spec fn estimate_of(tree: Seq<EntryView>, ops: IsoFormatOptions) -> (int, int, int, int,
    int, int, int, int) {
    let s = ops.sector_size as int;
    let types = entry_types_of(ops.features);
    let stats = tree_stats(tree, types, s);
    let usual = usual_of(stats, tree_usual(tree, types, s), ops.features, s);
    let needed = needed_of(stats, ops.features, s);
    if estimate_total(usual) < estimate_total(needed) && (planned_len(tree, ops) matches Some(n)
        && n > whole(estimate_total(usual), s)) {
        needed
    } else {
        usual
    }
}

/// Bytes of an estimate.
pub open spec fn estimate_total(e: (int, int, int, int, int, int, int, int)) -> int {
    e.0 + e.1 + e.2 + e.3 + e.4 + e.5 + e.6 + e.7
}

/// Whether the estimate holds the given parts and as many sectors as they take.
pub open spec fn is_estimate(
    r: IsoSizeEstimate,
    e: (int, int, int, int, int, int, int, int),
    s: int,
) -> bool {
    let b = r.breakdown;
    &&& b.system_area == e.0
    &&& b.volume_descriptors == e.1
    &&& b.path_tables == e.2
    &&& b.directory_records == e.3
    &&& b.continuation_areas == e.4
    &&& b.file_data == e.5
    &&& b.boot_catalog == e.6
    &&& b.backup_gpt == e.7
    &&& r.minimum_sectors == sectors(estimate_total(e), s)
}

/// Whether all numbers of an estimate fit 64 bits.
pub open spec fn estimable(tree: Seq<EntryView>, options: IsoFormatOptions) -> bool {
    let s = options.sector_size as int;
    let types = entry_types_of(options.features);
    let stats = tree_stats(tree, types, s);
    let usual = tree_usual(tree, types, s);
    &&& s > 0
    &&& has_gpt(options.features) ==> s >= 512
    &&& stats.fits()
    &&& usual.fits()
    &&& path_table_len(stats, relocates(options.features.rock_ridge)) <= u64::MAX
    &&& usual_table_len(stats, usual) <= u64::MAX
    &&& estimate_total(needed_of(stats, options.features, s)) <= u64::MAX
    &&& estimate_total(usual_of(stats, usual, options.features, s)) <= u64::MAX
}

/// The estimated size of an image with the given files. No image takes more.
pub fn estimate(files: &InputFiles, options: &IsoFormatOptions) -> (r: IsoSizeEstimate)
    requires
        estimable(files_view(files.files@), *options),
    ensures
        is_estimate(
            r,
            estimate_of(files_view(files.files@), *options),
            options.sector_size as int,
        ),
{
    let ghost tree = files_view(files.files@);
    let entry_types: Vec<EntryType> = build_entry_types(&options.features);
    let sector_size: u64 = options.sector_size as u64;
    let mut stats: TreeStats = TreeStats {
        dir_count: 0,
        file_count: 0,
        total_file_bytes: 0,
        dir_name_bytes: 0,
        dir_record_bytes: 0,
        area_bytes: 0,
        dir_field_bytes: 0,
    };
    walk_files_stats(&files.files, &entry_types, sector_size, &mut stats);
    let has_rrip: bool = has_any_rrip(&entry_types);
    let usual: (u64, u64) = usual_files(
        &files.files,
        &entry_types,
        has_rrip,
        sector_size,
        (0, 0),
    );
    proof {
        stats_natural(tree, entry_types@, options.sector_size as int);
    }
    let as_a_rule: SizeBreakdown = usual_breakdown(options, &entry_types, stats, usual);
    let at_most: SizeBreakdown = needed_breakdown(options, &entry_types, stats);
    if breakdown_total(&as_a_rule) < breakdown_total(&at_most) {
        choose_breakdown(files.to_tree(), options, as_a_rule, at_most)
    } else {
        estimate_impl(as_a_rule, sector_size)
    }
}

/// The estimated size of an image with the given tree. No image takes more.
pub fn estimate_tree(files: &InputTree, options: &IsoFormatOptions) -> (r: IsoSizeEstimate)
    requires
        estimable(files@, *options),
    ensures
        is_estimate(r, estimate_of(files@, *options), options.sector_size as int),
{
    let entry_types: Vec<EntryType> = build_entry_types(&options.features);
    let sector_size: u64 = options.sector_size as u64;
    let mut stats: TreeStats = TreeStats {
        dir_count: 0,
        file_count: 0,
        total_file_bytes: 0,
        dir_name_bytes: 0,
        dir_record_bytes: 0,
        area_bytes: 0,
        dir_field_bytes: 0,
    };
    walk_entries_stats(&files.entries, &entry_types, sector_size, &mut stats);
    let has_rrip: bool = has_any_rrip(&entry_types);
    let usual: (u64, u64) = usual_entries(
        &files.entries,
        &entry_types,
        has_rrip,
        sector_size,
        (0, 0),
    );
    proof {
        stats_natural(files@, entry_types@, options.sector_size as int);
    }
    let as_a_rule: SizeBreakdown = usual_breakdown(options, &entry_types, stats, usual);
    let at_most: SizeBreakdown = needed_breakdown(options, &entry_types, stats);
    if breakdown_total(&as_a_rule) < breakdown_total(&at_most) {
        choose_breakdown(files.duplicate(), options, as_a_rule, at_most)
    } else {
        estimate_impl(as_a_rule, sector_size)
    }
}

/// The estimate with what a tree takes as a rule, unless its image takes more when it is laid
/// out.
fn choose_breakdown(
    files: InputTree,
    options: &IsoFormatOptions,
    as_a_rule: SizeBreakdown,
    at_most: SizeBreakdown,
) -> (r: IsoSizeEstimate)
    requires
        options.sector_size > 0,
        estimate_total(parts_of(as_a_rule)) <= u64::MAX,
        estimate_total(parts_of(at_most)) <= u64::MAX,
    ensures
        is_estimate(
            r,
            if planned_len(files@, *options) matches Some(n) && n > whole(
                estimate_total(parts_of(as_a_rule)),
                options.sector_size as int,
            ) {
                parts_of(at_most)
            } else {
                parts_of(as_a_rule)
            },
            options.sector_size as int,
        ),
{
    let sector_size: u64 = options.sector_size as u64;
    let usual: u64 = breakdown_total(&as_a_rule);
    proof {
        sectors_bounds(usual as int, sector_size as int);
    }
    let room: u128 = align_to_sector(usual, sector_size) as u128 * sector_size as u128;
    match plan_image(files, options) {
        Some(n) => if n > room {
            estimate_impl(at_most, sector_size)
        } else {
            estimate_impl(as_a_rule, sector_size)
        },
        None => estimate_impl(as_a_rule, sector_size),
    }
}

/// The estimate with the given parts.
fn estimate_impl(breakdown: SizeBreakdown, sector_size: u64) -> (r: IsoSizeEstimate)
    requires
        sector_size > 0,
        estimate_total(parts_of(breakdown)) <= u64::MAX,
    ensures
        is_estimate(r, parts_of(breakdown), sector_size as int),
{
    let total: u64 = breakdown_total(&breakdown);
    IsoSizeEstimate { minimum_sectors: align_to_sector(total, sector_size), breakdown }
}

/// The parts of a breakdown.
pub open spec fn parts_of(b: SizeBreakdown) -> (int, int, int, int, int, int, int, int) {
    (
        b.system_area as int,
        b.volume_descriptors as int,
        b.path_tables as int,
        b.directory_records as int,
        b.continuation_areas as int,
        b.file_data as int,
        b.boot_catalog as int,
        b.backup_gpt as int,
    )
}

/// Bytes of all parts.
fn breakdown_total(b: &SizeBreakdown) -> (r: u64)
    requires
        estimate_total(parts_of(*b)) <= u64::MAX,
    ensures
        r == estimate_total(parts_of(*b)),
{
    b.system_area + b.volume_descriptors + b.path_tables + b.directory_records
        + b.continuation_areas + b.file_data + b.boot_catalog + b.backup_gpt
}

/// How many volume descriptors an image has.
fn count_descriptors(features: &CreationFeatures) -> (r: u64)
    ensures
        r == descriptor_count(*features),
{
    let mut descriptors: u64 = 1;
    if features.el_torito.is_some() {
        descriptors = descriptors + 1;
    }
    if features.long_filenames {
        descriptors = descriptors + 1;
    }
    if features.joliet.is_some() {
        descriptors = descriptors + 1;
    }
    descriptors + 1
}

/// Bytes of the backup GPT, where there is one.
pub(crate) fn backup_bytes(options: &IsoFormatOptions) -> (r: u64)
    requires
        has_gpt(options.features) ==> options.sector_size >= 512,
        backup_len(options.features, options.sector_size as int) <= u64::MAX,
    ensures
        r == backup_len(options.features, options.sector_size as int),
{
    let gpt: bool = match options.partition_scheme() {
        Some(PartitionScheme::Gpt) => true,
        Some(PartitionScheme::Hybrid) => true,
        _ => false,
    };
    assert(gpt == has_gpt(options.features));
    if gpt {
        let blocks: u64 = options.sector_size as u64 / 512;
        proof {
            sectors_bounds(33, blocks as int);
        }
        align_to_sector(33, blocks) * blocks * 512
    } else {
        0
    }
}

proof fn products(a: int, n: int, s: int)
    requires
        a >= 0,
        1 <= n,
        s > 0,
    ensures
        0 <= a * n,
        0 <= a * n * s,
        a * s <= a * n * s,
        a * n <= a * n * s,
        a * 2 * n * s == a * n * s * 2,
        a * 2 <= a * 2 * n,
        a * 2 * n <= a * 2 * n * s,
        0 <= n * 2 * s,
        n * 2 <= n * 2 * s,
        a <= a * n,
{
    assert(0 <= a * n) by (nonlinear_arith)
        requires
            a >= 0,
            n >= 1,
    ;
    assert(a <= a * n) by (nonlinear_arith)
        requires
            a >= 0,
            n >= 1,
    ;
    assert(a * n <= a * n * s) by (nonlinear_arith)
        requires
            a * n >= 0,
            s >= 1,
    ;
    assert(a * s <= a * n * s) by (nonlinear_arith)
        requires
            a <= a * n,
            s >= 1,
    ;
    assert(a * 2 * n * s == a * n * s * 2) by (nonlinear_arith);
    assert(a * 2 * n == a * n * 2) by (nonlinear_arith);
    assert(n * 2 <= n * 2 * s) by (nonlinear_arith)
        requires
            n >= 1,
            s >= 1,
    ;
}

proof fn table_len_natural(stats: Stats, relocating: bool)
    requires
        stats.natural(),
    ensures
        path_table_len(stats, relocating) >= 10,
        0 <= stats.dirs * relocated_len(stats.dirs),
{
    assert(0 <= stats.dirs * relocated_len(stats.dirs)) by (nonlinear_arith)
        requires
            stats.dirs >= 0,
            relocated_len(stats.dirs) >= 0,
    ;
}

proof fn catalog_natural(features: CreationFeatures)
    ensures
        catalog_bytes_len(features) >= 0,
        catalog_records(features) >= 0,
{
}

proof fn backup_natural(features: CreationFeatures, s: int)
    requires
        has_gpt(features) ==> s >= 512,
    ensures
        backup_len(features, s) >= 0,
{
    if has_gpt(features) {
        sectors_bounds(33, s / 512);
    }
}

proof fn descriptors_natural(features: CreationFeatures, s: int)
    requires
        s > 0,
    ensures
        descriptor_count(features) * s >= 0,
{
    assert(descriptor_count(features) * s >= 0) by (nonlinear_arith)
        requires
            s > 0,
            descriptor_count(features) >= 0,
    ;
}

/// What a tree takes as a rule that counts for `stats`, the root left out of its directories.
fn usual_breakdown(
    options: &IsoFormatOptions,
    entry_types: &Vec<EntryType>,
    stats: TreeStats,
    usual: (u64, u64),
) -> (r: SizeBreakdown)
    requires
        entry_types@ == entry_types_of(options.features),
        stats@.natural(),
        stats@.fits(),
        options.sector_size > 0,
        has_gpt(options.features) ==> options.sector_size >= 512,
        usual_table_len(stats@, usual_pair(usual.0, usual.1)) <= u64::MAX,
        estimate_total(
            usual_of(
                stats@,
                usual_pair(usual.0, usual.1),
                options.features,
                options.sector_size as int,
            ),
        ) <= u64::MAX,
    ensures
        parts_of(r) == usual_of(
            stats@,
            usual_pair(usual.0, usual.1),
            options.features,
            options.sector_size as int,
        ),
{
    let sector_size: u64 = options.sector_size as u64;
    let features: &CreationFeatures = &options.features;
    let num: u64 = entry_types.len() as u64;
    let ghost s = sector_size as int;
    let ghost n = num as int;
    let ghost e = usual_of(stats@, usual_pair(usual.0, usual.1), *features, s);
    assert(1 <= n <= 3);
    let dirs: u64 = stats.dir_count + 1;
    let relocating: bool = options.has_rock_ridge_deep_dirs();
    proof {
        let table = usual_table_len(stats@, usual_pair(usual.0, usual.1));
        sectors_bounds(table, s);
        products(sectors(table, s), n, s);
        products(dirs as int, n, s);
        products(usual.1 as int, n, s);
        backup_natural(*features, s);
        descriptors_natural(*features, s);
        assert(e.0 >= 0 && e.1 >= 0 && e.2 >= 0 && e.3 >= 0 && e.4 >= 0 && e.5 >= 0 && e.6 >= 0
            && e.7 >= 0);
    }
    let table_len: u64 = 10 + 8 * (dirs - 1) + usual.0 + (dirs - 1);
    let mut path_tables: u64 = align_to_sector(table_len, sector_size) * 2 * num * sector_size;
    let mut directory_records: u64 = usual.1 * num;
    if relocating {
        directory_records = directory_records + dirs * num * sector_size;
        path_tables = path_tables + num * 2 * sector_size;
    }
    let continuation_areas: u64 = if has_any_rrip(entry_types) {
        dirs * sector_size
    } else {
        0
    };
    let boot_catalog: u64 = if features.el_torito.is_some() {
        sector_size
    } else {
        0
    };
    SizeBreakdown {
        system_area: 16 * sector_size,
        volume_descriptors: count_descriptors(features) * sector_size,
        path_tables,
        directory_records,
        continuation_areas,
        file_data: stats.total_file_bytes,
        boot_catalog,
        backup_gpt: backup_bytes(options),
    }
}

/// The most that a tree needs that counts for `stats`, the root left out of its directories.
#[verifier::rlimit(60)]
fn needed_breakdown(
    options: &IsoFormatOptions,
    entry_types: &Vec<EntryType>,
    stats: TreeStats,
) -> (r: SizeBreakdown)
    requires
        entry_types@ == entry_types_of(options.features),
        stats@.natural(),
        stats@.fits(),
        options.sector_size > 0,
        has_gpt(options.features) ==> options.sector_size >= 512,
        path_table_len(stats@, relocates(options.features.rock_ridge)) <= u64::MAX,
        estimate_total(needed_of(stats@, options.features, options.sector_size as int))
            <= u64::MAX,
    ensures
        parts_of(r) == needed_of(stats@, options.features, options.sector_size as int),
{
    let sector_size: u64 = options.sector_size as u64;
    let features: &CreationFeatures = &options.features;
    let num: u64 = entry_types.len() as u64;
    let ghost s = sector_size as int;
    let ghost n = num as int;
    let ghost e = needed_of(stats@, *features, s);
    assert(1 <= n <= 3);
    let dirs: u64 = stats.dir_count + 1;
    let relocating: bool = options.has_rock_ridge_deep_dirs();
    let has_rrip: bool = has_any_rrip(entry_types);
    let ghost records = catalog_records(*features);
    proof {
        let pt = path_table_len(stats@, relocating);
        table_len_natural(stats@, relocating);
        sectors_bounds(pt, s);
        products(sectors(pt, s), n, s);
        products(stats.dir_count + 1, n, s);
        catalog_natural(*features);
        products(records, n, s);
        sectors_bounds(catalog_bytes_len(*features), s);
        sectors_bounds(320, s);
        sectors_bounds(stats.dir_field_bytes as int, s);
        backup_natural(*features, s);
        descriptors_natural(*features, s);
        assert(e.0 >= 0 && e.1 >= 0 && e.2 >= 0 && e.3 >= 0 && e.4 >= 0 && e.5 >= 0 && e.6 >= 0
            && e.7 >= 0);
    }
    let mut table_len: u64 = 10 + 8 * (dirs - 1) + stats.dir_name_bytes + (dirs - 1);
    if relocating {
        let longest: u64 = if stats.dir_count < 1000000 {
            18
        } else {
            46
        };
        table_len = table_len + 67 + stats.dir_count * longest;
    }
    assert(table_len == path_table_len(stats@, relocating));
    let table_sectors: u64 = align_to_sector(table_len, sector_size);
    let path_tables: u64 = table_sectors * 2 * num * sector_size;
    assert(path_tables == e.2);
    let mut directory_records: u64 = stats.dir_record_bytes;
    if relocating {
        directory_records = directory_records + dirs * num * sector_size;
    }
    let mut boot_catalog: u64 = 0;
    if let Some(boot) = &features.el_torito {
        let bytes: u128 = 96 + 64 * (boot.entries.len() as u128);
        assert(bytes == catalog_bytes_len(*features));
        boot_catalog = whole_sectors(bytes as u64, sector_size);
        if boot.write_boot_catalog {
            let count: u64 = bytes as u64 / MAX_EXTENT_SIZE + 1;
            assert(count == records);
            directory_records = directory_records + count * num * sector_size;
        }
    }
    assert(boot_catalog == e.6) by {
        sectors_bounds(0, s);
    }
    assert(directory_records == e.3) by {
        assert(0 * n * s == 0) by (nonlinear_arith);
    }
    let mut continuation_areas: u64 = stats.area_bytes;
    if has_rrip {
        continuation_areas = continuation_areas + whole_sectors(320, sector_size);
        if relocating {
            continuation_areas = continuation_areas + whole_sectors(
                stats.dir_field_bytes,
                sector_size,
            );
        }
    }
    assert(continuation_areas == e.4);
    SizeBreakdown {
        system_area: 16 * sector_size,
        volume_descriptors: count_descriptors(features) * sector_size,
        path_tables,
        directory_records,
        continuation_areas,
        file_data: stats.total_file_bytes,
        boot_catalog,
        backup_gpt: backup_bytes(options),
    }
}

proof fn utf16_len(s: Seq<char>)
    ensures
        s.len() <= utf16(s).len(),
    decreases s.len(),
{
    if s.len() > 0 {
        utf16_len(s.drop_last());
    }
}

/// The estimated length of an identifier is never below its real length, for files and for
/// directories.
pub proof fn estimate_covers_identifiers(name: Seq<char>, ty: EntryType)
    ensures
        file_identifier(ty, name).len() <= estimated_name_len(name, ty),
        base_identifier(ty, name).len() <= estimated_name_len(name, ty),
{
    first_dot_bounds(encode_utf8(name));
    utf16_len(name);
}

/// The estimate has room for the data of every file in whole sectors, and for every part.
pub proof fn estimate_covers_its_parts(
    r: IsoSizeEstimate,
    tree: Seq<EntryView>,
    ops: IsoFormatOptions,
)
    requires
        ops.sector_size > 0,
        is_estimate(r, estimate_of(tree, ops), ops.sector_size as int),
    ensures
        ({
            let s = ops.sector_size as int;
            let stats = tree_stats(tree, entry_types_of(ops.features), s);
            &&& r.minimum_sectors * s >= stats.file_bytes + 16 * s + descriptor_count(
                ops.features,
            ) * s
            &&& r.minimum_sectors * s >= estimate_total(estimate_of(tree, ops))
        }),
{
    sectors_bounds(estimate_total(estimate_of(tree, ops)), ops.sector_size as int);
}

} // verus!
