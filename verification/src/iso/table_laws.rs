//! Records, path tables, extents, orders and names of files that would else be the same.

#[allow(unused_imports)]
use crate::iso::dedup::{
    dedup_name, has_version, iso_limit, joliet_ext, joliet_ext_bounds, joliet_kept, last_dot,
    last_dot_bounds, suffix, widen,
};
#[allow(unused_imports)]
use crate::iso::emit::entry_of;
#[allow(unused_imports)]
use crate::iso::extent::{align_up, extent_end, extent_list, is_sector_size};
#[allow(unused_imports)]
use crate::iso::field_laws::{holds_both, numbers_stand_in_both_orders};
#[allow(unused_imports)]
use crate::iso::layout::{pack_end, place_record, record_bytes, record_size};
#[allow(unused_imports)]
use crate::iso::name::{head, version};
#[allow(unused_imports)]
use crate::iso::order::{lex_lt, stable_order};
#[allow(unused_imports)]
use crate::iso::path_table::{
    kept, level_below, level_records, ordered, path_table, records_below, sibling_records,
    table_record, EndianType,
};
#[allow(unused_imports)]
use crate::iso::records::RecordView;
#[allow(unused_imports)]
use crate::iso::susp::both32;
#[allow(unused_imports)]
use crate::iso::types::{continues, DirectoryRef, EntryType, FileFlags, JolietLevel, LogicalSector};
#[allow(unused_imports)]
use crate::iso::written::DirView;
#[allow(unused_imports)]
use crate::text::decimal;
use vstd::prelude::*;

verus! {

/// A directory record: its length, where the file lies and how long it is in both byte orders, the
/// time of seven bytes, the flags, volume 1 in both byte orders, the identifier with its length,
/// filled up to an even length, and the System Use data.
#[verifier::spinoff_prover]
#[verifier::rlimit(60)]
pub proof fn records_have_their_bytes(r: RecordView, time: Seq<u8>, i: int)
    requires
        time.len() == 7,
        record_size(r) <= 255,
        r.dir_ref.extent.0 <= u32::MAX,
        r.dir_ref.size <= u32::MAX,
        0 <= i,
    ensures
        ({
            let b = record_bytes(r, time);
            let n = r.name.len() as int;
            let end = if n % 2 == 0 {
                34 + n
            } else {
                33 + n
            };
            &&& b.len() == end + r.inline.len()
            &&& b[0] == b.len()
            &&& b[1] == 0
            &&& holds_both(b, 2, r.dir_ref.extent.0 as int)
            &&& holds_both(b, 10, r.dir_ref.size as int)
            &&& i < 7 ==> b[18 + i] == time[i]
            &&& b[25] == r.flags.bits
            &&& b[26] == 0 && b[27] == 0
            &&& b[28] == 1 && b[29] == 0 && b[30] == 0 && b[31] == 1
            &&& b[32] == n
            &&& i < n ==> b[33 + i] == r.name[i]
            &&& n % 2 == 0 ==> b[33 + n] == 0
            &&& i < r.inline.len() ==> b[end + i] == r.inline[i]
        }),
{
    let n = r.name.len() as int;
    let (x, y) = (r.dir_ref.extent.0 as u32, r.dir_ref.size as u32);
    numbers_stand_in_both_orders(x);
    numbers_stand_in_both_orders(y);
    let a0 = seq![record_size(r) as u8, 0u8];
    let a1 = a0 + both32(x);
    let a2 = a1 + both32(y);
    let a3 = a2 + time;
    let tail = seq![r.flags.bits, 0u8, 0u8, 1u8, 0u8, 0u8, 1u8, r.name.len() as u8];
    let a4 = a3 + tail;
    let a5 = a4 + r.name;
    let pad = if r.name.len() % 2 == 0 {
        seq![0u8]
    } else {
        Seq::empty()
    };
    let a6 = a5 + pad;
    let b = a6 + r.inline;
    assert(b == record_bytes(r, time));
    assert(a1.len() == 10 && a2.len() == 18 && a3.len() == 25 && a4.len() == 33 && a5.len() == 33
        + n);
    assert(forall|k: int| 0 <= k < a6.len() ==> b[k] == #[trigger] a6[k]);
    assert(forall|k: int| 0 <= k < a5.len() ==> a6[k] == #[trigger] a5[k]);
    assert(forall|k: int| 0 <= k < 33 ==> a5[k] == #[trigger] a4[k]);
    assert(forall|k: int| 0 <= k < 25 ==> a4[k] == #[trigger] a3[k]);
    assert(forall|k: int| 0 <= k < 18 ==> a3[k] == #[trigger] a2[k]);
    assert(forall|k: int| 0 <= k < 10 ==> a2[k] == #[trigger] a1[k]);
    let (p, q) = (both32(x), both32(y));
    assert(a1[2] == p[0] && a1[3] == p[1] && a1[4] == p[2] && a1[5] == p[3] && a1[6] == p[4]
        && a1[7] == p[5] && a1[8] == p[6] && a1[9] == p[7]);
    assert(a2[10] == q[0] && a2[11] == q[1] && a2[12] == q[2] && a2[13] == q[3] && a2[14] == q[4]
        && a2[15] == q[5] && a2[16] == q[6] && a2[17] == q[7]);
    assert(a4[25] == tail[0] && a4[26] == tail[1] && a4[27] == tail[2] && a4[28] == tail[3]
        && a4[29] == tail[4] && a4[30] == tail[5] && a4[31] == tail[6] && a4[32] == tail[7]);
    if i < n {
        assert(a5[33 + i] == r.name[i]);
    }
}

/// A record goes behind the one before it where the rest of the sector has room for it, and else to
/// the start of the next sector.
pub proof fn records_do_not_cross_sectors(
    sector: int,
    within: int,
    size: int,
    records: Seq<RecordView>,
    r: RecordView,
    pos: int,
)
    requires
        0 <= sector,
        0 <= within < 2048,
    ensures
        size <= 2048 - within ==> place_record(2048 * sector + within, size, 2048) == 2048 * sector
            + within,
        size > 2048 - within ==> place_record(2048 * sector + within, size, 2048) == 2048 * (sector
            + 1),
        pack_end(pos, Seq::empty(), 2048) == pos,
        pack_end(pos, records.push(r), 2048) == place_record(
            pack_end(pos, records, 2048),
            record_size(r),
            2048,
        ) + record_size(r),
        record_size(r) == 33 + r.name.len() + r.inline.len() || record_size(r) == 34 + r.name.len()
            + r.inline.len(),
        (record_size(r) - r.inline.len()) % 2 == 0,
{
    assert(records.push(r).drop_last() =~= records);
}

/// Bit 7 of a record's flags says that the file goes on in the next record.
pub proof fn files_go_on_where_bit_seven_is_set(flags: FileFlags)
    ensures
        continues(flags) <==> flags.bits & 0x80 != 0,
{
    let b = flags.bits;
    assert((b & 0x80 == 0x80) == (b & 0x80 != 0)) by (bit_vector);
}

/// A file of up to 0xFFFFF800 bytes is one extent from the next sector on; a longer one has an
/// extent of that length and goes on behind it.
pub proof fn files_are_cut_into_extents(len: int, cursor: int)
    requires
        0 < len,
        0 <= cursor,
    ensures
        ({
            let start = align_up(cursor, 2048);
            let list = extent_list(len, cursor, 2048);
            &&& extent_list(0, cursor, 2048) == Seq::<DirectoryRef>::empty()
            &&& len <= 0xFFFFF800 ==> list == seq![
                DirectoryRef {
                    extent: LogicalSector((start / 2048) as usize),
                    size: len as usize,
                },
            ] && extent_end(len, cursor, 2048) == start + len
            &&& len > 0xFFFFF800 ==> list == seq![
                DirectoryRef {
                    extent: LogicalSector((start / 2048) as usize),
                    size: 0xFFFFF800,
                },
            ] + extent_list(len - 0xFFFFF800, start + 0xFFFFF800, 2048) && extent_end(
                len,
                cursor,
                2048,
            ) == extent_end(len - 0xFFFFF800, start + 0xFFFFF800, 2048)
        }),
{
    if len <= 0xFFFFF800 {
        assert(extent_list(len - len, align_up(cursor, 2048) + len, 2048) =~= Seq::empty());
        let one = seq![
            DirectoryRef {
                extent: LogicalSector((align_up(cursor, 2048) / 2048) as usize),
                size: len as usize,
            },
        ];
        assert(one + Seq::<DirectoryRef>::empty() =~= one);
        assert(extent_end(0, align_up(cursor, 2048) + len, 2048) == align_up(cursor, 2048) + len);
    }
}

/// A size of sectors has one bit: every power of two is one, and what has two bits is none.
pub proof fn sector_sizes_have_one_bit(s: u64, a: u64, b: u64)
    requires
        a < 64,
        b < 64,
        a != b,
    ensures
        !is_sector_size(0),
        is_sector_size(1u64 << a),
        s & (1u64 << a) != 0 && s & (1u64 << b) != 0 ==> !is_sector_size(s),
{
    assert((1u64 << a) > 0 && (1u64 << a) & (((1u64 << a) - 1) as u64) == 0) by (bit_vector)
        requires
            a < 64,
    ;
    if s & (1u64 << a) != 0 && s & (1u64 << b) != 0 && s > 0 {
        assert(s & ((s - 1) as u64) != 0) by (bit_vector)
            requires
                a < 64,
                b < 64,
                a != b,
                s > 0,
                s & (1u64 << a) != 0,
                s & (1u64 << b) != 0,
        ;
    }
}

/// A record of a path table: the length of the identifier, 0, where the directory lies, the number
/// of its parent, and the identifier, filled up to an even length. One table has the numbers with
/// the low byte first, the other with the high byte first.
#[verifier::spinoff_prover]
pub proof fn path_records_have_their_bytes(parent: u16, extent: u32, name: Seq<u8>, i: int)
    requires
        name.len() <= 255,
        0 <= i < name.len(),
    ensures
        ({
            let b = table_record(EndianType::LittleEndian, parent, extent, name);
            &&& b.len() == 8 + name.len() + name.len() % 2
            &&& b[0] == name.len()
            &&& b[1] == 0
            &&& b[2] + 0x100 * b[3] + 0x10000 * b[4] + 0x1000000 * b[5] == extent
            &&& b[6] + 0x100 * b[7] == parent
            &&& b[8 + i] == name[i]
            &&& name.len() % 2 == 1 ==> b.last() == 0
        }),
        ({
            let b = table_record(EndianType::BigEndian, parent, extent, name);
            &&& b.len() == 8 + name.len() + name.len() % 2
            &&& b[0] == name.len()
            &&& b[1] == 0
            &&& b[5] + 0x100 * b[4] + 0x10000 * b[3] + 0x1000000 * b[2] == extent
            &&& b[7] + 0x100 * b[6] == parent
            &&& b[8 + i] == name[i]
            &&& name.len() % 2 == 1 ==> b.last() == 0
        }),
{
}

/// The path table begins with the root directory, whose identifier is one byte 0 and which is its
/// own parent, number 1; the directories below it follow level by level, numbered from 2 on.
pub proof fn path_tables_begin_with_the_root(root: DirView, ty: EntryType, endian: EndianType)
    ensures
        match records_below(seq![(root, 1int)], 2, ty, endian) {
            Ok(rest) => path_table(root, ty, endian) matches Ok(table) && table == table_record(
                endian,
                1,
                entry_of(root, ty).extent.0 as u32,
                seq![0u8],
            ) + rest,
            Err(e) => path_table(root, ty, endian) is Err,
        },
{
}

/// The directories of a level are written parent by parent, each with its parent's number, and are
/// numbered in that order; with more than 65535 directories there is no table.
pub proof fn path_tables_go_level_by_level(
    level: Seq<(DirView, int)>,
    next: int,
    ty: EntryType,
    endian: EndianType,
    dir: DirView,
    number: int,
)
    ensures
        level_records(level.push((dir, number)), ty, endian) == level_records(level, ty, endian)
            + sibling_records(ordered(dir.dirs, ty), number, ty, endian),
        ({
            let before = level_below(level, ty, next);
            let after = level_below(level.push((dir, number)), ty, next);
            let own = ordered(dir.dirs, ty);
            &&& after.len() == before.len() + own.len()
            &&& forall|i: int| 0 <= i < before.len() ==> #[trigger] after[i] == before[i]
            &&& forall|i: int|
                0 <= i < own.len() ==> after[before.len() + i] == (
                    #[trigger] own[i],
                    next + before.len() + i,
                )
        }),
{
    let all = level.push((dir, number));
    assert(all.drop_last() =~= level);
    let before = level_below(level, ty, next);
    let own = ordered(dir.dirs, ty);
    let after = level_below(all, ty, next);
    assert forall|i: int| 0 <= i < own.len() implies after[before.len() + i] == (
        #[trigger] own[i],
        next + before.len() + i,
    ) by {}
}

/// A level is followed by the one below it, whose numbers go on; there is no table with a number
/// beyond 65535.
pub proof fn path_table_levels_follow(
    level: Seq<(DirView, int)>,
    next: int,
    ty: EntryType,
    endian: EndianType,
)
    requires
        level.len() > 0,
    ensures
        ({
            let below = level_below(level, ty, next);
            let r = records_below(level, next, ty, endian);
            &&& next + below.len() > 65536 ==> r is Err
            &&& next + below.len() <= 65536 ==> match records_below(
                below,
                next + below.len(),
                ty,
                endian,
            ) {
                Ok(rest) => r matches Ok(all) && all == level_records(level, ty, endian) + rest,
                Err(_) => r is Err,
            }
        }),
{
}

/// Directories that only mark where another was moved from are left out of the table.
pub proof fn placeholders_are_left_out(dirs: Seq<DirView>, d: DirView)
    ensures
        kept(Seq::empty()) == Seq::<DirView>::empty(),
        d.relocation is Placeholder ==> kept(dirs.push(d)) == kept(dirs),
        !(d.relocation is Placeholder) ==> kept(dirs.push(d)) == kept(dirs).push(d),
{
    assert(dirs.push(d).drop_last() =~= dirs);
}

/// A sequence of bytes comes before another where it has the smaller byte at the first place at
/// which they differ, or where the other only goes on.
pub proof fn bytes_are_ordered_by_the_first_difference(a: Seq<u8>, b: Seq<u8>, k: int)
    requires
        0 <= k <= a.len(),
        k <= b.len(),
        forall|i: int| 0 <= i < k ==> a[i] == b[i],
        k < a.len() && k < b.len() ==> a[k] != b[k],
    ensures
        lex_lt(a, b) <==> k < b.len() && (k == a.len() || a[k] < b[k]),
    decreases k,
{
    if k > 0 {
        let (s, t) = (a.drop_first(), b.drop_first());
        assert forall|i: int| 0 <= i < k - 1 implies s[i] == t[i] by {
            assert(a[i + 1] == b[i + 1]);
        }
        if k < a.len() && k < b.len() {
            assert(s[k - 1] == a[k] && t[k - 1] == b[k]);
        }
        assert(a[0] == b[0]);
        bytes_are_ordered_by_the_first_difference(s, t, k - 1);
    }
}

/// What is put in order: every place occurs, a smaller key comes first, and of equal keys the one
/// that came first.
pub proof fn orders_are_by_key_then_place(keys: Seq<Seq<u8>>, perm: Seq<int>, i: int, j: int)
    requires
        stable_order(keys, perm),
        0 <= i < j < perm.len(),
    ensures
        perm.len() == keys.len(),
        0 <= perm[i] < keys.len(),
        !lex_lt(keys[perm[j]], keys[perm[i]]) || keys[perm[i]] != keys[perm[j]],
        lex_lt(keys[perm[i]], keys[perm[j]]) || keys[perm[i]] == keys[perm[j]],
        keys[perm[i]] == keys[perm[j]] ==> perm[i] < perm[j],
{
    crate::iso::order::lex_lt_total(keys[perm[i]], keys[perm[j]]);
}

/// What tells names apart that would be the same: `_` and a number, between the name and its
/// extension. Without a version and an extension it is the name, as far as the namespace has room,
/// with the number behind it.
pub proof fn equal_names_get_a_number(base: Seq<u8>, ext: Seq<u8>, n: nat, ty: EntryType)
    requires
        !(ty is Joliet),
        !base.contains('.' as u8),
        !base.contains(';' as u8),
        !ext.contains('.' as u8),
        !ext.contains(';' as u8),
        ext.len() + decimal(n).len() <= 20,
    ensures
        suffix(n) == seq!['_' as u8] + decimal(n),
        ({
            let number = seq!['_' as u8] + decimal(n);
            let room = (if ty is Level1 {
                8int
            } else if ty is Level2 {
                30 - 1 - ext.len()
            } else {
                207 - 1 - ext.len()
            }) - number.len();
            let short = if base.len() <= room {
                base
            } else if room <= 0 {
                Seq::empty()
            } else {
                base.take(room)
            };
            dedup_name(base.push('.' as u8) + ext, n, ty) == short + number + seq!['.' as u8] + ext
        }),
{
    let name = base.push(0x2E) + ext;
    let b = base.len() as int;
    assert(!has_version(name)) by {
        if has_version(name) {
            let k = name.len() - 2;
            assert(name[k] == 0x3B);
            if k < b {
                assert(base[k] == 0x3B);
                assert(base.contains(0x3B));
            } else if k > b {
                assert(ext[k - b - 1] == 0x3B);
                assert(ext.contains(0x3B));
            }
        }
    }
    last_dot_bounds(name);
    assert(name[b] == 0x2E);
    last_dot_is(name, b, ext);
    assert(name.take(b) =~= base);
    assert(name.skip(b) =~= seq![0x2Eu8] + ext);
    let number = seq![0x5Fu8] + decimal(n);
    assert(name.skip(b) + Seq::<u8>::empty() =~= name.skip(b));
    let limit = crate::iso::dedup::minus(iso_limit(name, ty), number.len() as int);
    let short = head(base, limit);
    if limit == 0 {
        assert(base.take(0) =~= Seq::empty());
        if base.len() == 0 {
            assert(base =~= Seq::empty());
        }
    }
    let room = (if ty is Level1 {
        8int
    } else if ty is Level2 {
        30 - 1 - ext.len()
    } else {
        207 - 1 - ext.len()
    }) - number.len();
    let wanted = if base.len() <= room {
        base
    } else if room <= 0 {
        Seq::empty()
    } else {
        base.take(room)
    };
    assert(short =~= wanted);
    assert(short + number + (seq![0x2Eu8] + ext) =~= short + number + seq![0x2Eu8] + ext);
}

proof fn last_dot_is(name: Seq<u8>, b: int, ext: Seq<u8>)
    requires
        0 <= b,
        name.len() == b + 1 + ext.len(),
        name[b] == 0x2E,
        forall|i: int| 0 <= i < ext.len() ==> name[b + 1 + i] == #[trigger] ext[i],
        !ext.contains(0x2Eu8),
    ensures
        last_dot(name) == b,
    decreases ext.len(),
{
    if ext.len() > 0 {
        let e = ext.drop_last();
        assert(ext.contains(ext[ext.len() - 1]));
        assert(name.last() == ext[ext.len() - 1]);
        assert forall|i: int| 0 <= i < e.len() implies name.drop_last()[b + 1 + i]
            == #[trigger] e[i] by {
            assert(e[i] == ext[i]);
        }
        assert(!e.contains(0x2Eu8)) by {
            if e.contains(0x2Eu8) {
                let k = choose|k: int| 0 <= k < e.len() && e[k] == 0x2E;
                assert(ext[k] == 0x2E);
            }
        }
        last_dot_is(name.drop_last(), b, e);
    }
}

/// A version stays behind the number: what is done to a name with `;1` is what is done to the name
/// without it, but that the longest form has two bytes less room.
pub proof fn versions_stay_last(base: Seq<u8>, n: nat, ty: EntryType)
    requires
        ty is Level1 || ty is Level2,
        !has_version(base),
    ensures
        dedup_name(base.push(';' as u8).push('1' as u8), n, ty) == dedup_name(base, n, ty).push(
            ';' as u8,
        ).push('1' as u8),
{
    let name = base.push(0x3B).push(0x31);
    assert(has_version(name));
    assert(name.take(name.len() - 2) =~= base);
    assert(dedup_name(name, n, ty) =~= dedup_name(base, n, ty).push(0x3B).push(0x31));
}

proof fn joliet_dot_from(name: Seq<u8>, from: int)
    requires
        0 <= from,
        from % 2 == 0,
    ensures
        ({
            let p = joliet_ext(name, from);
            ||| p == name.len() && forall|j: int|
                from <= j && j + 1 < name.len() && #[trigger] name[j] == 0 && j % 2 == 0 ==> name[j
                    + 1] != '.' as u32
            ||| {
                &&& from <= p && p + 1 < name.len()
                &&& p % 2 == 0
                &&& name[p] == 0 && name[p + 1] == '.' as u32
                &&& forall|j: int|
                    from <= j < p && #[trigger] name[j] == 0 && j % 2 == 0 ==> name[j + 1]
                        != '.' as u32
            }
        }),
    decreases name.len() - from,
{
    if from + 1 < name.len() && !(name[from] == 0 && name[from + 1] == 0x2E) {
        joliet_dot_from(name, from + 2);
    }
}

/// The extension of a Joliet name starts at its first character that is a dot, and is empty where
/// there is none.
pub proof fn joliet_extensions_start_at_the_first_dot(name: Seq<u8>)
    ensures
        ({
            let p = joliet_ext(name, 0);
            ||| p == name.len() && forall|j: int|
                0 <= j && j + 1 < name.len() && #[trigger] name[j] == 0 && j % 2 == 0 ==> name[j + 1]
                    != '.' as u32
            ||| {
                &&& 0 <= p && p + 1 < name.len()
                &&& p % 2 == 0
                &&& name[p] == 0 && name[p + 1] == '.' as u32
                &&& forall|j: int|
                    0 <= j < p && #[trigger] name[j] == 0 && j % 2 == 0 ==> name[j + 1] != '.' as u32
            }
        }),
{
    joliet_dot_from(name, 0);
}

/// Joliet names get the number in characters of two bytes, before the first dot; what is kept in
/// front of it is whole characters, and the name has at most 206 bytes where the extension leaves
/// room for that.
pub proof fn joliet_names_get_a_wide_number(name: Seq<u8>, n: nat, ty: EntryType, i: int)
    requires
        ty is Joliet,
        0 <= i < 1 + decimal(n).len(),
    ensures
        ({
            let p = joliet_ext(name, 0);
            let m = 2 * (1 + decimal(n).len());
            let r = dedup_name(name, n, ty);
            let k = r.len() - m - (name.len() - p);
            &&& 0 <= k <= p
            &&& k % 2 == 0
            &&& p + m + (name.len() - p) <= 206 ==> k == p - p % 2
            &&& p + m + (name.len() - p) > 206 && m + (name.len() - p) <= 206 ==> 205 <= r.len()
                <= 206
            &&& forall|j: int| 0 <= j < k ==> #[trigger] r[j] == name[j]
            &&& r[k + 2 * i] == 0
            &&& r[k + 2 * i + 1] == (if i == 0 {
                '_' as u8
            } else {
                decimal(n)[i - 1]
            })
            &&& forall|j: int|
                p <= j < name.len() ==> r[k + m + (j - p)] == #[trigger] name[j]
        }),
{
    let p = joliet_ext(name, 0);
    joliet_ext_bounds(name, 0);
    let s = widen(suffix(n));
    let k = joliet_kept(name, s.len() as int);
    let r = dedup_name(name, n, ty);
    assert(0 <= k <= p);
    assert(r.len() == k + s.len() + (name.len() - p));
    assert((2 * i) % 2 == 0 && (2 * i) / 2 == i);
    assert((2 * i + 1) % 2 == 1 && (2 * i + 1) / 2 == i);
    assert(r[k + 2 * i] == s[2 * i]);
    assert(r[k + 2 * i + 1] == s[2 * i + 1]);
    assert forall|j: int| p <= j < name.len() implies r[k + s.len() + (j - p)]
        == #[trigger] name[j] by {
        assert(name.skip(p)[j - p] == name[j]);
    }
}

/// The three levels of Joliet are told apart by the last byte of `%/@`, `%/C` and `%/E`, behind
/// which the field is zero.
pub proof fn joliet_levels_have_their_escapes(level: JolietLevel, i: int)
    requires
        3 <= i < 32,
    ensures
        level.escape_seq().len() == 32,
        level.escape_seq()[0] == '%' as u32,
        level.escape_seq()[1] == '/' as u32,
        level == JolietLevel::Level1 ==> level.escape_seq()[2] == '@' as u32,
        level == JolietLevel::Level2 ==> level.escape_seq()[2] == 'C' as u32,
        level == JolietLevel::Level3 ==> level.escape_seq()[2] == 'E' as u32,
        level.escape_seq()[i] == 0,
{
}

} // verus!
