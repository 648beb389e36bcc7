//! What the numbers on a volume mean, byte by byte.

#[allow(unused_imports)]
use crate::byte_laws::{number32, number64, numbers_are_read_low_byte_first};
#[allow(unused_imports)]
use crate::civil::CivilTime;
#[allow(unused_imports)]
use crate::exfat::bitmap::{
    bit_at, bit_value, bitmap_round_trip, contiguous_pick, free_cluster, free_count,
    free_from_found, is_run, packed, packed_byte, search_start, unpacked,
};
#[allow(unused_imports)]
use crate::exfat::entry::{
    is_entry_set, parsed_from, roll16, set_checksum, FileAttributes, ParsedEntrySet,
};
#[allow(unused_imports)]
use crate::exfat::error::ExFatError;
#[allow(unused_imports)]
use crate::exfat::fat::{fat_table, next_of};
#[allow(unused_imports)]
use crate::exfat::info::{
    boot_ok, covered_by_checksum, file_system_name, roll32, shift_value, volume_numbers, ExFatInfo,
};
#[allow(unused_imports)]
use crate::exfat::time::{timestamp_round_trip, ExFatTimestamp};
#[allow(unused_imports)]
use vstd::arithmetic::power2::{lemma2_to64, lemma_pow2_unfold, pow2};
use vstd::prelude::*;

verus! {

proof fn shifts_are_powers(n: int)
    requires
        0 <= n,
    ensures
        shift_value(n) == pow2(n as nat),
    decreases n,
{
    if n > 0 {
        shifts_are_powers(n - 1);
        lemma_pow2_unfold(n as nat);
    } else {
        lemma2_to64();
    }
}

/// A device is taken for a volume where its first sector carries the name `EXFAT` with three
/// spaces at byte 3 and the two signature bytes at its end, a sector has 2^9 to 2^12 bytes and a
/// cluster at most 2^25, the FAT has room for its entries before the clusters begin, the root
/// directory's cluster exists, and the checksum behind the first eleven sectors is theirs. The
/// numbers of the volume are those that stand in the first sector, as powers of two or as
/// counts of sectors where the sector has them so.
pub proof fn volume_numbers_are_those_of_the_boot_sector(content: Seq<u8>)
    requires
        content.len() >= 512,
        9 <= content[108] <= 12,
        content.len() >= 11 * pow2(content[108] as nat) + 4,
    ensures
        ({
            let sector = pow2(content[108] as nat) as int;
            let cluster = pow2((content[108] + content[109]) as nat) as int;
            let (fat, heap) = (number32(content, 80) * sector, number32(content, 88) * sector);
            let (count, root) = (number32(content, 92), number32(content, 96));
            let sum = roll32(covered_by_checksum(content.subrange(0, 11 * sector)));
            let sound = {
                &&& content[3] == 'E' as u32
                &&& content[4] == 'X' as u32
                &&& content[5] == 'F' as u32
                &&& content[6] == 'A' as u32
                &&& content[7] == 'T' as u32
                &&& content[8] == ' ' as u32
                &&& content[9] == ' ' as u32
                &&& content[10] == ' ' as u32
                &&& content[510] == 0x55
                &&& content[511] == 0xAA
                &&& content[108] + content[109] <= 25
                &&& 1 <= count <= 0xFFFFFFF5
                &&& fat + 4 * (count + 2) <= heap
                &&& 2 <= root < count + 2
            };
            match volume_numbers(content) {
                Ok(info) => {
                    &&& sound
                    &&& sum == number32(content, 11 * sector)
                    &&& info.bytes_per_sector == sector
                    &&& info.bytes_per_cluster == cluster
                    &&& info.fat_offset == fat
                    &&& info.heap_offset == heap
                    &&& info.cluster_count == count
                    &&& info.root_cluster == root
                    &&& info.volume_serial == number32(content, 100)
                },
                Err(ExFatError::InvalidBootSector) => !sound,
                Err(e) => {
                    &&& sound
                    &&& sum != number32(content, 11 * sector)
                    &&& e == (ExFatError::InvalidChecksum {
                        expected: number32(content, 11 * sector) as u32,
                        found: sum,
                    })
                },
            }
        }),
{
    let boot = content.subrange(0, 512);
    let n = content[108] as int;
    let m = content[108] + content[109];
    let sector = shift_value(n);
    assert(boot[108] == content[108] && boot[109] == content[109]);
    shifts_are_powers(n);
    shifts_are_powers(m);
    assert(512 <= sector <= 4096) by {
        reveal_with_fuel(shift_value, 14);
    }
    numbers_are_read_low_byte_first(boot, 80);
    numbers_are_read_low_byte_first(boot, 88);
    numbers_are_read_low_byte_first(boot, 92);
    numbers_are_read_low_byte_first(boot, 96);
    numbers_are_read_low_byte_first(boot, 100);
    numbers_are_read_low_byte_first(content, 11 * sector);
    let (a, b) = (number32(content, 80), number32(content, 88));
    assert(number32(boot, 80) == a && number32(boot, 88) == b);
    assert(0 <= a * sector <= 0xFFFFFFFF * 4096 && 0 <= b * sector <= 0xFFFFFFFF * 4096)
        by (nonlinear_arith)
        requires
            0 <= a <= 0xFFFFFFFF,
            0 <= b <= 0xFFFFFFFF,
            512 <= sector <= 4096,
    ;
    if m <= 25 {
        assert(512 <= shift_value(m) <= 33554432 && shift_value(m) % 512 == 0) by {
            reveal_with_fuel(shift_value, 27);
        }
    }
    let named = boot.subrange(3, 11);
    if boot_ok(boot) {
        assert(forall|i: int| 0 <= i < 8 ==> #[trigger] named[i] == content[3 + i]);
        assert(named[0] == file_system_name()[0] && named[1] == file_system_name()[1] && named[2]
            == file_system_name()[2] && named[3] == file_system_name()[3] && named[4]
            == file_system_name()[4] && named[5] == file_system_name()[5] && named[6]
            == file_system_name()[6] && named[7] == file_system_name()[7]);
    } else if content[3] == 0x45 && content[4] == 0x58 && content[5] == 0x46 && content[6] == 0x41
        && content[7] == 0x54 && content[8] == 0x20 && content[9] == 0x20 && content[10] == 0x20 {
        assert(named =~= file_system_name());
    }
}

/// A device without 512 bytes, or one whose first sector is in order and that ends before the
/// checksum, cannot be read as a volume.
pub proof fn short_devices_are_no_volumes(content: Seq<u8>)
    ensures
        content.len() < 512 ==> volume_numbers(content) == Err::<ExFatInfo, ExFatError>(
            ExFatError::Io,
        ),
        content.len() >= 512 && !(9 <= content[108] <= 12) ==> volume_numbers(content) == Err::<
            ExFatInfo,
            ExFatError,
        >(ExFatError::InvalidBootSector),
        content.len() >= 512 && 9 <= content[108] <= 12 && content.len() < 11 * pow2(
            content[108] as nat,
        ) + 4 ==> volume_numbers(content) is Err,
{
    if content.len() >= 512 {
        let boot = content.subrange(0, 512);
        assert(boot[108] == content[108]);
        if 9 <= content[108] <= 12 {
            shifts_are_powers(content[108] as int);
            assert(512 <= shift_value(content[108] as int) <= 4096) by {
                reveal_with_fuel(shift_value, 14);
            }
        }
    }
}

/// The next byte of a checksum of 32 bits: the sum is turned by one bit to the right and the byte
/// is added.
pub proof fn checksums_turn_and_add(s: Seq<u8>, b: u8)
    ensures
        roll32(Seq::empty()) == 0,
        ({
            let h = roll32(s);
            roll32(s.push(b)) == (((h >> 1) | (h << 31)) + b) % 0x100000000
        }),
{
    assert(s.push(b).drop_last() =~= s);
    let h = roll32(s);
    assert(((h >> 1) | (h << 31)) as int == h / 2 + (h % 2) * 2147483648) by (bit_vector);
}

/// The next byte of a checksum of 16 bits: the sum is turned by one bit to the right and the byte
/// is added.
pub proof fn set_checksums_turn_and_add(s: Seq<u8>, b: u8)
    ensures
        roll16(Seq::empty()) == 0,
        ({
            let h = roll16(s);
            roll16(s.push(b)) == (((h >> 1) | (h << 15)) + b) % 0x10000
        }),
{
    assert(s.push(b).drop_last() =~= s);
    let h = roll16(s);
    assert(((h >> 1) | (h << 15)) as int == h / 2 + (h % 2) * 32768) by (bit_vector);
}

/// The checksum of a volume's first sectors covers every byte in order, but for those at 106, 107
/// and 112; the checksum of an entry set covers every byte but for those at 2 and 3.
pub proof fn checksums_cover_all_but_what_changes(s: Seq<u8>, set: Seq<u8>, i: int, b: u8)
    requires
        s.len() >= 113,
        set.len() >= 4,
    ensures
        covered_by_checksum(s).len() == s.len() - 3,
        0 <= i < 106 ==> covered_by_checksum(s)[i] == s[i],
        108 <= i < 112 ==> covered_by_checksum(s)[i - 2] == s[i],
        113 <= i < s.len() ==> covered_by_checksum(s)[i - 3] == s[i],
        i == 106 || i == 107 || i == 112 ==> covered_by_checksum(s.update(i, b))
            == covered_by_checksum(s),
        i == 2 || i == 3 ==> set_checksum(set.update(i, b)) == set_checksum(set),
        set_checksum(set) == roll16(seq![set[0], set[1]] + set.skip(4)),
{
    let c = covered_by_checksum(s);
    if i == 106 || i == 107 || i == 112 {
        assert(covered_by_checksum(s.update(i, b)) =~= c);
    }
    if i == 2 || i == 3 {
        assert(set.update(i, b).take(2) =~= set.take(2));
        assert(set.update(i, b).skip(4) =~= set.skip(4));
    }
    assert(set.take(2) =~= seq![set[0], set[1]]);
}

/// The clusters lie one behind the other: number 2 begins where the clusters begin, and each
/// cluster ends where the next one begins.
pub proof fn clusters_lie_in_a_row(info: ExFatInfo, c: u32)
    requires
        2 <= c < u32::MAX,
    ensures
        info.offset(2) == info.heap_offset,
        info.offset((c + 1) as u32) == info.offset(c) + info.bytes_per_cluster,
        info.end() == info.heap_offset + info.cluster_count * info.bytes_per_cluster,
        info.has(c) <==> c - 2 < info.cluster_count,
        !info.has(0) && !info.has(1),
{
    let b = info.bytes_per_cluster as int;
    assert((c + 1 - 2) * b == (c - 2) * b + b) by (nonlinear_arith);
    assert((2 - 2) * b == 0) by (nonlinear_arith);
}

/// The entry of a cluster in the FAT is the number that the four bytes hold that come four times
/// the cluster's number behind the start of the FAT.
pub proof fn fat_entries_are_four_bytes(content: Seq<u8>, info: ExFatInfo, c: u32)
    requires
        c < info.cluster_count + 2,
        info.fat_offset + 4 * (info.cluster_count + 2) <= content.len(),
    ensures
        fat_table(content, info).len() == info.cluster_count + 2,
        fat_table(content, info)[c as int] == number32(content, info.fat_offset + 4 * c),
{
    numbers_are_read_low_byte_first(content, info.fat_offset + 4 * c);
}

/// An entry of the FAT of 0xFFFFFFF8 or more ends a chain, one that is a cluster's number leads
/// there, and any other is no entry of a chain, among them 0, 1 and 0xFFFFFFF7.
pub proof fn fat_entries_lead_on(info: ExFatInfo, value: u32)
    requires
        info.cluster_count <= 0xFFFFFFF5,
    ensures
        value >= 0xFFFFFFF8 ==> next_of(info, value) == Ok::<Option<u32>, ExFatError>(None),
        2 <= value < info.cluster_count + 2 ==> next_of(info, value) == Ok::<
            Option<u32>,
            ExFatError,
        >(Some(value)),
        value < 2 || (info.cluster_count + 2 <= value < 0xFFFFFFF8) ==> next_of(info, value)
            == Err::<Option<u32>, ExFatError>(ExFatError::InvalidCluster(value)),
{
}

/// A timestamp has its seconds in steps of two in bits 0 to 4, the minutes in bits 5 to 10, the
/// hours in bits 11 to 15, the day in bits 16 to 20, the month in bits 21 to 24 and the years since
/// 1980 above; the other byte holds the hundredths that the steps leave over.
pub proof fn timestamps_have_their_bits(t: ExFatTimestamp)
    requires
        t.wf(),
    ensures
        ({
            let p = t.packed();
            &&& (p >> 25) + 1980 == t.year
            &&& (p >> 21) & 0xF == t.month
            &&& (p >> 16) & 0x1F == t.day
            &&& (p >> 11) & 0x1F == t.hour
            &&& (p >> 5) & 0x3F == t.minute
            &&& 200 * (p & 0x1F) + t.increment() == 100 * t.second + t.hundredths
            &&& t.increment() < 200
        }),
{
    timestamp_round_trip(t);
    timestamps_are_read_from_their_bits(t.packed(), t.increment(), t.utc_offset);
}

/// The fields of a timestamp that is read come from the same bits.
pub proof fn timestamps_are_read_from_their_bits(p: u32, increment: u8, utc_offset: u8)
    ensures
        ({
            let t = ExFatTimestamp::unpacked(p, increment, utc_offset);
            &&& (p >> 25) + 1980 == t.year
            &&& (p >> 21) & 0xF == t.month
            &&& (p >> 16) & 0x1F == t.day
            &&& (p >> 11) & 0x1F == t.hour
            &&& (p >> 5) & 0x3F == t.minute
            &&& 200 * (p & 0x1F) + increment == 100 * t.second + t.hundredths
            &&& t.hundredths < 100
            &&& t.utc_offset == utc_offset
        }),
{
    assert(p >> 25 == p / 33554432 && (p >> 21) & 0xF == p / 2097152 % 16 && (p >> 16) & 0x1F == p
        / 65536 % 32 && (p >> 11) & 0x1F == p / 2048 % 32 && (p >> 5) & 0x3F == p / 32 % 64 && p
        & 0x1F == p % 32) by (bit_vector);
}

/// The timestamp of a moment of the years 1980 to 2107 has that moment's date and time of day, and
/// says that they are universal time; the year of another moment is moved to the nearer end.
pub proof fn timestamps_of_moments(t: CivilTime)
    requires
        t.wf(),
    ensures
        ({
            let s = ExFatTimestamp::of_civil(t);
            &&& 1980 <= t.year <= 2107 ==> s.year == t.year
            &&& t.year < 1980 ==> s.year == 1980
            &&& t.year > 2107 ==> s.year == 2107
            &&& s.month == t.month
            &&& s.day == t.day
            &&& 3600 * s.hour + 60 * s.minute + s.second == 3600 * t.hour + 60 * t.minute + t.second
            &&& s.minute < 60
            &&& s.second < 60
            &&& s.hundredths == 0
            &&& s.utc_offset & 0x80 == 0x80
            &&& s.utc_offset & 0x7F == 0
        }),
{
    assert(0x80u8 & 0x80 == 0x80 && 0x80u8 & 0x7F == 0) by (bit_vector);
}

proof fn bits_of_a_byte(b: u8, k: int)
    requires
        0 <= k < 8,
    ensures
        (b >> (k as u8)) & 1 == 1 <==> b as int / bit_value(k) % 2 == 1,
{
    assert((b >> 0u8) & 1 == b % 2 && (b >> 1u8) & 1 == b / 2 % 2 && (b >> 2u8) & 1 == b / 4 % 2
        && (b >> 3u8) & 1 == b / 8 % 2 && (b >> 4u8) & 1 == b / 16 % 2 && (b >> 5u8) & 1 == b / 32
        % 2 && (b >> 6u8) & 1 == b / 64 % 2 && (b >> 7u8) & 1 == b / 128 % 2) by (bit_vector);
}

/// Cluster `i + 2` has bit `i % 8` of byte `i / 8` of the bitmap, the lowest bit being bit 0; it is
/// set where the cluster is taken. Bits behind the last cluster's are not set.
pub proof fn bitmaps_have_a_bit_for_each_cluster(bits: Seq<bool>, bytes: Seq<u8>, n: int, i: int)
    requires
        0 <= i,
    ensures
        packed(bits).len() == (bits.len() + 7) / 8,
        i < bits.len() ==> ((packed(bits)[i / 8] >> ((i % 8) as u8)) & 1 == 1 <==> bits[i]),
        bits.len() <= i < 8 * packed(bits).len() ==> (packed(bits)[i / 8] >> ((i % 8) as u8)) & 1
            != 1,
        i < n ==> (unpacked(bytes, n)[i] <==> (bytes[i / 8] >> ((i % 8) as u8)) & 1 == 1),
        n >= 0 ==> unpacked(bytes, n).len() == n,
{
    bitmap_round_trip(bits);
    if i < bits.len() {
        bits_of_a_byte(packed(bits)[i / 8], i % 8);
        assert(unpacked(packed(bits), bits.len() as int)[i] == bits[i]);
    } else if i < 8 * packed(bits).len() {
        let longer = bits + Seq::new((i + 1 - bits.len()) as nat, |k: int| false);
        bitmap_round_trip(longer);
        let j = i / 8;
        assert forall|k: int| 0 <= k < 8 implies bit_at(longer, 8 * j + k) == bit_at(
            bits,
            #[trigger] (8 * j + k),
        ) by {}
        assert(bit_at(longer, 8 * j + 0) == bit_at(bits, 8 * j + 0));
        assert(bit_at(longer, 8 * j + 1) == bit_at(bits, 8 * j + 1));
        assert(bit_at(longer, 8 * j + 2) == bit_at(bits, 8 * j + 2));
        assert(bit_at(longer, 8 * j + 3) == bit_at(bits, 8 * j + 3));
        assert(bit_at(longer, 8 * j + 4) == bit_at(bits, 8 * j + 4));
        assert(bit_at(longer, 8 * j + 5) == bit_at(bits, 8 * j + 5));
        assert(bit_at(longer, 8 * j + 6) == bit_at(bits, 8 * j + 6));
        assert(bit_at(longer, 8 * j + 7) == bit_at(bits, 8 * j + 7));
        assert(packed_byte(longer, j) == packed_byte(bits, j));
        bits_of_a_byte(packed(bits)[j], i % 8);
        assert(unpacked(packed(longer), longer.len() as int)[i] == longer[i]);
    }
    if i < n {
        bits_of_a_byte(bytes[i / 8], i % 8);
    }
}

/// The cluster that is found free is the first one from the hint on, and where there is none from
/// the hint on, or the hint is no cluster, the first one of all. Nothing is found where all are
/// taken.
pub proof fn the_first_free_cluster_is_found(bits: Seq<bool>, hint: u32, k: int)
    requires
        bits.len() <= 0xFFFFFFF5,
        0 <= k < bits.len(),
        !bits[k],
    ensures
        ({
            let r = free_cluster(bits, hint);
            &&& r matches Some(c) && 2 <= c < bits.len() + 2 && !bits[c - 2]
            &&& 2 <= hint <= k + 2 ==> (r matches Some(c) && hint <= c <= k + 2)
            &&& hint < 2 || hint >= bits.len() + 2 ==> (r matches Some(c) && c <= k + 2)
            &&& (forall|i: int| 0 <= i < bits.len() && i >= hint - 2 ==> #[trigger] bits[i])
                ==> (r matches Some(c) && c <= k + 2)
        }),
{
    let s = search_start(bits.len() as int, hint);
    free_from_found(bits, s);
    free_from_found(bits, 0);
}

/// Nothing is found where all clusters are taken, and only there.
pub proof fn nothing_is_free_where_all_is_taken(bits: Seq<bool>, hint: u32)
    requires
        bits.len() <= 0xFFFFFFF5,
    ensures
        free_cluster(bits, hint) is None <==> forall|i: int|
            0 <= i < bits.len() ==> #[trigger] bits[i],
{
    free_from_found(bits, search_start(bits.len() as int, hint));
    free_from_found(bits, 0);
}

/// A run that is found consists of free clusters. It is the first from the hint on; where there is
/// none from there on, or the hint is no cluster, it is the first of all. Where none is found there
/// is none.
pub proof fn the_first_run_is_found(
    bits: Seq<bool>,
    n: int,
    hint: u32,
    r: Option<u32>,
    j: int,
)
    requires
        contiguous_pick(bits, n, hint, r),
        n > 0,
        0 <= j,
    ensures
        r matches Some(c) ==> {
            &&& 2 <= c
            &&& c - 2 + n <= bits.len()
            &&& forall|k: int| c - 2 <= k < c - 2 + n ==> !#[trigger] bits[k]
        },
        j + n <= bits.len() && (forall|k: int| j <= k < j + n ==> !#[trigger] bits[k]) ==> {
            &&& r is Some
            &&& 2 <= hint <= j + 2 ==> (r matches Some(c) && hint <= c <= j + 2)
            &&& hint < 2 || hint - 2 >= bits.len() ==> (r matches Some(c) && c <= j + 2)
        },
{
    let s = search_start(bits.len() as int, hint);
    if j + n <= bits.len() && (forall|k: int| j <= k < j + n ==> !#[trigger] bits[k]) {
        assert(is_run(bits, j, n));
    }
}

/// Taking a free cluster leaves one fewer free, giving one back makes one more, and with nothing
/// taken all are free.
pub proof fn free_clusters_are_counted(bits: Seq<bool>, i: int)
    requires
        0 <= i < bits.len(),
    ensures
        free_count(Seq::empty()) == 0,
        !bits[i] ==> free_count(bits.update(i, true)) == free_count(bits) - 1,
        bits[i] ==> free_count(bits.update(i, false)) == free_count(bits) + 1,
        (forall|k: int| 0 <= k < bits.len() ==> !#[trigger] bits[k]) ==> free_count(bits)
            == bits.len(),
        (forall|k: int| 0 <= k < bits.len() ==> #[trigger] bits[k]) ==> free_count(bits) == 0,
    decreases bits.len(),
{
    let init = bits.drop_last();
    assert(forall|k: int| 0 <= k < init.len() ==> init[k] == bits[k]);
    if i == bits.len() - 1 {
        assert(bits.update(i, true).drop_last() =~= init);
        assert(bits.update(i, false).drop_last() =~= init);
        if init.len() > 0 {
            free_clusters_are_counted(init, 0);
        }
    } else {
        free_clusters_are_counted(init, i);
        assert(bits.update(i, true).drop_last() =~= init.update(i, true));
        assert(bits.update(i, false).drop_last() =~= init.update(i, false));
    }
}

/// Whether something is a directory stands in bit 4 of its attributes.
pub proof fn directories_have_bit_four(a: FileAttributes)
    ensures
        a.is_dir() <==> a.bits & 0x10 != 0,
{
    let bits = a.bits;
    assert((bits & 0x10 != 0) == (bits / 16 % 2 == 1)) by (bit_vector);
}

/// Whether a timestamp is the one that four bytes and the byte with what they leave over hold: the
/// years since 1980 above the lowest bit of the last byte, the month below them in four bits, the
/// day in the lowest five of the third byte, the hour in the upper five of the second, the minute
/// in the six below them, and the seconds in steps of two in the lowest five of the first.
pub open spec fn is_time_of(t: ExFatTimestamp, a: u8, b: u8, c: u8, d: u8, more: u8) -> bool {
    &&& t.year == 1980 + d / 2
    &&& t.month == 8 * (d % 2) + c / 32
    &&& t.day == c % 32
    &&& t.hour == b / 8
    &&& t.minute == 8 * (b % 8) + a / 32
    &&& t.second == 2 * (a % 32) + more / 100
    &&& t.hundredths == more % 100
}

proof fn times_of_bytes(a: u8, b: u8, c: u8, d: u8, more: u8, offset: u8)
    ensures
        is_time_of(
            ExFatTimestamp::unpacked(
                (a + 0x100 * b + 0x10000 * c + 0x1000000 * d) as u32,
                more,
                offset,
            ),
            a,
            b,
            c,
            d,
            more,
        ),
{
    let p = (a + 0x100 * b + 0x10000 * c + 0x1000000 * d) as u32;
    assert(p / 65536 == c + 0x100 * d);
    assert(p / 33554432 == d / 2);
    assert(p / 2097152 == 8 * d + c / 32);
    assert((8 * d + c / 32) % 16 == 8 * (d % 2) + c / 32);
    assert(p / 65536 % 32 == c % 32);
    assert(p / 2048 == b / 8 + 32 * c + 8192 * d);
    assert((b / 8 + 32 * c + 8192 * d) % 32 == b / 8);
    assert(p / 32 == a / 32 + 8 * b + 2048 * c + 524288 * d);
    assert((a / 32 + 8 * b + 2048 * c + 524288 * d) % 64 == 8 * (b % 8) + a / 32);
    assert(p % 32 == a % 32);
}

/// What an entry set says stands at fixed places: the attributes in bytes 4 and 5, the times of
/// creation, change and access from bytes 8, 12 and 16 on with what they leave over in bytes 20
/// and 21 and their offsets in bytes 22, 23 and 24, whether there is no chain in bit 1 of byte 33,
/// the number of code units of the name in byte 35, the name's hash in bytes 36 and 37, how much
/// was written from byte 40 on, the first cluster from byte 52 on, the size from byte 56 on, and
/// fifteen code units of the name in each further entry, from its third byte on.
pub proof fn entry_sets_have_their_places(p: ParsedEntrySet, set: Seq<u8>, i: int)
    requires
        is_entry_set(set),
        parsed_from(p, set),
        0 <= i < set[35],
    ensures
        set[0] == 0x85 && set[32] == 0xC0 && set[64] == 0xC1,
        set.len() == 32 + 32 * set[1],
        15 * (set[1] - 2) < set[35] <= 15 * (set[1] - 1),
        set[2] + 0x100 * set[3] == set_checksum(set),
        p.attributes.bits == set[4] + 0x100 * set[5],
        p.created.utc_offset == set[22],
        is_time_of(p.created, set[8], set[9], set[10], set[11], set[20]),
        p.modified.utc_offset == set[23],
        is_time_of(p.modified, set[12], set[13], set[14], set[15], set[21]),
        p.accessed.utc_offset == set[24],
        is_time_of(p.accessed, set[16], set[17], set[18], set[19], 0),
        p.no_fat_chain <==> set[33] & 2 != 0,
        p.name_hash == set[36] + 0x100 * set[37],
        p.valid_data_length == number64(set, 40),
        p.first_cluster == number32(set, 52),
        p.data_length == number64(set, 56),
        p.name@.len() == set[35],
        p.name@[i] == set[66 + 32 * (i / 15) + 2 * (i % 15)] + 0x100 * set[67 + 32 * (i / 15) + 2
            * (i % 15)],
{
    numbers_are_read_low_byte_first(set, 2);
    numbers_are_read_low_byte_first(set, 4);
    numbers_are_read_low_byte_first(set, 8);
    numbers_are_read_low_byte_first(set, 12);
    numbers_are_read_low_byte_first(set, 16);
    numbers_are_read_low_byte_first(set, 36);
    numbers_are_read_low_byte_first(set, 40);
    numbers_are_read_low_byte_first(set, 52);
    numbers_are_read_low_byte_first(set, 56);
    times_of_bytes(set[8], set[9], set[10], set[11], set[20], set[22]);
    times_of_bytes(set[12], set[13], set[14], set[15], set[21], set[23]);
    times_of_bytes(set[16], set[17], set[18], set[19], 0, set[24]);
    let f = set[33];
    assert((f & 2 != 0) == (f / 2 % 2 == 1)) by (bit_vector);
    assert(set[32 * 2int] == 0xC1);
}

} // verus!
