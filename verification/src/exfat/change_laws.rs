//! What is written to a volume and what is looked up on it, place by place.

#[allow(unused_imports)]
use crate::byte_laws::{
    number32, number64, numbers_are_read_low_byte_first, numbers_are_written_low_byte_first,
};
#[allow(unused_imports)]
use crate::bytes::{le16, le32, le64};
#[allow(unused_imports)]
use crate::exfat::bitmap::{free_cluster, free_cluster_found, unpacked};
#[allow(unused_imports)]
use crate::exfat::device::{splice, Device};
#[allow(unused_imports)]
use crate::exfat::dir::{
    chain_from, clusters_data, dir_clusters, dir_of_entry, entry_from, first_named, named, run_len,
    set_at, sets_from, ExFatDir,
};
#[allow(unused_imports)]
use crate::exfat::edit::{
    cleared_cluster, clusters_for, deleted, found_slots, resized, resized_set, set_len, shrunk,
    slot_at, slot_free, synced, truncated, walked,
};
#[allow(unused_imports)]
use crate::exfat::entry::{is_entry_set, set_checksum, ExFatFileEntry};
#[allow(unused_imports)]
use crate::exfat::entry_writer::{
    built_set, name_entry, name_entry_count, names_bytes, stream_flags_of, with_checksum,
    EntrySetBuilder,
};
#[allow(unused_imports)]
use crate::exfat::error::ExFatError;
#[allow(unused_imports)]
use crate::exfat::fat::fat_table;
#[allow(unused_imports)]
use crate::exfat::file_reader::{file_byte, nth_cluster, read_limit, ExFatFileReader};
#[allow(unused_imports)]
use crate::exfat::file_writer::byte_address;
#[allow(unused_imports)]
use crate::exfat::info::{roll32, ExFatInfo};
#[allow(unused_imports)]
use crate::exfat::upcase::UpcaseTable;
#[allow(unused_imports)]
use crate::exfat::volume::{
    allocated_many, allocated_one, bits_from, freed, freed_chain, linked, marked, marked_run,
    nothing_found, picked, scan_root, upcase_from, RootScan, VolState,
};
#[allow(unused_imports)]
use crate::text::utf16;
use vstd::prelude::*;

verus! {

#[verifier::spinoff_prover]
#[verifier::rlimit(80)]
proof fn file_entry_places(b: EntrySetBuilder)
    ensures
        ({
            let f = b.file_entry();
            &&& f.len() == 32
            &&& f[0] == 0x85
            &&& f[1] == (1 + name_entry_count(utf16(b.name@).len() as int)) as u8
            &&& f[4] + 0x100 * f[5] == b.attributes.bits
            &&& f[6] == 0 && f[7] == 0
            &&& number32(f, 8) == b.created.packed()
            &&& number32(f, 12) == b.modified.packed()
            &&& number32(f, 16) == b.accessed.packed()
            &&& f[20] == b.created.increment()
            &&& f[21] == b.modified.increment()
            &&& f[22] == b.created.utc_offset
            &&& f[23] == b.modified.utc_offset
            &&& f[24] == b.accessed.utc_offset
            &&& forall|i: int| 25 <= i < 32 ==> #[trigger] f[i] == 0
        }),
{
    reveal(EntrySetBuilder::file_entry);
    let (p, q, r) = (b.created.packed(), b.modified.packed(), b.accessed.packed());
    numbers_are_written_low_byte_first(b.attributes.bits, p, 0);
    numbers_are_written_low_byte_first(0, q, 0);
    numbers_are_written_low_byte_first(0, r, 0);
    let a0 = seq![
        0x85u8,
        (1 + name_entry_count(utf16(b.name@).len() as int)) as u8,
        0u8,
        0u8,
    ];
    let a1 = a0 + le16(b.attributes.bits);
    let a2 = a1 + seq![0u8, 0u8];
    let a3 = a2 + le32(p);
    let a4 = a3 + le32(q);
    let a5 = a4 + le32(r);
    assert(a1.len() == 6 && a2.len() == 8 && a3.len() == 12 && a4.len() == 16 && a5.len() == 20);
    let a6 = a5 + seq![
        b.created.increment(),
        b.modified.increment(),
        b.created.utc_offset,
        b.modified.utc_offset,
        b.accessed.utc_offset,
    ];
    let f = a6 + Seq::new(7, |i: int| 0u8);
    assert(f == b.file_entry());
    assert(forall|i: int| 0 <= i < 20 ==> f[i] == #[trigger] a5[i]);
    assert(forall|i: int| 0 <= i < 16 ==> a5[i] == #[trigger] a4[i]);
    assert(forall|i: int| 0 <= i < 12 ==> a4[i] == #[trigger] a3[i]);
    assert(forall|i: int| 0 <= i < 8 ==> a3[i] == #[trigger] a2[i]);
    assert(number32(a3, 8) == p);
    assert(number32(a4, 12) == q);
    assert(number32(a5, 16) == r);
}

#[verifier::spinoff_prover]
#[verifier::rlimit(80)]
proof fn stream_entry_places(b: EntrySetBuilder, hash: u16)
    requires
        utf16(b.name@).len() <= 255,
    ensures
        ({
            let f = b.stream_entry(hash);
            &&& f.len() == 32
            &&& f[0] == 0xC0
            &&& f[1] == b.stream_flags()
            &&& f[2] == 0
            &&& f[3] == utf16(b.name@).len()
            &&& f[4] + 0x100 * f[5] == hash
            &&& f[6] == 0 && f[7] == 0
            &&& number64(f, 8) == b.valid_data_length
            &&& forall|i: int| 16 <= i < 20 ==> #[trigger] f[i] == 0
            &&& number32(f, 20) == b.first_cluster
            &&& number64(f, 24) == b.data_length
        }),
{
    reveal(EntrySetBuilder::stream_entry);
    numbers_are_written_low_byte_first(hash, b.first_cluster, b.valid_data_length);
    numbers_are_written_low_byte_first(0, 0, b.data_length);
    let a0 = seq![0xC0u8, b.stream_flags(), 0u8, utf16(b.name@).len() as u8];
    let a1 = a0 + le16(hash);
    let a2 = a1 + seq![0u8, 0u8];
    let a3 = a2 + le64(b.valid_data_length);
    let a4 = a3 + seq![0u8, 0u8, 0u8, 0u8];
    let a5 = a4 + le32(b.first_cluster);
    let f = a5 + le64(b.data_length);
    assert(f == b.stream_entry(hash));
    assert(a1.len() == 6 && a2.len() == 8 && a3.len() == 16 && a4.len() == 20 && a5.len() == 24);
    assert(forall|i: int| 0 <= i < 24 ==> f[i] == #[trigger] a5[i]);
    assert(forall|i: int| 0 <= i < 20 ==> a5[i] == #[trigger] a4[i]);
    assert(forall|i: int| 0 <= i < 16 ==> a4[i] == #[trigger] a3[i]);
    assert(forall|i: int| 0 <= i < 8 ==> a3[i] == #[trigger] a2[i]);
    let v = le64(b.valid_data_length);
    assert(a3[8] == v[0] && a3[9] == v[1] && a3[10] == v[2] && a3[11] == v[3] && a3[12] == v[4]
        && a3[13] == v[5] && a3[14] == v[6] && a3[15] == v[7]);
    let w = le32(b.first_cluster);
    assert(a5[20] == w[0] && a5[21] == w[1] && a5[22] == w[2] && a5[23] == w[3]);
    let d = le64(b.data_length);
    assert(f[24] == d[0] && f[25] == d[1] && f[26] == d[2] && f[27] == d[3] && f[28] == d[4]
        && f[29] == d[5] && f[30] == d[6] && f[31] == d[7]);
}

proof fn name_bytes_places(units: Seq<u16>, n: int, at: int)
    requires
        0 <= at < 32 * n,
        15 * (n - 1) < units.len() <= 15 * n,
    ensures
        names_bytes(units, n).len() == 32 * n,
        ({
            let b = names_bytes(units, n)[at];
            let (j, k) = (at / 32, at % 32);
            let u = 15 * j + (k - 2) / 2;
            &&& k == 0 ==> b == 0xC1
            &&& k == 1 ==> b == 0
            &&& k >= 2 && u >= units.len() ==> b == 0
            &&& k >= 2 && u < units.len() && k % 2 == 0 ==> b == units[u] % 256
            &&& k >= 2 && u < units.len() && k % 2 == 1 ==> b == units[u] / 256
        }),
    decreases n,
{
    let m = n - 1;
    let from = 15 * m;
    let to = if units.len() - from < 15 {
        units.len() as int
    } else {
        from + 15
    };
    names_len(units, m);
    if at < 32 * m {
        early_name_bytes(units, m, at);
    }
    if at >= 32 * m {
        assert(names_bytes(units, n)[at] == name_entry(units, from, to)[at - 32 * m]);
        assert(at / 32 == m && at % 32 == at - 32 * m);
    } else {
        assert(names_bytes(units, n)[at] == names_bytes(units, m)[at]);
    }
}

proof fn names_len(units: Seq<u16>, n: int)
    requires
        0 <= n,
    ensures
        names_bytes(units, n).len() == 32 * n,
    decreases n,
{
    if n > 0 {
        names_len(units, n - 1);
    }
}

proof fn early_name_bytes(units: Seq<u16>, n: int, at: int)
    requires
        0 <= at < 32 * n,
        15 * n < units.len(),
    ensures
        ({
            let b = names_bytes(units, n)[at];
            let (j, k) = (at / 32, at % 32);
            let u = 15 * j + (k - 2) / 2;
            &&& k == 0 ==> b == 0xC1
            &&& k == 1 ==> b == 0
            &&& k >= 2 && k % 2 == 0 ==> b == units[u] % 256
            &&& k >= 2 && k % 2 == 1 ==> b == units[u] / 256
        }),
    decreases n,
{
    let m = n - 1;
    names_len(units, m);
    if at < 32 * m {
        early_name_bytes(units, m, at);
        assert(names_bytes(units, n)[at] == names_bytes(units, m)[at]);
    } else {
        assert(names_bytes(units, n)[at] == name_entry(units, 15 * m, 15 * m + 15)[at - 32 * m]);
        assert(at / 32 == m && at % 32 == at - 32 * m);
    }
}

/// The set of entries of a file or directory, byte by byte: its file entry, its stream extension
/// and the entries with its name, fifteen code units in each; what is not used is zero.
#[verifier::spinoff_prover]
#[verifier::rlimit(50)]
pub proof fn built_sets_have_their_places(b: EntrySetBuilder, hash: u16, i: int)
    requires
        b.wf(),
        0 <= i < utf16(b.name@).len(),
    ensures
        ({
            let s = built_set(b, hash);
            let units = utf16(b.name@);
            let count = (units.len() + 14) / 15;
            let at = 66 + 32 * (i / 15) + 2 * (i % 15);
            &&& s.len() == 64 + 32 * count
            &&& s[0] == 0x85
            &&& s[1] == 1 + count
            &&& s[2] + 0x100 * s[3] == set_checksum(s)
            &&& s[4] + 0x100 * s[5] == b.attributes.bits
            &&& s[6] == 0 && s[7] == 0
            &&& number32(s, 8) == b.created.packed()
            &&& number32(s, 12) == b.modified.packed()
            &&& number32(s, 16) == b.accessed.packed()
            &&& s[20] == b.created.increment()
            &&& s[21] == b.modified.increment()
            &&& s[22] == b.created.utc_offset
            &&& s[23] == b.modified.utc_offset
            &&& s[24] == b.accessed.utc_offset
            &&& forall|k: int| 25 <= k < 32 ==> #[trigger] s[k] == 0
            &&& s[32] == 0xC0
            &&& s[33] == (if b.is_contiguous || (b.first_cluster == 0 && b.data_length == 0) {
                3
            } else {
                1int
            })
            &&& s[34] == 0
            &&& s[35] == units.len()
            &&& s[36] + 0x100 * s[37] == hash
            &&& s[38] == 0 && s[39] == 0
            &&& number64(s, 40) == b.valid_data_length
            &&& forall|k: int| 48 <= k < 52 ==> #[trigger] s[k] == 0
            &&& number32(s, 52) == b.first_cluster
            &&& number64(s, 56) == b.data_length
            &&& s[64 + 32 * (i / 15)] == 0xC1
            &&& s[65 + 32 * (i / 15)] == 0
            &&& s[at] + 0x100 * s[at + 1] == units[i]
        }),
        forall|k: int|
            66 + 32 * ((utf16(b.name@).len() - 1) / 15) + 2 * ((utf16(b.name@).len() - 1) % 15) + 2
                <= k < built_set(b, hash).len() ==> #[trigger] built_set(b, hash)[k] == 0,
{
    let units = utf16(b.name@);
    let n = name_entry_count(units.len() as int);
    let f = b.file_entry();
    let e = b.stream_entry(hash);
    let names = names_bytes(units, n);
    let raw = f + e + names;
    let s = built_set(b, hash);
    file_entry_places(b);
    stream_entry_places(b, hash);
    names_len(units, n);
    let at = 2 + 32 * (i / 15) + 2 * (i % 15);
    assert(at / 32 == i / 15 && at % 32 == 2 + 2 * (i % 15));
    assert((at + 1) / 32 == i / 15 && (at + 1) % 32 == 3 + 2 * (i % 15));
    name_bytes_places(units, n, at);
    name_bytes_places(units, n, at + 1);
    assert((32 * (i / 15)) / 32 == i / 15 && (32 * (i / 15)) % 32 == 0);
    name_bytes_places(units, n, 32 * (i / 15));
    assert((32 * (i / 15) + 1) / 32 == i / 15 && (32 * (i / 15) + 1) % 32 == 1);
    name_bytes_places(units, n, 32 * (i / 15) + 1);
    let sum = set_checksum(raw);
    numbers_are_written_low_byte_first(sum, 0, 0);
    assert(raw.len() == 64 + 32 * n);
    assert(s.len() == raw.len());
    assert forall|k: int| 4 <= k < raw.len() implies #[trigger] s[k] == raw[k] by {}
    assert(s[0] == raw[0] && s[1] == raw[1]);
    assert(s.take(2) =~= raw.take(2));
    assert(s.skip(4) =~= raw.skip(4));
    assert(set_checksum(s) == sum);
    assert forall|k: int| 4 <= k < 32 implies #[trigger] s[k] == f[k] by {
        assert(raw[k] == f[k]);
    }
    assert forall|k: int| 32 <= k < 64 implies #[trigger] s[k] == e[k - 32] by {
        assert(raw[k] == e[k - 32]);
    }
    assert forall|k: int| 64 <= k < raw.len() implies #[trigger] s[k] == names[k - 64] by {
        assert(raw[k] == names[k - 64]);
    }
    let last = units.len() - 1;
    assert forall|k: int|
        66 + 32 * (last / 15) + 2 * (last % 15) + 2 <= k < s.len() implies #[trigger] s[k] == 0 by {
        let p = k - 64;
        name_bytes_places(units, n, p);
        assert(n == last / 15 + 1);
        assert(p / 32 == last / 15);
        assert(p % 32 == p - 32 * (last / 15));
    }
    assert(number32(s, 8) == number32(f, 8));
    assert(number32(s, 12) == number32(f, 12));
    assert(number32(s, 16) == number32(f, 16));
    assert(number64(s, 40) == number64(e, 8));
    assert(number32(s, 52) == number32(e, 20));
    assert(number64(s, 56) == number64(e, 24));
    assert(s[64 + at] == names[at] && s[64 + at + 1] == names[at + 1]);
}

/// Changing the sizes of a set changes the bytes that tell of them, and the checksum; every other
/// byte stays.
#[verifier::spinoff_prover]
#[verifier::rlimit(50)]
pub proof fn resized_sets_change_the_sizes_only(
    set: Seq<u8>,
    valid: u64,
    len: u64,
    first: u32,
    no_fat_chain: bool,
    i: int,
)
    requires
        set.len() >= 64,
        0 <= i < set.len(),
    ensures
        ({
            let s = resized_set(set, valid, len, first, no_fat_chain);
            &&& s.len() == set.len()
            &&& i < 2 || 4 <= i < 33 || 34 <= i < 40 || 48 <= i < 52 || 64 <= i ==> s[i] == set[i]
            &&& s[2] + 0x100 * s[3] == set_checksum(s)
            &&& s[33] == (if no_fat_chain || (first == 0 && len == 0) {
                3
            } else {
                1int
            })
            &&& number64(s, 40) == valid
            &&& number32(s, 52) == first
            &&& number64(s, 56) == len
        }),
{
    let a0 = set.take(33) + seq![stream_flags_of(first, len, no_fat_chain)];
    let a1 = a0 + set.subrange(34, 40);
    let a2 = a1 + le64(valid);
    let a3 = a2 + set.subrange(48, 52);
    let a4 = a3 + le32(first);
    let a5 = a4 + le64(len);
    let raw = a5 + set.skip(64);
    numbers_are_written_low_byte_first(0, first, valid);
    numbers_are_written_low_byte_first(0, 0, len);
    assert(a0.len() == 34 && a1.len() == 40 && a2.len() == 48 && a3.len() == 52 && a4.len() == 56
        && a5.len() == 64);
    assert(forall|k: int| 0 <= k < 64 ==> raw[k] == #[trigger] a5[k]);
    assert(forall|k: int| 0 <= k < 56 ==> a5[k] == #[trigger] a4[k]);
    assert(forall|k: int| 0 <= k < 52 ==> a4[k] == #[trigger] a3[k]);
    assert(forall|k: int| 0 <= k < 48 ==> a3[k] == #[trigger] a2[k]);
    assert(forall|k: int| 0 <= k < 40 ==> a2[k] == #[trigger] a1[k]);
    let (v, w, d) = (le64(valid), le32(first), le64(len));
    assert(a2[40] == v[0] && a2[41] == v[1] && a2[42] == v[2] && a2[43] == v[3] && a2[44] == v[4]
        && a2[45] == v[5] && a2[46] == v[6] && a2[47] == v[7]);
    assert(a4[52] == w[0] && a4[53] == w[1] && a4[54] == w[2] && a4[55] == w[3]);
    assert(a5[56] == d[0] && a5[57] == d[1] && a5[58] == d[2] && a5[59] == d[3] && a5[60] == d[4]
        && a5[61] == d[5] && a5[62] == d[6] && a5[63] == d[7]);
    let s = resized_set(set, valid, len, first, no_fat_chain);
    assert(s == with_checksum(raw));
    let sum = set_checksum(raw);
    numbers_are_written_low_byte_first(sum, 0, 0);
    assert forall|k: int| 4 <= k < raw.len() implies #[trigger] s[k] == raw[k] by {}
    assert(s.take(2) =~= raw.take(2));
    assert(s.skip(4) =~= raw.skip(4));
    assert(set_checksum(s) == sum);
    if 64 <= i {
        assert(raw[i] == set.skip(64)[i - 64]);
    }
}

/// A place for an entry is free where its first byte is 0 or 5, and the room that is taken is the
/// first run of free places that lies within one cluster of the directory, in the order of its
/// clusters.
pub proof fn room_is_free_places_in_a_row(
    content: Seq<u8>,
    info: ExFatInfo,
    clusters: Seq<u32>,
    n: int,
    j: int,
    offset: int,
    k: int,
)
    requires
        found_slots(content, info, clusters, n, j, offset),
        info.wf(),
        0 <= k < n,
    ensures
        0 <= offset,
        offset % 32 == 0,
        offset + 32 * n <= info.bytes_per_cluster,
        ({
            let first = content[info.offset(clusters[j]) + offset + 32 * k];
            first == 0 || first == 5
        }),
        forall|at: int|
            #![trigger content[at]]
            slot_free(content, at) <==> content[at] == 0 || content[at] == 5,
{
    let base = info.offset(clusters[j]);
    let i = offset / 32;
    assert(slot_free(content, slot_at(base, i + k)));
    assert(offset == 32 * (offset / 32));
}

/// A name of so many code units takes a place for the file entry, one for the stream extension and
/// one for every fifteen code units that it begins.
pub proof fn names_take_places(name: Seq<char>)
    requires
        utf16(name).len() > 0,
    ensures
        15 * (set_len(name) - 3) < utf16(name).len() <= 15 * (set_len(name) - 2),
{
}

/// The cluster that is allocated is the first free one, it counts as taken from there on, and its
/// entry in the FAT ends a chain. No other cluster, and no other byte, changes.
pub proof fn allocation_takes_one_cluster(info: ExFatInfo, s: VolState, hint: u32, i: int, k: int)
    requires
        s.bits.len() <= 0xFFFFFFF5,
        0 <= i < s.content.len(),
        0 <= k < s.bits.len(),
        info.fat_offset + 4 * (s.bits.len() + 2) <= s.content.len(),
    ensures
        ({
            let (r, t) = allocated_one(info, s, hint);
            match r {
                Ok(c) => {
                    &&& free_cluster(s.bits, hint) == Some(c)
                    &&& !s.bits[c - 2]
                    &&& t.bits.len() == s.bits.len()
                    &&& t.bits[k] == (s.bits[k] || k == c - 2)
                    &&& t.content.len() == s.content.len()
                    &&& t.content[i] == (if info.fat_offset + 4 * c <= i < info.fat_offset + 4 * c
                        + 4 {
                        0xFFu8
                    } else {
                        s.content[i]
                    })
                },
                Err(e) => {
                    &&& e == ExFatError::NoFreeSpace
                    &&& t == s
                    &&& s.bits[k]
                },
            }
        }),
{
    free_cluster_found(s.bits, hint);
    assert(le32(0xFFFFFFFF) =~= seq![0xFFu8, 0xFF, 0xFF, 0xFF]);
}

/// Marking clusters changes their bits and no others.
pub proof fn marking_changes_the_clusters_bits(
    bits: Seq<bool>,
    clusters: Seq<u32>,
    value: bool,
    from: int,
    n: int,
    k: int,
)
    requires
        0 <= k < bits.len(),
        forall|i: int| 0 <= i < clusters.len() ==> 2 <= #[trigger] clusters[i] < bits.len() + 2,
    ensures
        marked(bits, clusters, value).len() == bits.len(),
        marked(bits, clusters, value)[k] == (if clusters.contains((k + 2) as u32) {
            value
        } else {
            bits[k]
        }) || k + 2 > u32::MAX,
        marked_run(bits, from, n, value).len() == bits.len(),
        from <= k < from + n ==> marked_run(bits, from, n, value)[k] == value,
        k < from || from + n <= k ==> marked_run(bits, from, n, value)[k] == bits[k],
    decreases clusters.len(),
{
    if clusters.len() > 0 && k + 2 <= u32::MAX {
        let init = clusters.drop_last();
        assert forall|i: int| 0 <= i < init.len() implies 2 <= #[trigger] init[i] < bits.len()
            + 2 by {
            assert(init[i] == clusters[i]);
        }
        marking_changes_the_clusters_bits(bits, init, value, from, n, k);
        let c = (k + 2) as u32;
        if init.contains(c) {
            let i = choose|i: int| 0 <= i < init.len() && init[i] == c;
            assert(clusters[i] == c);
        }
        if clusters.contains(c) && clusters.last() != c {
            let i = choose|i: int| 0 <= i < clusters.len() && clusters[i] == c;
            assert(init[i] == c);
        }
        if clusters.last() == c {
            assert(clusters[clusters.len() - 1] == c);
        }
    } else if clusters.len() > 0 {
        let init = clusters.drop_last();
        assert forall|i: int| 0 <= i < init.len() implies 2 <= #[trigger] init[i] < bits.len()
            + 2 by {
            assert(init[i] == clusters[i]);
        }
        marking_changes_the_clusters_bits(bits, init, value, from, n, k);
    }
}

/// Clusters that are picked one by one: the first is the first free one, the others are picked
/// from what is then free, from the cluster behind it on.
pub proof fn clusters_are_picked_one_by_one(bits: Seq<bool>, hint: u32, n: int)
    requires
        n > 0,
        bits.len() <= 0xFFFFFFF5,
    ensures
        picked(bits, hint, 0) == Some(Seq::<u32>::empty()),
        match free_cluster(bits, hint) {
            None => picked(bits, hint, n) is None,
            Some(c) => match picked(bits.update(c - 2, true), (c + 1) as u32, n - 1) {
                None => picked(bits, hint, n) is None,
                Some(rest) => picked(bits, hint, n) == Some(seq![c] + rest),
            },
        },
{
    free_cluster_found(bits, hint);
}

/// A chain is written entry by entry: each cluster's entry holds the next cluster's number, the
/// last one's 0xFFFFFFFF.
pub proof fn chains_are_linked(
    info: ExFatInfo,
    content: Seq<u8>,
    clusters: Seq<u32>,
    k: int,
)
    requires
        0 < k <= clusters.len(),
    ensures
        linked(info, content, clusters, 0) == content,
        linked(info, content, clusters, k) == splice(
            linked(info, content, clusters, k - 1),
            info.fat_offset + 4 * clusters[k - 1],
            le32(
                if k < clusters.len() {
                    clusters[k]
                } else {
                    0xFFFFFFFF
                },
            ),
        ),
{
}

/// Many clusters are taken as a run where there is one, and else one by one with a chain; no
/// cluster at all needs nothing.
pub proof fn many_clusters_are_taken(info: ExFatInfo, s: VolState, count: u32, hint: u32)
    ensures
        ({
            let (r, t) = allocated_many(info, s, count, hint);
            &&& count == 0 ==> r == Ok::<(u32, bool), ExFatError>((0, true)) && t == s
            &&& count > 0 ==> match r {
                Ok((first, true)) => {
                    &&& t.content == s.content
                    &&& t.bits == marked_run(s.bits, first - 2, count as int, true)
                },
                Ok((first, false)) => {
                    &&& picked(s.bits, hint, count as int) matches Some(list) && first == list[0]
                        && t.content == linked(info, s.content, list, list.len() as int) && t.bits
                        == marked(s.bits, list, true)
                },
                Err(e) => e == ExFatError::NoFreeSpace && t == s,
            }
        }),
{
}

/// Freeing a run gives back as many clusters as the count says; no cluster at all needs nothing. A
/// run that exceeds the volume is freed as far as it reaches, and the first cluster that does not
/// exist is told.
pub proof fn runs_are_freed(info: ExFatInfo, s: VolState, first: u32, count: u32, k: int)
    requires
        0 <= k < s.bits.len(),
        s.bits.len() <= 0xFFFFFFF5,
    ensures
        ({
            let (r, t) = freed(info, s, first, count, true);
            &&& first < 2 ==> r is Ok && t == s
            &&& first >= 2 && first - 2 + count <= s.bits.len() ==> r is Ok
            &&& first >= 2 && count > 0 && first - 2 + count > s.bits.len() && first - 2
                <= s.bits.len() ==> r == Err::<(), ExFatError>(
                ExFatError::InvalidCluster((s.bits.len() + 2) as u32),
            )
            &&& first >= 2 && count > 0 && first - 2 > s.bits.len() ==> r == Err::<(), ExFatError>(
                ExFatError::InvalidCluster(first),
            )
            &&& t.content == s.content
            &&& t.bits.len() == s.bits.len()
            &&& first >= 2 ==> t.bits[k] == (s.bits[k] && !(first - 2 <= k < first - 2 + count))
        }),
{
}

/// Freeing a chain follows it: each cluster is given back and its entry in the FAT becomes 0, up to
/// the one whose entry is 0xFFFFFFF8 or more.
pub proof fn chains_are_freed(info: ExFatInfo, table: Seq<u32>, bits: Seq<bool>, c: u32)
    requires
        info.wf(),
        table.len() == info.cluster_count + 2,
    ensures
        !(2 <= c < info.cluster_count + 2) ==> freed_chain(info, table, bits, c) == (
            Err::<(), ExFatError>(ExFatError::InvalidCluster(c)),
            table,
            bits,
        ),
        2 <= c < info.cluster_count + 2 && table[c as int] >= 0xFFFFFFF8 ==> freed_chain(
            info,
            table,
            bits,
            c,
        ) == (Ok::<(), ExFatError>(()), table.update(c as int, 0), bits.update(c - 2, false)),
        2 <= c < info.cluster_count + 2 && table[c as int] < 0xFFFFFFF8 ==> freed_chain(
            info,
            table,
            bits,
            c,
        ) == freed_chain(info, table.update(c as int, 0), bits.update(c - 2, false), table[c as int]),
{
}

/// The up-case table's entry in the root directory tells its checksum from byte 4 on, its first
/// cluster from byte 20 on and its size from byte 24 on. It is loaded where it does not exceed the
/// volume or 131072 bytes and has that checksum.
pub proof fn upcase_entries_have_their_places(content: Seq<u8>, info: ExFatInfo, entry: Seq<u8>)
    requires
        entry.len() == 32,
    ensures
        ({
            let size = number64(entry, 24);
            let at = info.offset(number32(entry, 20) as u32);
            let raw = content.subrange(at, at + size);
            match upcase_from(content, info, entry) {
                Ok(table) => {
                    &&& size <= 131072
                    &&& size <= info.cluster_count * info.bytes_per_cluster
                    &&& at + size <= content.len()
                    &&& roll32(raw) == number32(entry, 4)
                },
                Err(ExFatError::UpcaseExceedsVolume) => size > info.cluster_count
                    * info.bytes_per_cluster,
                Err(ExFatError::UpcaseTooLarge) => size > 131072,
                Err(ExFatError::Io) => at + size > content.len(),
                Err(e) => {
                    &&& roll32(raw) != number32(entry, 4)
                    &&& e == (ExFatError::InvalidChecksum {
                        expected: number32(entry, 4) as u32,
                        found: roll32(raw),
                    })
                },
            }
        }),
{
    numbers_are_read_low_byte_first(entry, 4);
    numbers_are_read_low_byte_first(entry, 20);
    numbers_are_read_low_byte_first(entry, 24);
}

/// The root directory's entries are looked through from the first on, at most 100 of them, up to
/// one whose first byte is 0. One of type 0x81 tells where the bitmap begins and how long it is,
/// one of type 0x82 the up-case table; any other is passed over.
pub proof fn root_entries_are_looked_through(
    content: Seq<u8>,
    info: ExFatInfo,
    k: int,
    found: RootScan,
)
    requires
        0 <= k,
        0 <= info.offset(info.root_cluster),
    ensures
        ({
            let at = info.offset(info.root_cluster) + 32 * k;
            let r = scan_root(content, info, k, found);
            let next = RootScan {
                bitmap: (number32(content, at + 20) as u32, number64(content, at + 24) as u64),
                ..found
            };
            &&& k >= 100 ==> r == Ok::<RootScan, ExFatError>(found)
            &&& k < 100 && at + 32 > content.len() ==> r == Err::<RootScan, ExFatError>(
                ExFatError::Io,
            )
            &&& k < 100 && at + 32 <= content.len() ==> {
                &&& content[at] == 0 ==> r == Ok::<RootScan, ExFatError>(found)
                &&& content[at] == 0x81 ==> r == scan_root(content, info, k + 1, next)
                &&& content[at] == 0x82 ==> match upcase_from(
                    content,
                    info,
                    content.subrange(at, at + 32),
                ) {
                    Ok(table) => r == scan_root(
                        content,
                        info,
                        k + 1,
                        RootScan { upcase: Some(table), ..found },
                    ),
                    Err(e) => r == Err::<RootScan, ExFatError>(e),
                }
                &&& content[at] != 0 && content[at] != 0x81 && content[at] != 0x82 ==> r
                    == scan_root(content, info, k + 1, found)
            }
        }),
        nothing_found().bitmap == (0u32, 0u64) && nothing_found().upcase is None,
{
    let at = info.offset(info.root_cluster) + 32 * k;
    if at + 32 <= content.len() {
        let entry = content.subrange(at, at + 32);
        assert(entry.subrange(20, 24) =~= content.subrange(at + 20, at + 24));
        assert(entry.subrange(24, 32) =~= content.subrange(at + 24, at + 32));
        numbers_are_read_low_byte_first(content, at + 20);
        numbers_are_read_low_byte_first(content, at + 24);
    }
}

/// Without a bitmap no cluster counts as taken; else the bits are those of the bitmap's bytes, one
/// for each cluster.
pub proof fn bitmaps_are_loaded(content: Seq<u8>, info: ExFatInfo, first: u32)
    ensures
        first == 0 ==> (bits_from(content, info, first) matches Ok(bits) && bits.len()
            == info.cluster_count && forall|i: int| 0 <= i < bits.len() ==> !#[trigger] bits[i]),
        first != 0 ==> {
            let (n, at) = (info.cluster_count as int, info.offset(first));
            let len = (n + 7) / 8;
            bits_from(content, info, first) == (if at + len > content.len() {
                Err::<Seq<bool>, ExFatError>(ExFatError::Io)
            } else {
                Ok::<Seq<bool>, ExFatError>(unpacked(content.subrange(at, at + len), n))
            })
        },
{
}

/// The bytes of a file whose clusters follow each other lie in a row on the device.
pub proof fn files_without_a_chain_lie_in_a_row(
    content: Seq<u8>,
    info: ExFatInfo,
    first: u32,
    p: int,
)
    requires
        info.wf(),
        2 <= first,
        0 <= p,
        first + p / (info.bytes_per_cluster as int) <= u32::MAX,
    ensures
        file_byte(content, info, first, true, p) == content[info.heap_offset + (first - 2)
            * info.bytes_per_cluster + p],
{
    let cs = info.bytes_per_cluster as int;
    let k = p / cs;
    vstd::arithmetic::div_mod::lemma_fundamental_div_mod(p, cs);
    vstd::arithmetic::div_mod::lemma_div_pos_is_pos(p, cs);
    assert((first + k - 2) * cs + p % cs == (first - 2) * cs + p) by (nonlinear_arith)
        requires
            p == cs * k + p % cs,
    ;
}

/// The clusters of a file with a chain: the first is the file's first, and the entry of each in
/// the FAT leads to the next. A byte of the file lies in the cluster that its position falls in.
pub proof fn files_follow_their_chain(
    content: Seq<u8>,
    info: ExFatInfo,
    first: u32,
    k: int,
    i: int,
)
    requires
        info.wf(),
        0 <= k,
        0 <= i < info.bytes_per_cluster,
    ensures
        ({
            let table = fat_table(content, info);
            let cs = info.bytes_per_cluster as int;
            let here = nth_cluster(info, table, first, false, k);
            &&& nth_cluster(info, table, first, false, 0) == Some(first)
            &&& here matches Some(c) ==> (2 <= c < info.cluster_count + 2 ==> nth_cluster(
                info,
                table,
                first,
                false,
                k + 1,
            ) == (if 2 <= table[c as int] < info.cluster_count + 2 {
                Some(table[c as int])
            } else {
                None::<u32>
            }))
            &&& here matches Some(c) ==> file_byte(content, info, first, false, k * cs + i)
                == content[info.offset(c) + i]
        }),
{
    let cs = info.bytes_per_cluster as int;
    assert((k * cs + i) / cs == k && (k * cs + i) % cs == i) by {
        vstd::arithmetic::div_mod::lemma_fundamental_div_mod_converse(k * cs + i, cs, k, i);
    }
}

/// A read gives as many bytes as were asked for, but no more than are left.
pub proof fn reads_end_with_the_file<D: Device>(reader: &ExFatFileReader<D>, len: int)
    requires
        len >= 0,
    ensures
        reader.position + len <= reader.valid_length ==> read_limit(reader, len) == len,
        reader.position <= reader.valid_length < reader.position + len ==> read_limit(reader, len)
            == reader.valid_length - reader.position,
        reader.position > reader.valid_length ==> read_limit(reader, len) == 0,
{
}

/// A length takes the fewest clusters that hold it.
pub proof fn lengths_take_the_fewest_clusters(len: int, cs: int)
    requires
        0 <= len,
        0 < cs,
    ensures
        len <= clusters_for(len, cs) * cs,
        (clusters_for(len, cs) - 1) * cs < len,
{
    vstd::arithmetic::div_mod::lemma_fundamental_div_mod(len, cs);
    let (q, r) = (len / cs, len % cs);
    assert(q * cs == cs * q && (q + 1) * cs == cs * q + cs && (q - 1) * cs == cs * q - cs)
        by (nonlinear_arith);
}

/// What a directory holds is what its clusters hold, one behind the other.
pub proof fn directories_are_their_clusters(
    content: Seq<u8>,
    info: ExFatInfo,
    clusters: Seq<u32>,
    k: int,
    i: int,
)
    requires
        0 <= k < clusters.len(),
        0 <= i < info.bytes_per_cluster,
        forall|j: int|
            0 <= j < clusters.len() ==> 0 <= info.offset(#[trigger] clusters[j]) && info.offset(
                clusters[j],
            ) + info.bytes_per_cluster <= content.len(),
    ensures
        clusters_data(content, info, clusters).len() == clusters.len() * info.bytes_per_cluster,
        clusters_data(content, info, clusters)[k * info.bytes_per_cluster + i]
            == content[info.offset(clusters[k]) + i],
    decreases clusters.len(),
{
    let init = clusters.drop_last();
    let cs = info.bytes_per_cluster as int;
    let n = clusters.len() as int;
    assert forall|j: int| 0 <= j < init.len() implies 0 <= info.offset(#[trigger] init[j])
        && info.offset(init[j]) + cs <= content.len() by {
        assert(init[j] == clusters[j]);
    }
    assert(info.offset(clusters[n - 1]) + cs <= content.len());
    assert(n * cs == (n - 1) * cs + cs) by (nonlinear_arith);
    if k < n - 1 {
        directories_are_their_clusters(content, info, init, k, i);
        assert(0 <= k * cs && k * cs + i < (n - 1) * cs) by (nonlinear_arith)
            requires
                0 <= k < n - 1,
                0 <= i < cs,
        ;
    } else if n > 1 {
        directories_are_their_clusters(content, info, init, 0, i);
    } else {
        assert(clusters_data(content, info, init).len() == 0);
        assert(n * cs == cs && k * cs == 0) by (nonlinear_arith)
            requires
                n == 1,
                k == 0,
        ;
    }
}

/// The clusters of a directory: without a chain they follow the first one, as many as its size
/// takes and one where the size is not known; with a chain each cluster's entry in the FAT leads
/// to the next, and there are no more steps than clusters.
pub proof fn directories_have_their_clusters(
    info: ExFatInfo,
    table: Seq<u32>,
    dir: ExFatDir,
    fuel: int,
    c: u32,
)
    requires
        info.wf(),
    ensures
        dir.size == 0 ==> run_len(info, dir) == 1,
        dir.size > 0 ==> (run_len(info, dir) - 1) * info.bytes_per_cluster < dir.size <= run_len(
            info,
            dir,
        ) * info.bytes_per_cluster,
        dir.is_contiguous ==> match dir_clusters(info, table, dir) {
            Ok(list) => {
                &&& list.len() == run_len(info, dir)
                &&& 2 <= dir.first_cluster
                &&& dir.first_cluster + list.len() <= info.cluster_count + 2
                &&& forall|j: int|
                    0 <= j < list.len() ==> #[trigger] list[j] == dir.first_cluster + j
            },
            Err(e) => if 2 <= dir.first_cluster < info.cluster_count + 2 {
                &&& e == ExFatError::InvalidCluster((info.cluster_count + 2) as u32)
                &&& dir.first_cluster + run_len(info, dir) > info.cluster_count + 2
            } else {
                e == ExFatError::InvalidCluster(dir.first_cluster)
            },
        },
        !dir.is_contiguous ==> dir_clusters(info, table, dir) == chain_from(
            info,
            table,
            dir.first_cluster,
            info.cluster_count as int,
        ),
        !(2 <= c < info.cluster_count + 2) ==> chain_from(info, table, c, fuel) == Err::<
            Seq<u32>,
            ExFatError,
        >(ExFatError::InvalidCluster(c)),
        2 <= c < info.cluster_count + 2 ==> {
            let next = table[c as int];
            let r = chain_from(info, table, c, fuel);
            &&& next >= 0xFFFFFFF8 ==> r == Ok::<Seq<u32>, ExFatError>(seq![c])
            &&& next < 2 || info.cluster_count + 2 <= next < 0xFFFFFFF8 ==> r == Err::<
                Seq<u32>,
                ExFatError,
            >(ExFatError::InvalidCluster(next))
            &&& 2 <= next < info.cluster_count + 2 ==> {
                &&& fuel <= 0 ==> r == Err::<Seq<u32>, ExFatError>(ExFatError::ChainLoop)
                &&& fuel > 0 ==> match chain_from(info, table, next, fuel - 1) {
                    Ok(rest) => r == Ok::<Seq<u32>, ExFatError>(seq![c] + rest),
                    Err(e) => r == Err::<Seq<u32>, ExFatError>(e),
                }
            }
        },
{
    let cs = info.bytes_per_cluster as int;
    if dir.size > 0 {
        let n = run_len(info, dir);
        let x = dir.size + cs - 1;
        vstd::arithmetic::div_mod::lemma_fundamental_div_mod(x, cs);
        vstd::arithmetic::div_mod::lemma_mod_bound(x, cs);
        assert(cs * n == n * cs && (n - 1) * cs == n * cs - cs) by (nonlinear_arith);
        assert(n > 0) by (nonlinear_arith)
            requires
                n * cs > 0,
                cs > 0,
        ;
    }
}

/// A directory's bytes hold the sets of entries that begin with a file entry and are in order;
/// looking for them goes on behind each set, goes on with the next place where none begins, and
/// ends with the first place whose first byte is 0.
pub proof fn sets_are_found_in_order(bytes: Seq<u8>, i: int)
    requires
        0 <= i,
    ensures
        32 * i + 32 > bytes.len() ==> sets_from(bytes, i) == Seq::<int>::empty(),
        32 * i + 32 <= bytes.len() ==> {
            let end = i + 1 + bytes[32 * i + 1];
            let set = bytes.subrange(32 * i, 32 * end);
            &&& bytes[32 * i] == 0 ==> sets_from(bytes, i) == Seq::<int>::empty()
            &&& bytes[32 * i] == 0x85 && 32 * end <= bytes.len() && is_entry_set(set)
                ==> sets_from(bytes, i) == seq![i] + sets_from(bytes, end)
            &&& bytes[32 * i] != 0 && !(bytes[32 * i] == 0x85 && 32 * end <= bytes.len()
                && is_entry_set(set)) ==> sets_from(bytes, i) == sets_from(bytes, i + 1)
        },
{
}

/// The set that is found by a name is the first of those that have it.
pub proof fn the_first_of_a_name_is_found(
    bytes: Seq<u8>,
    sets: Seq<int>,
    upcase: UpcaseTable,
    name: Seq<char>,
)
    ensures
        match first_named(bytes, sets, upcase, name) {
            Some(i) => exists|k: int|
                0 <= k < sets.len() && #[trigger] sets[k] == i && named(bytes, i, upcase, name)
                    && forall|j: int|
                    0 <= j < k ==> !named(bytes, #[trigger] sets[j], upcase, name),
            None => forall|j: int|
                0 <= j < sets.len() ==> !named(bytes, #[trigger] sets[j], upcase, name),
        },
    decreases sets.len(),
{
    if sets.len() > 0 && !named(bytes, sets[0], upcase, name) {
        let rest = sets.drop_first();
        the_first_of_a_name_is_found(bytes, rest, upcase, name);
        match first_named(bytes, rest, upcase, name) {
            Some(i) => {
                let k = choose|k: int|
                    0 <= k < rest.len() && #[trigger] rest[k] == i && named(bytes, i, upcase, name)
                        && forall|j: int|
                        0 <= j < k ==> !named(bytes, #[trigger] rest[j], upcase, name);
                assert(sets[k + 1] == i);
                assert forall|j: int| 0 <= j < k + 1 implies !named(
                    bytes,
                    #[trigger] sets[j],
                    upcase,
                    name,
                ) by {
                    if j > 0 {
                        assert(rest[j - 1] == sets[j]);
                    }
                }
            },
            None => {
                assert forall|j: int| 0 <= j < sets.len() implies !named(
                    bytes,
                    #[trigger] sets[j],
                    upcase,
                    name,
                ) by {
                    if j > 0 {
                        assert(rest[j - 1] == sets[j]);
                    }
                }
            },
        }
    } else if sets.len() > 0 {
        assert(sets[0] == sets[0]);
    }
}

/// A name fits a set where each code unit of the one has the same upper-case form as the code unit
/// of the other at its place.
pub proof fn names_fit_unit_by_unit(bytes: Seq<u8>, i: int, upcase: UpcaseTable, name: Seq<char>)
    ensures
        ({
            let set = set_at(bytes, i);
            let units = utf16(name);
            named(bytes, i, upcase, name) <==> set[35] == units.len() && forall|k: int|
                0 <= k < units.len() ==> upcase.upper(
                    ((set[66 + 32 * (k / 15) + 2 * (k % 15)]) + 0x100 * set[67 + 32 * (k / 15) + 2
                        * (k % 15)]) as u16,
                ) == upcase.upper(#[trigger] units[k])
        }),
{
    let set = set_at(bytes, i);
    let units = utf16(name);
    let a = upcase.upper_all(crate::exfat::dir::set_name(set));
    let b = upcase.upper_all(units);
    assert forall|k: int| 0 <= k < set[35] implies #[trigger] a[k] == upcase.upper(
        ((set[66 + 32 * (k / 15) + 2 * (k % 15)]) + 0x100 * set[67 + 32 * (k / 15) + 2 * (k
            % 15)]) as u16,
    ) by {
        assert(64 + 32 * (k / 15) + 2 + 2 * (k % 15) == 66 + 32 * (k / 15) + 2 * (k % 15));
    }
    assert forall|k: int| 0 <= k < units.len() implies #[trigger] b[k] == upcase.upper(
        units[k],
    ) by {}
    if named(bytes, i, upcase, name) {
        assert(a.len() == b.len());
        assert forall|k: int| 0 <= k < units.len() implies upcase.upper(
            ((set[66 + 32 * (k / 15) + 2 * (k % 15)]) + 0x100 * set[67 + 32 * (k / 15) + 2 * (k
                % 15)]) as u16,
        ) == upcase.upper(#[trigger] units[k]) by {
            assert(a[k] == b[k]);
        }
    } else if set[35] == units.len() && (forall|k: int|
        0 <= k < units.len() ==> upcase.upper(
            ((set[66 + 32 * (k / 15) + 2 * (k % 15)]) + 0x100 * set[67 + 32 * (k / 15) + 2 * (k
                % 15)]) as u16,
        ) == upcase.upper(#[trigger] units[k])) {
        assert forall|k: int| 0 <= k < units.len() implies a[k] == b[k] by {
            assert(units[k] == units[k]);
        }
        assert(a =~= b);
    }
}

/// The bitmap is written as a whole to its clusters; without one there is nothing to write.
pub proof fn the_bitmap_is_written(info: ExFatInfo, first: u32, s: VolState)
    ensures
        ({
            let (r, t) = synced(info, first, s);
            let at = info.offset(first);
            let len = (s.bits.len() + 7) / 8;
            &&& t.bits == s.bits
            &&& first < 2 ==> r is Ok && t.content == s.content
            &&& first >= 2 && at + len > s.content.len() ==> r == Err::<(), ExFatError>(
                ExFatError::Io,
            ) && t.content == s.content
            &&& first >= 2 && at + len <= s.content.len() ==> r is Ok && t.content == splice(
                s.content,
                at,
                crate::exfat::bitmap::packed(s.bits),
            )
        }),
{
}

/// Deleting an entry frees its clusters, writes 5 in place of its first byte and writes the bitmap;
/// where the clusters cannot be freed no entry changes.
pub proof fn deletion_marks_the_entry(info: ExFatInfo, bitmap: u32, s: VolState, e: ExFatFileEntry)
    requires
        info.wf(),
        e.data_length <= 0xFFFFFFFF * info.bytes_per_cluster,
    ensures
        ({
            let (r, t) = deleted(info, bitmap, s, e);
            let cs = info.bytes_per_cluster as int;
            let (r1, s1) = freed(
                info,
                s,
                e.first_cluster,
                if e.no_fat_chain {
                    ((e.data_length + cs - 1) / cs) as u32
                } else {
                    0
                },
                e.no_fat_chain,
            );
            &&& r1 is Err ==> r == r1 && t == s1
            &&& r1 is Ok && e.entry_offset >= s1.content.len() ==> r == Err::<(), ExFatError>(
                ExFatError::Io,
            ) && t == s1
            &&& r1 is Ok && e.entry_offset < s1.content.len() ==> (r, t) == synced(
                info,
                bitmap,
                VolState { content: s1.content.update(e.entry_offset as int, 5), bits: s1.bits },
            )
        }),
{
    let cs = info.bytes_per_cluster as int;
    let len = e.data_length as int;
    lengths_take_the_fewest_clusters(len, cs);
    let (n, m) = (clusters_for(len, cs), (len + cs - 1) / cs);
    vstd::arithmetic::div_mod::lemma_fundamental_div_mod(len + cs - 1, cs);
    vstd::arithmetic::div_mod::lemma_mod_bound(len + cs - 1, cs);
    assert(n == m) by (nonlinear_arith)
        requires
            len <= n * cs,
            (n - 1) * cs < len,
            len + cs - 1 == cs * m + (len + cs - 1) % cs,
            0 <= (len + cs - 1) % cs < cs,
            cs > 0,
    ;
    let (r1, s1) = freed(
        info,
        s,
        e.first_cluster,
        if e.no_fat_chain {
            m as u32
        } else {
            0
        },
        e.no_fat_chain,
    );
    if r1 is Ok && e.entry_offset < s1.content.len() {
        assert(splice(s1.content, e.entry_offset as int, seq![5u8]) =~= s1.content.update(
            e.entry_offset as int,
            5,
        ));
    }
}

/// Truncating refuses directories and leaves a file alone that is no longer than asked for.
/// Otherwise the clusters that are no longer needed are freed, the sizes in the entry become the
/// new one, with no cluster where it is 0, and the bitmap is written.
pub proof fn truncation_changes_sizes(
    info: ExFatInfo,
    bitmap: u32,
    s: VolState,
    e: ExFatFileEntry,
    new_size: u64,
)
    ensures
        ({
            let (r, t) = truncated(info, bitmap, s, e, new_size);
            let (r1, s1) = shrunk(info, s, e, new_size);
            &&& e.attributes.is_dir() ==> r == Err::<(), ExFatError>(ExFatError::NotAFile) && t == s
            &&& !e.attributes.is_dir() && new_size >= e.valid_data_length ==> r is Ok && t == s
            &&& !e.attributes.is_dir() && new_size < e.valid_data_length ==> {
                &&& r1 is Err ==> r == r1 && t == s1
                &&& r1 is Ok ==> {
                    let (r2, content) = resized(
                        s1.content,
                        e.entry_offset as int,
                        new_size,
                        new_size,
                        if new_size == 0 {
                            0
                        } else {
                            e.first_cluster
                        },
                        new_size > 0 && e.no_fat_chain,
                    );
                    &&& r2 is Err ==> r == r2 && t == s1
                    &&& r2 is Ok ==> (r, t) == synced(
                        info,
                        bitmap,
                        VolState { content, bits: s1.bits },
                    )
                }
            }
        }),
{
}

/// Shrinking a file keeps the clusters that hold the new size: a run loses its end, a chain ends
/// with the last cluster that is kept, and nothing is kept where the new size is 0.
pub proof fn shrinking_keeps_what_is_needed(
    info: ExFatInfo,
    s: VolState,
    e: ExFatFileEntry,
    new_size: u64,
)
    requires
        info.wf(),
    ensures
        ({
            let (r, t) = shrunk(info, s, e, new_size);
            let cs = info.bytes_per_cluster as int;
            let (total, keep) = (
                clusters_for(e.data_length as int, cs),
                clusters_for(new_size as int, cs),
            );
            let table = fat_table(s.content, info);
            &&& new_size == 0 && !e.no_fat_chain ==> (r, t) == freed(
                info,
                s,
                e.first_cluster,
                0,
                false,
            )
            &&& new_size == 0 && e.no_fat_chain ==> (r, t) == freed(
                info,
                s,
                e.first_cluster,
                total as u32,
                true,
            )
            &&& new_size > 0 && e.no_fat_chain && total <= keep ==> r is Ok && t == s
            &&& new_size > 0 && e.no_fat_chain && total > keep ==> (r, t) == freed(
                info,
                s,
                (e.first_cluster + keep) as u32,
                (total - keep) as u32,
                true,
            )
            &&& new_size > 0 && !e.no_fat_chain ==> match walked(
                info,
                table,
                e.first_cluster,
                keep - 1,
            ) {
                Err(err) => r == Err::<(), ExFatError>(err) && t == s,
                Ok(last) => if 2 <= last < info.cluster_count + 2 {
                    let ended = VolState {
                        content: splice(
                            s.content,
                            info.fat_offset + 4 * last,
                            le32(0xFFFFFFFF),
                        ),
                        bits: s.bits,
                    };
                    if 2 <= table[last as int] < info.cluster_count + 2 {
                        (r, t) == freed(info, ended, table[last as int], 0, false)
                    } else {
                        r is Ok && t == ended
                    }
                } else {
                    r == Err::<(), ExFatError>(ExFatError::InvalidCluster(last)) && t == s
                },
            }
        }),
{
}

/// Walking along a chain goes as many steps as asked for, and stops where the chain ends.
pub proof fn walks_follow_the_chain(info: ExFatInfo, table: Seq<u32>, c: u32, n: int)
    requires
        info.wf(),
    ensures
        n <= 0 ==> walked(info, table, c, n) == Ok::<u32, ExFatError>(c),
        n > 0 && !(2 <= c < info.cluster_count + 2) ==> walked(info, table, c, n) == Err::<
            u32,
            ExFatError,
        >(ExFatError::InvalidCluster(c)),
        n > 0 && 2 <= c < info.cluster_count + 2 ==> {
            let next = table[c as int];
            let r = walked(info, table, c, n);
            &&& next >= 0xFFFFFFF8 ==> r == Ok::<u32, ExFatError>(c)
            &&& 2 <= next < info.cluster_count + 2 ==> r == walked(info, table, next, n - 1)
            &&& next < 2 || info.cluster_count + 2 <= next < 0xFFFFFFF8 ==> r == Err::<
                u32,
                ExFatError,
            >(ExFatError::InvalidCluster(next))
        },
{
}

/// The directory that an entry names has the entry's first cluster, chain and size.
pub proof fn entries_name_directories(e: ExFatFileEntry)
    ensures
        dir_of_entry(e).first_cluster == e.first_cluster,
        dir_of_entry(e).is_contiguous == e.no_fat_chain,
        dir_of_entry(e).size == e.data_length,
{
}

/// An entry lies in the directory's cluster that its place falls in, 32 bytes for each place before
/// it in that cluster.
pub proof fn entries_know_their_place(
    e: ExFatFileEntry,
    info: ExFatInfo,
    clusters: Seq<u32>,
    bytes: Seq<u8>,
    k: int,
    j: int,
)
    requires
        info.wf(),
        0 <= j,
        32 * j < info.bytes_per_cluster,
        0 <= k,
        entry_from(e, info, clusters, bytes, k * (info.bytes_per_cluster / 32) + j),
    ensures
        e.parent_cluster == clusters[k],
        e.entry_offset == info.offset(clusters[k]) + 32 * j,
{
    let per = info.bytes_per_cluster as int / 32;
    vstd::arithmetic::div_mod::lemma_fundamental_div_mod_converse(k * per + j, per, k, j);
}

/// A byte of a file lies in the cluster that its position falls in, as far behind its start as the
/// clusters before it leave over.
pub proof fn bytes_have_their_address(info: ExFatInfo, clusters: Seq<u32>, k: int, i: int)
    requires
        0 <= k,
        0 <= i < info.bytes_per_cluster,
    ensures
        byte_address(info, clusters, k * info.bytes_per_cluster + i) == info.offset(clusters[k])
            + i,
{
    let cs = info.bytes_per_cluster as int;
    vstd::arithmetic::div_mod::lemma_fundamental_div_mod_converse(k * cs + i, cs, k, i);
}

/// A cluster that is cleared holds zeros; nothing else on the device changes.
pub proof fn clearing_writes_zeros(info: ExFatInfo, s: VolState, c: u32, i: int)
    requires
        0 <= info.offset(c),
        info.offset(c) + info.bytes_per_cluster <= s.content.len(),
        0 <= i < s.content.len(),
    ensures
        cleared_cluster(info, s, c).len() == s.content.len(),
        cleared_cluster(info, s, c)[i] == (if info.offset(c) <= i < info.offset(c)
            + info.bytes_per_cluster {
            0
        } else {
            s.content[i]
        }),
{
}

} // verus!
