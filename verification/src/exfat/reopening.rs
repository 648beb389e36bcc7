//! A volume that was written to and is opened anew.

#[allow(unused_imports)]
use crate::bytes::{from_le32, from_le64};
#[allow(unused_imports)]
use crate::exfat::bitmap::{bitmap_round_trip, bytes_for, packed};
#[allow(unused_imports)]
use crate::exfat::device::{splice, Device};
#[allow(unused_imports)]
use crate::exfat::dir::{
    clusters_data, dir_clusters, dir_of_entry, entry_from, listed_clusters_are_reached, resolves,
    same_values, set_at, sets_from, ExFatDir,
};
#[allow(unused_imports)]
use crate::exfat::dir_laws::{cluster_is_entries, no_end_before};
#[allow(unused_imports)]
use crate::exfat::edit::{first_slots, resized_set, set_len, slot_at, slot_free, slot_run};
#[allow(unused_imports)]
use crate::exfat::entry::{
    is_entry_set, parsed_from, ParsedEntrySet, ALLOCATION_BITMAP, DELETED_FILE, END_OF_DIRECTORY,
    ExFatFileEntry, FILE_DIRECTORY, FILE_NAME, STREAM_EXTENSION, UPCASE_TABLE,
};
#[allow(unused_imports)]
use crate::exfat::entry_writer::{invalid_char, valid_name};
#[allow(unused_imports)]
use crate::exfat::error::ExFatError;
#[allow(unused_imports)]
use crate::exfat::fat::{entry_at, fat_table};
#[allow(unused_imports)]
use crate::exfat::file_laws::disjoint;
#[allow(unused_imports)]
use crate::exfat::file_reader::{read_limit, ExFatFileReader};
#[allow(unused_imports)]
use crate::exfat::file_writer::lies_in;
#[allow(unused_imports)]
use crate::exfat::info::{boot_numbers, clusters_are_apart, volume_numbers, ExFatInfo};
#[allow(unused_imports)]
use crate::exfat::release_laws::apart_from;
#[allow(unused_imports)]
use crate::exfat::round_trip::{
    finished_directory, finished_file_is_found_on, finished_file_is_read, finished_set,
    free_was_free, new_file_is_placed, other_byte_stays, other_directory_stays, own_directory_stays,
    same_table, same_table_same_names, sound_for, spared, Storing,
};
#[allow(unused_imports)]
use crate::exfat::upcase::ascii_table;
#[allow(unused_imports)]
use crate::exfat::volume::{
    bits_from, nothing_found, scan_root, upcase_from, ExFatVolume, RootScan, MAX_SYSTEM_ENTRIES,
};
#[allow(unused_imports)]
use crate::text::{name_parts, name_scan};
use vstd::prelude::*;

verus! {

/// Byte where entry `k` of the root directory stands.
pub open spec fn root_slot(info: ExFatInfo, k: int) -> int {
    slot_at(info.offset(info.root_cluster), k)
}

/// How many entries a cluster has.
pub open spec fn entries_per_cluster(info: ExFatInfo) -> int {
    info.bytes_per_cluster as int / 32
}

/// Whether in the first cluster of the root directory only unused entries stand behind an
/// unused one.
pub open spec fn ends_once(content: Seq<u8>, info: ExFatInfo) -> bool {
    forall|q: int, r: int|
        #![trigger root_slot(info, q), root_slot(info, r)]
        0 <= q < r < entries_per_cluster(info) && content[root_slot(info, q)] == END_OF_DIRECTORY
            ==> content[root_slot(info, r)] == END_OF_DIRECTORY
}

/// Entry `k` of the root directory.
pub open spec fn root_entry(content: Seq<u8>, info: ExFatInfo, k: int) -> Seq<u8> {
    content.subrange(root_slot(info, k), root_slot(info, k) + 32)
}

/// Whether entry sets were written into free entries `i` to `i + n` of the root directory and
/// its first cluster is the same elsewhere.
spec fn entries_written(a: Seq<u8>, z: Seq<u8>, info: ExFatInfo, i: int, n: int) -> bool {
    let per = entries_per_cluster(info);
    &&& info.wf()
    &&& a.len() == z.len()
    &&& a.len() >= info.end()
    &&& 0 <= i
    &&& 0 <= n
    &&& i + n <= per
    &&& forall|q: int|
        #![trigger root_slot(info, q)]
        0 <= q < i ==> a[root_slot(info, q)] != END_OF_DIRECTORY
    &&& forall|q: int|
        #![trigger root_slot(info, q)]
        i <= q < i + n ==> {
            &&& a[root_slot(info, q)] == END_OF_DIRECTORY || a[root_slot(info, q)] == DELETED_FILE
            &&& z[root_slot(info, q)] != END_OF_DIRECTORY
            &&& z[root_slot(info, q)] != ALLOCATION_BITMAP
            &&& z[root_slot(info, q)] != UPCASE_TABLE
        }
    &&& forall|q: int|
        #![trigger root_entry(z, info, q)]
        0 <= q < per && !(i <= q < i + n) ==> root_entry(z, info, q) == root_entry(a, info, q)
    &&& ends_once(a, info)
    &&& per >= MAX_SYSTEM_ENTRIES || (i + n < per && a[root_slot(info, per - 1)]
        == END_OF_DIRECTORY)
}

proof fn slot_bounds(info: ExFatInfo, content: Seq<u8>, k: int)
    requires
        info.wf(),
        content.len() >= info.end(),
        0 <= k < entries_per_cluster(info),
    ensures
        0 <= root_slot(info, k),
        root_slot(info, k) + 32 <= info.offset(info.root_cluster) + info.bytes_per_cluster,
        root_slot(info, k) + 32 <= content.len(),
        root_entry(content, info, k).len() == 32,
        root_entry(content, info, k)[0] == content[root_slot(info, k)],
{
    clusters_are_apart(info, info.root_cluster, info.root_cluster);
    cluster_is_entries(info);
}

/// Behind the old end of the directory nothing is found.
proof fn new_entries_tell_nothing(
    a: Seq<u8>,
    z: Seq<u8>,
    info: ExFatInfo,
    i: int,
    n: int,
    e: int,
    k: int,
    found: RootScan,
)
    requires
        entries_written(a, z, info, i, n),
        i <= e <= k <= i + n,
        e < i + n,
        a[root_slot(info, e)] == END_OF_DIRECTORY,
        k <= MAX_SYSTEM_ENTRIES,
    ensures
        scan_root(z, info, k, found) == Ok::<RootScan, ExFatError>(found),
    decreases MAX_SYSTEM_ENTRIES - k,
{
    let per = entries_per_cluster(info);
    if k < MAX_SYSTEM_ENTRIES {
        assert(k < per);
        slot_bounds(info, z, k);
        slot_bounds(info, a, k);
        let entry = root_entry(z, info, k);
        assert(entry[0] == z[root_slot(info, k)]);
        if k < i + n {
            new_entries_tell_nothing(a, z, info, i, n, e, k + 1, found);
        } else {
            assert(a[root_slot(info, k)] == END_OF_DIRECTORY);
            assert(root_entry(a, info, k)[0] == END_OF_DIRECTORY);
            assert(root_entry(z, info, k) == root_entry(a, info, k));
        }
    }
}

/// What the root directory tells is the same.
proof fn scan_is_same(
    a: Seq<u8>,
    z: Seq<u8>,
    info: ExFatInfo,
    i: int,
    n: int,
    k: int,
    found: RootScan,
)
    requires
        entries_written(a, z, info, i, n),
        0 <= k <= MAX_SYSTEM_ENTRIES,
        k < entries_per_cluster(info) || k == MAX_SYSTEM_ENTRIES,
        forall|q: int|
            #![trigger root_entry(a, info, q)]
            0 <= q < entries_per_cluster(info) && root_entry(a, info, q)[0] == UPCASE_TABLE
                ==> upcase_from(z, info, root_entry(a, info, q)) == upcase_from(
                a,
                info,
                root_entry(a, info, q),
            ),
    ensures
        scan_root(z, info, k, found) == scan_root(a, info, k, found),
    decreases MAX_SYSTEM_ENTRIES - k,
{
    let per = entries_per_cluster(info);
    if k < MAX_SYSTEM_ENTRIES {
        slot_bounds(info, z, k);
        slot_bounds(info, a, k);
        let ea = root_entry(a, info, k);
        let ez = root_entry(z, info, k);
        assert(ea[0] == a[root_slot(info, k)]);
        assert(ez[0] == z[root_slot(info, k)]);
        if ea[0] == END_OF_DIRECTORY {
            if i <= k < i + n {
                new_entries_tell_nothing(a, z, info, i, n, k, k, found);
            } else {
                assert(ez == ea);
            }
        } else {
            if k + 1 >= per && k + 1 < MAX_SYSTEM_ENTRIES {
                assert(k == per - 1);
            }
            if i <= k < i + n {
                scan_is_same(a, z, info, i, n, k + 1, found);
            } else {
                assert(ez == ea);
                if ea[0] == ALLOCATION_BITMAP {
                    let next = RootScan {
                        bitmap: (
                            from_le32(ea.subrange(20, 24)),
                            from_le64(ea.subrange(24, 32)),
                        ),
                        ..found
                    };
                    scan_is_same(a, z, info, i, n, k + 1, next);
                } else if ea[0] == UPCASE_TABLE {
                    match upcase_from(a, info, ea) {
                        Ok(table) => {
                            let next = RootScan { upcase: Some(table), ..found };
                            scan_is_same(a, z, info, i, n, k + 1, next);
                        },
                        Err(_) => {},
                    }
                } else {
                    scan_is_same(a, z, info, i, n, k + 1, found);
                }
            }
        }
    }
}

/// Whether a volume is as it was opened, but for what was allocated since.
pub open spec fn mounted<D: Device>(v: &ExFatVolume<D>) -> bool {
    &&& v.wf()
    &&& volume_numbers(v.device@) == Ok::<ExFatInfo, ExFatError>(v.info)
    &&& v.root_contiguous
    &&& v.root_size == 0
    &&& v.upcase.valid
    &&& scan_root(v.device@, v.info, 0, nothing_found()) matches Ok(found) && {
        &&& v.bitmap.first_cluster == found.bitmap.0
        &&& v.bitmap.data_length == found.bitmap.1
        &&& v.upcase.data@ == match found.upcase {
            Some(table) => table,
            None => ascii_table(),
        }
    }
}

/// Whether bytes lie in clusters that are in use, and neither in the root directory nor in
/// the bitmap.
pub open spec fn reserved(
    info: ExFatInfo,
    bits: Seq<bool>,
    bitmap: u32,
    at: int,
    n: int,
) -> bool {
    &&& spared(info, bits, at, n)
    &&& apart_from(info, seq![info.root_cluster], at, n)
    &&& bitmap >= 2 ==> at + n <= info.offset(bitmap) || info.offset(bitmap) + bytes_for(
        info.cluster_count as int,
    ) <= at
}

/// Whether a volume is in order: the boot region lies before the FAT, the root directory ends
/// once, and the up-case table lies in clusters of its own that are in use.
pub open spec fn orderly<D: Device>(v: &ExFatVolume<D>) -> bool {
    let info = v.info;
    &&& 12 * info.bytes_per_sector <= info.fat_offset
    &&& ends_once(v.device@, info)
    &&& forall|q: int|
        #![trigger root_entry(v.device@, info, q)]
        0 <= q < entries_per_cluster(info) && root_entry(v.device@, info, q)[0] == UPCASE_TABLE
            ==> ({
            let entry = root_entry(v.device@, info, q);
            reserved(
                info,
                v.bitmap@,
                v.bitmap.first_cluster,
                info.offset(from_le32(entry.subrange(20, 24))),
                from_le64(entry.subrange(24, 32)) as int,
            )
        })
}

/// Whether the search of the root directory still ends in its first cluster.
pub open spec fn search_ends(content: Seq<u8>, info: ExFatInfo) -> bool {
    let per = entries_per_cluster(info);
    per >= MAX_SYSTEM_ENTRIES || content[root_slot(info, per - 1)] == END_OF_DIRECTORY
}

/// Numbers of the volume are read from the boot region alone.
proof fn same_boot_region(a: Seq<u8>, z: Seq<u8>, info: ExFatInfo)
    requires
        a.len() == z.len(),
        volume_numbers(a) == Ok::<ExFatInfo, ExFatError>(info),
        forall|x: int| 0 <= x < 12 * info.bytes_per_sector && x < a.len() ==> z[x] == a[x],
    ensures
        volume_numbers(z) == Ok::<ExFatInfo, ExFatError>(info),
{
    let boot = a.subrange(0, 512);
    let size = info.bytes_per_sector as int;
    assert(info == boot_numbers(boot));
    assert(info.wf());
    assert(z.subrange(0, 512) =~= boot);
    assert(z.subrange(0, 11 * size) =~= a.subrange(0, 11 * size));
    assert(z.subrange(11 * size, 11 * size + 4) =~= a.subrange(11 * size, 11 * size + 4));
}

/// A table is loaded from its bytes alone.
proof fn same_upcase_table(a: Seq<u8>, z: Seq<u8>, info: ExFatInfo, entry: Seq<u8>)
    requires
        a.len() == z.len(),
        ({
            let at = info.offset(from_le32(entry.subrange(20, 24)));
            let size = from_le64(entry.subrange(24, 32));
            forall|x: int| at <= x < at + size && x < a.len() ==> z[x] == a[x]
        }),
        info.offset(from_le32(entry.subrange(20, 24))) >= 0,
    ensures
        upcase_from(z, info, entry) == upcase_from(a, info, entry),
{
    let at = info.offset(from_le32(entry.subrange(20, 24)));
    let size = from_le64(entry.subrange(24, 32));
    if at + size <= a.len() {
        assert(z.subrange(at, at + size) =~= a.subrange(at, at + size));
    }
}

/// The root directory has one cluster.
proof fn root_is_one_cluster<D: Device>(v: ExFatVolume<D>)
    requires
        v.wf(),
        v.complete(),
        v.root_contiguous,
        v.root_size == 0,
    ensures
        v.clusters_of(v.root()) == Ok::<Seq<u32>, ExFatError>(seq![v.info.root_cluster]),
        ({
            let at = v.info.offset(v.info.root_cluster);
            v.data_of(seq![v.info.root_cluster]) == v.device@.subrange(
                at,
                at + v.info.bytes_per_cluster,
            )
        }),
{
    let one = seq![v.info.root_cluster];
    let c = dir_clusters(v.info, fat_table(v.device@, v.info), v.root());
    assert(c->Ok_0 =~= one);
    let at = v.info.offset(v.info.root_cluster);
    clusters_are_apart(v.info, v.info.root_cluster, v.info.root_cluster);
    assert(one.drop_last() =~= Seq::empty());
    assert(one.last() == v.info.root_cluster);
    assert(clusters_data(v.device@, v.info, one.drop_last()) =~= Seq::empty());
    assert(clusters_data(v.device@, v.info, one) =~= v.device@.subrange(
        at,
        at + v.info.bytes_per_cluster,
    ));
}

/// In a root directory that ends once, room is found before the end or at it.
proof fn room_is_before_the_end<D: Device>(s: Storing<D>)
    requires
        s.sound(),
        s.done(),
        mounted(&s.before),
        ends_once(s.before.device@, s.before.info),
        s.parent == s.before.root(),
    ensures
        s.clusters() == seq![s.before.info.root_cluster],
        s.j == 0,
        s.place().entry(s.before.info) == s.offset as int / 32,
        s.place().at(s.before.info) == root_slot(s.before.info, s.offset as int / 32),
        s.offset % 32 == 0,
        s.offset as int / 32 + set_len(s.name) <= entries_per_cluster(s.before.info),
        forall|q: int|
            #![trigger root_slot(s.before.info, q)]
            s.offset as int / 32 <= q < s.offset as int / 32 + set_len(s.name) ==> slot_free(
                s.before.device@,
                root_slot(s.before.info, q),
            ),
        forall|q: int|
            #![trigger root_slot(s.before.info, q)]
            0 <= q < s.offset as int / 32 ==> s.before.device@[root_slot(s.before.info, q)]
                != END_OF_DIRECTORY,
        no_end_before(s.before.data_of(s.clusters()), s.place().entry(s.before.info)),
{
    let info = s.before.info;
    root_is_one_cluster(s.before);
    assert(s.clusters()[0] == info.root_cluster);
    let i = s.offset as int / 32;
    let n = set_len(s.name);
    let base = info.offset(info.root_cluster);
    let content = s.before.device@;
    assert(0 * (info.bytes_per_cluster as int / 32) == 0);
    assert(first_slots(content, base, entries_per_cluster(info), n, i));
    assert forall|q: int| #![trigger root_slot(info, q)] i <= q < i + n implies slot_free(
        content,
        root_slot(info, q),
    ) by {
        assert(slot_free(content, slot_at(base, q)));
    }
    let bytes = s.before.data_of(s.clusters());
    assert(s.clusters() == seq![info.root_cluster]);
    assert(bytes == content.subrange(base, base + info.bytes_per_cluster));
    clusters_are_apart(info, info.root_cluster, info.root_cluster);
    assert forall|k: int| 0 <= k < i implies #[trigger] bytes[32 * k] != END_OF_DIRECTORY by {
        slot_bounds(info, content, k);
        assert(bytes[32 * k] == content[root_slot(info, k)]);
        if content[root_slot(info, k)] == END_OF_DIRECTORY {
            assert forall|q: int| k <= q < k + n implies slot_free(
                content,
                #[trigger] slot_at(base, q),
            ) by {
                assert(slot_at(base, q) == root_slot(info, q));
                if q > k {
                    assert(content[root_slot(info, q)] == END_OF_DIRECTORY);
                }
            }
            assert(slot_run(content, base, k, n));
        }
    }
    assert forall|q: int| #![trigger root_slot(info, q)] 0 <= q < i implies content[root_slot(
        info,
        q,
    )] != END_OF_DIRECTORY by {
        slot_bounds(info, content, q);
        assert(bytes[32 * q] == content[root_slot(info, q)]);
    }
}

/// A path of one valid name has this one component.
proof fn name_is_one_part(name: Seq<char>)
    requires
        forall|i: int| 0 <= i < name.len() ==> !invalid_char(#[trigger] name[i]),
    ensures
        name_scan(name) == (Seq::<Seq<char>>::empty(), name),
    decreases name.len(),
{
    if name.len() > 0 {
        let init = name.drop_last();
        assert forall|i: int| 0 <= i < init.len() implies !invalid_char(#[trigger] init[i]) by {
            assert(!invalid_char(name[i]));
        }
        name_is_one_part(init);
        assert(!invalid_char(name[name.len() - 1]));
        assert(name.last() != '/') by {
            assert('/' as u32 == 0x2F);
        }
        assert(init.push(name.last()) =~= name);
    } else {
        assert(name =~= Seq::empty());
    }
}

/// What finishing a file in the root directory leaves of the bytes outside its clusters.
proof fn kept_byte<D: Device>(s: Storing<D>, x: int)
    requires
        D::infallible(),
        s.sound(),
        s.done(),
        0 <= x < s.before.device@.len(),
        !(entry_at(s.before.info, 2) <= x < entry_at(
            s.before.info,
            s.before.info.cluster_count + 2,
        )),
        !(s.place().at(s.before.info) <= x < s.place().at(s.before.info) + s.set().len()),
        s.before.bitmap.first_cluster >= 2 ==> !(s.before.info.offset(
            s.before.bitmap.first_cluster,
        ) <= x < s.before.info.offset(s.before.bitmap.first_cluster) + bytes_for(
            s.before.info.cluster_count as int,
        )),
        forall|d: u32|
            #[trigger] s.before.info.has(d) && !s.before.bitmap@[d - 2] ==> !(
            s.before.info.offset(d) <= x < s.before.info.offset(d)
                + s.before.info.bytes_per_cluster),
    ensures
        s.finished.device@[x] == s.before.device@[x],
        s.finished.device@.len() == s.before.device@.len(),
{
    let info = s.before.info;
    let own = s.end.clusters@;
    new_file_is_placed(s);
    if lies_in(info, own, x) {
        let k = choose|k: int|
            0 <= k < own.len() && info.offset(#[trigger] own[k]) <= x < info.offset(own[k])
                + info.bytes_per_cluster;
        assert(info.has(own[k]) && !s.before.bitmap@[own[k] - 2]);
    }
    other_byte_stays(
        info,
        s.before.bitmap.first_cluster,
        s.place(),
        s.set(),
        s.before.state(),
        s.written.state(),
        own,
        s.end.new_length,
        s.end.first_cluster,
        s.end.is_contiguous,
        s.finished.state(),
        x,
    );
}

/// The boot region stays.
proof fn boot_region_stays<D: Device>(s: Storing<D>)
    requires
        D::infallible(),
        s.sound(),
        s.done(),
        mounted(&s.before),
        12 * s.before.info.bytes_per_sector <= s.before.info.fat_offset,
    ensures
        volume_numbers(s.finished.device@) == Ok::<ExFatInfo, ExFatError>(s.before.info),
{
    let info = s.before.info;
    let bitmap = s.before.bitmap.first_cluster;
    new_file_is_placed(s);
    let c = s.place().clusters[s.j];
    assert(info.has(s.place().clusters[s.j]));
    clusters_are_apart(info, c, c);
    assert(bitmap >= 2 ==> info.heap_offset <= info.offset(bitmap));
    assert forall|x: int|
        0 <= x < 12 * info.bytes_per_sector && x < s.before.device@.len() implies
        s.finished.device@[x] == s.before.device@[x] by {
        assert forall|d: u32| #[trigger] info.has(d) && !s.before.bitmap@[d - 2] implies !(
        info.offset(d) <= x < info.offset(d) + info.bytes_per_cluster) by {
            clusters_are_apart(info, d, d);
        }
        kept_byte(s, x);
    }
    same_boot_region(s.before.device@, s.finished.device@, info);
}

/// The up-case table stays.
proof fn table_stays<D: Device>(s: Storing<D>, entry: Seq<u8>)
    requires
        D::infallible(),
        s.sound(),
        s.done(),
        apart_from(
            s.before.info,
            s.clusters(),
            s.before.info.offset(from_le32(entry.subrange(20, 24))),
            from_le64(entry.subrange(24, 32)) as int,
        ),
        reserved(
            s.before.info,
            s.before.bitmap@,
            s.before.bitmap.first_cluster,
            s.before.info.offset(from_le32(entry.subrange(20, 24))),
            from_le64(entry.subrange(24, 32)) as int,
        ),
    ensures
        upcase_from(s.finished.device@, s.before.info, entry) == upcase_from(
            s.before.device@,
            s.before.info,
            entry,
        ),
{
    let info = s.before.info;
    let at = info.offset(from_le32(entry.subrange(20, 24)));
    let n = from_le64(entry.subrange(24, 32)) as int;
    new_file_is_placed(s);
    let c = s.clusters()[s.j];
    assert(at + n <= info.offset(s.clusters()[s.j]) || info.offset(c) + info.bytes_per_cluster
        <= at);
    assert forall|x: int| at <= x < at + n && x < s.before.device@.len() implies
        s.finished.device@[x] == s.before.device@[x] by {
        assert forall|d: u32| #[trigger] info.has(d) && !s.before.bitmap@[d - 2] implies !(
        info.offset(d) <= x < info.offset(d) + info.bytes_per_cluster) by {}
        kept_byte(s, x);
    }
    assert(s.finished.device@.len() == s.before.device@.len());
    same_upcase_table(s.before.device@, s.finished.device@, info, entry);
}

/// The kinds of the entries in a set.
proof fn set_kinds(set: Seq<u8>, k: int)
    requires
        is_entry_set(set),
        0 <= k < set.len() / 32,
    ensures
        set[32 * k] == FILE_DIRECTORY || set[32 * k] == STREAM_EXTENSION || set[32 * k]
            == FILE_NAME,
{
    if k >= 2 {
        assert(set[32 * k] == FILE_NAME);
    }
}

/// What finishing a file in the root directory writes there.
proof fn root_bytes_written<D: Device>(s: Storing<D>) -> (after: Seq<u8>)
    requires
        D::infallible(),
        s.sound(),
        s.done(),
        mounted(&s.before),
        ends_once(s.before.device@, s.before.info),
        s.parent == s.before.root(),
    ensures
        is_entry_set(after),
        after.len() == 32 * set_len(s.name),
        s.finished.device@.len() == s.before.device@.len(),
        root_bytes(s.finished.device@, s.before.info) == splice(
            root_bytes(s.before.device@, s.before.info),
            32 * (s.offset as int / 32),
            after,
        ),
{
    let info = s.before.info;
    new_file_is_placed(s);
    room_is_before_the_end(s);
    finished_set(
        info,
        s.before.bitmap.first_cluster,
        s.place(),
        s.set(),
        s.before.state(),
        s.written.state(),
        s.end.clusters@,
        s.end.new_length,
        s.end.first_cluster,
        s.end.is_contiguous,
        s.finished.state(),
    );
    finished_directory(
        info,
        s.before.bitmap.first_cluster,
        s.place(),
        s.set(),
        s.before.state(),
        s.written.state(),
        s.end.clusters@,
        s.end.new_length,
        s.end.first_cluster,
        s.end.is_contiguous,
        s.finished.state(),
    );
    root_is_one_cluster(s.before);
    root_is_one_cluster(s.finished);
    resized_set(
        s.set(),
        s.end.new_length,
        s.end.new_length,
        s.end.first_cluster,
        s.end.is_contiguous,
    )
}

/// The first cluster of the root directory.
pub open spec fn root_bytes(content: Seq<u8>, info: ExFatInfo) -> Seq<u8> {
    let at = info.offset(info.root_cluster);
    content.subrange(at, at + info.bytes_per_cluster)
}

/// Entries that were written into the root directory, by what it holds.
proof fn entries_by_bytes(
    a: Seq<u8>,
    z: Seq<u8>,
    info: ExFatInfo,
    i: int,
    n: int,
    set: Seq<u8>,
)
    requires
        info.wf(),
        a.len() == z.len(),
        a.len() >= info.end(),
        0 <= i,
        i + n <= entries_per_cluster(info),
        is_entry_set(set),
        set.len() == 32 * n,
        root_bytes(z, info) == splice(root_bytes(a, info), 32 * i, set),
        forall|q: int|
            #![trigger root_slot(info, q)]
            i <= q < i + n ==> slot_free(a, root_slot(info, q)),
        forall|q: int|
            #![trigger root_slot(info, q)]
            0 <= q < i ==> a[root_slot(info, q)] != END_OF_DIRECTORY,
        ends_once(a, info),
        search_ends(z, info),
    ensures
        entries_written(a, z, info, i, n),
{
    let per = entries_per_cluster(info);
    let base = info.offset(info.root_cluster);
    let (da, dz) = (root_bytes(a, info), root_bytes(z, info));
    clusters_are_apart(info, info.root_cluster, info.root_cluster);
    cluster_is_entries(info);
    assert forall|q: int| #![trigger root_slot(info, q)] i <= q < i + n implies {
        &&& a[root_slot(info, q)] == END_OF_DIRECTORY || a[root_slot(info, q)] == DELETED_FILE
        &&& z[root_slot(info, q)] != END_OF_DIRECTORY
        &&& z[root_slot(info, q)] != ALLOCATION_BITMAP
        &&& z[root_slot(info, q)] != UPCASE_TABLE
    } by {
        assert(slot_free(a, root_slot(info, q)));
        set_kinds(set, q - i);
        assert(dz[32 * q] == set[32 * (q - i)]);
        assert(dz[32 * q] == z[root_slot(info, q)]);
    }
    assert forall|q: int|
        #![trigger root_entry(z, info, q)]
        0 <= q < per && !(i <= q < i + n) implies root_entry(z, info, q) == root_entry(
        a,
        info,
        q,
    ) by {
        slot_bounds(info, z, q);
        slot_bounds(info, a, q);
        assert forall|x: int| 0 <= x < 32 implies #[trigger] root_entry(z, info, q)[x]
            == root_entry(a, info, q)[x] by {
            assert(root_entry(z, info, q)[x] == dz[32 * q + x]);
            assert(root_entry(a, info, q)[x] == da[32 * q + x]);
        }
        assert(root_entry(z, info, q) =~= root_entry(a, info, q));
    }
    if per < MAX_SYSTEM_ENTRIES {
        let last = per - 1;
        assert(z[root_slot(info, last)] == END_OF_DIRECTORY);
        assert(!(i <= last < i + n));
        slot_bounds(info, z, last);
        slot_bounds(info, a, last);
        assert(root_entry(z, info, last) == root_entry(a, info, last));
    }
}

/// What finishing a file in the root directory changes of its entries.
proof fn root_entries_written<D: Device>(s: Storing<D>)
    requires
        D::infallible(),
        s.sound(),
        s.done(),
        mounted(&s.before),
        ends_once(s.before.device@, s.before.info),
        s.parent == s.before.root(),
        search_ends(s.finished.device@, s.before.info),
    ensures
        entries_written(
            s.before.device@,
            s.finished.device@,
            s.before.info,
            s.offset as int / 32,
            set_len(s.name),
        ),
{
    let set = root_bytes_written(s);
    room_is_before_the_end(s);
    entries_by_bytes(
        s.before.device@,
        s.finished.device@,
        s.before.info,
        s.offset as int / 32,
        set_len(s.name),
        set,
    );
}

/// The bits of the bitmap are read back.
proof fn bits_are_read_back<D: Device>(s: Storing<D>)
    requires
        D::infallible(),
        s.sound(),
        s.done(),
    ensures
        bits_from(s.finished.device@, s.before.info, s.before.bitmap.first_cluster) is Ok,
        s.before.bitmap.first_cluster >= 2 ==> bits_from(
            s.finished.device@,
            s.before.info,
            s.before.bitmap.first_cluster,
        ) == Ok::<Seq<bool>, ExFatError>(s.finished.bitmap@),
{
    let info = s.before.info;
    let first = s.before.bitmap.first_cluster;
    let bits = s.finished.bitmap@;
    let n = info.cluster_count as int;
    new_file_is_placed(s);
    finished_set(
        info,
        first,
        s.place(),
        s.set(),
        s.before.state(),
        s.written.state(),
        s.end.clusters@,
        s.end.new_length,
        s.end.first_cluster,
        s.end.is_contiguous,
        s.finished.state(),
    );
    if first >= 2 {
        let at = info.offset(first);
        let c = s.place().clusters[s.j];
        assert(info.heap_offset <= at);
        assert(s.finished.device@.subrange(at, at + bytes_for(n)) =~= packed(bits));
        bitmap_round_trip(bits);
    } else {
        assert(n * info.bytes_per_cluster >= n * 512) by (nonlinear_arith)
            requires
                info.bytes_per_cluster >= 512,
                n >= 0,
        ;
    }
}

/// What storing a file in another directory changes of the root directory's entries: nothing.
proof fn root_entries_stay<D: Device>(s: Storing<D>)
    requires
        D::infallible(),
        s.sound(),
        s.done(),
        mounted(&s.before),
        ends_once(s.before.device@, s.before.info),
        sound_for(&s.before, s.before.root()),
        disjoint(s.clusters(), seq![s.before.info.root_cluster]),
        search_ends(s.finished.device@, s.before.info),
    ensures
        entries_written(s.before.device@, s.finished.device@, s.before.info, 0, 0),
{
    let info = s.before.info;
    let (a, z) = (s.before.device@, s.finished.device@);
    let per = entries_per_cluster(info);
    root_is_one_cluster(s.before);
    root_is_one_cluster(s.finished);
    other_directory_stays(s, s.before.root());
    clusters_are_apart(info, info.root_cluster, info.root_cluster);
    let (da, dz) = (root_bytes(a, info), root_bytes(z, info));
    assert(da == dz);
    assert forall|q: int|
        #![trigger root_entry(z, info, q)]
        0 <= q < per && !(0 <= q < 0) implies root_entry(z, info, q) == root_entry(a, info, q) by {
        slot_bounds(info, z, q);
        slot_bounds(info, a, q);
        assert forall|x: int| 0 <= x < 32 implies #[trigger] root_entry(z, info, q)[x]
            == root_entry(a, info, q)[x] by {
            assert(root_entry(z, info, q)[x] == dz[32 * q + x]);
            assert(root_entry(a, info, q)[x] == da[32 * q + x]);
        }
        assert(root_entry(z, info, q) =~= root_entry(a, info, q));
    }
    if per < MAX_SYSTEM_ENTRIES {
        slot_bounds(info, z, per - 1);
        slot_bounds(info, a, per - 1);
        assert(root_entry(z, info, per - 1) == root_entry(a, info, per - 1));
    }
}

/// Whether the up-case table lies in none of the given clusters.
pub open spec fn clear_of_table<D: Device>(v: &ExFatVolume<D>, clusters: Seq<u32>) -> bool {
    let info = v.info;
    forall|q: int|
        #![trigger root_entry(v.device@, info, q)]
        0 <= q < entries_per_cluster(info) && root_entry(v.device@, info, q)[0] == UPCASE_TABLE
            ==> ({
            let entry = root_entry(v.device@, info, q);
            apart_from(
                info,
                clusters,
                info.offset(from_le32(entry.subrange(20, 24))),
                from_le64(entry.subrange(24, 32)) as int,
            )
        })
}

/// Whether names lead from a directory to the one that holds the file, over directories that
/// lie in clusters of their own.
pub open spec fn leads_to<D: Device>(s: Storing<D>, dir: ExFatDir, parts: Seq<Seq<char>>) -> bool
    decreases parts.len(),
{
    if parts.len() == 0 {
        dir == s.parent
    } else {
        let clusters = s.before.clusters_of(dir)->Ok_0;
        let bytes = s.before.data_of(clusters);
        &&& parts[0] != seq!['.', '.']
        &&& sound_for(&s.before, dir)
        &&& disjoint(s.clusters(), clusters)
        &&& s.before.lookup(dir, parts[0]) matches Ok(Some(i)) && exists|f: ExFatFileEntry|
            #![trigger entry_from(f, s.before.info, clusters, bytes, i)]
            {
                &&& entry_from(f, s.before.info, clusters, bytes, i)
                &&& f.attributes.is_dir()
                &&& leads_to(s, dir_of_entry(f), parts.drop_first())
            }
    }
}

/// Entries that were read from the same set name the same directory.
proof fn same_set_same_directory(
    e: ExFatFileEntry,
    f: ExFatFileEntry,
    info: ExFatInfo,
    clusters: Seq<u32>,
    bytes: Seq<u8>,
    i: int,
)
    requires
        entry_from(e, info, clusters, bytes, i),
        entry_from(f, info, clusters, bytes, i),
    ensures
        dir_of_entry(e) == dir_of_entry(f),
        e.attributes.is_dir() == f.attributes.is_dir(),
{
    let set = set_at(bytes, i);
    let p = choose|p: ParsedEntrySet|
        #![trigger parsed_from(p, set)]
        parsed_from(p, set) && same_values(e, p);
    let q = choose|q: ParsedEntrySet|
        #![trigger parsed_from(q, set)]
        parsed_from(q, set) && same_values(f, q);
    assert(p.attributes.bits == q.attributes.bits);
}

/// The way to a stored file leads to it on a volume that holds what was finished, with the same
/// numbers and the same up-case table.
proof fn way_is_kept<D: Device>(
    s: Storing<D>,
    again: ExFatVolume<D>,
    dir: ExFatDir,
    parts: Seq<Seq<char>>,
    r: Result<ExFatFileEntry, ExFatError>,
)
    requires
        D::infallible(),
        s.sound(),
        s.done(),
        no_end_before(s.before.data_of(s.clusters()), s.place().entry(s.before.info)),
        again.device@ == s.finished.device@,
        again.info == s.before.info,
        same_table(again.upcase, s.before.upcase),
        s.name != seq!['.', '.'],
        leads_to(s, dir, parts),
        resolves(&again, dir, parts.push(s.name), r),
    ensures
        r matches Ok(f) && s.is_entry(f),
    decreases parts.len(),
{
    let info = s.before.info;
    let all = parts.push(s.name);
    listed_clusters_are_reached(info, fat_table(again.device@, info), dir);
    listed_clusters_are_reached(info, fat_table(s.before.device@, info), dir);
    if parts.len() == 0 {
        finished_file_is_found_on(s, again);
        assert(all[0] == s.name);
        assert(entry_from(
            r->Ok_0,
            again.info,
            s.clusters(),
            again.data_of(s.clusters()),
            s.place().entry(info),
        ));
    } else {
        other_directory_stays(s, dir);
        let clusters = s.before.clusters_of(dir)->Ok_0;
        let bytes = s.before.data_of(clusters);
        assert(again.clusters_of(dir) == s.finished.clusters_of(dir));
        assert(again.data_of(clusters) == bytes);
        assert(all[0] == parts[0]);
        same_table_same_names(
            bytes,
            sets_from(bytes, 0),
            again.upcase,
            s.before.upcase,
            parts[0],
        );
        let i = s.before.lookup(dir, parts[0])->Ok_0->Some_0;
        assert(again.lookup(dir, parts[0]) == Ok::<Option<int>, ExFatError>(Some(i)));
        let f = choose|f: ExFatFileEntry|
            #![trigger entry_from(f, s.before.info, clusters, bytes, i)]
            {
                &&& entry_from(f, s.before.info, clusters, bytes, i)
                &&& f.attributes.is_dir()
                &&& leads_to(s, dir_of_entry(f), parts.drop_first())
            };
        let e = choose|e: ExFatFileEntry|
            #![trigger entry_from(e, again.info, clusters, bytes, i)]
            entry_from(e, again.info, clusters, bytes, i) && if e.attributes.is_dir() {
                resolves(&again, dir_of_entry(e), all.drop_first(), r)
            } else {
                r == Err::<ExFatFileEntry, ExFatError>(ExFatError::NotADirectory)
            };
        same_set_same_directory(e, f, info, clusters, bytes, i);
        assert(all.drop_first() =~= parts.drop_first().push(s.name));
        way_is_kept(s, again, dir_of_entry(f), parts.drop_first(), r);
    }
}

/// Whether a volume is as it is opened.
pub open spec fn opened<D: Device>(v: &ExFatVolume<D>) -> bool {
    &&& mounted(v)
    &&& bits_from(v.device@, v.info, v.bitmap.first_cluster) == Ok::<Seq<bool>, ExFatError>(
        v.bitmap@,
    )
}

/// Whether a file is stored in a volume that is in order: the directory that holds it lies apart
/// from the up-case table, and the search of the root directory still ends in its first cluster.
/// Where this directory is not the root directory, the root directory lies in a cluster of its
/// own, and no unused entry before the file's ends the directory.
#[verifier::opaque]
pub open spec fn stores_orderly<D: Device>(s: Storing<D>) -> bool {
    &&& mounted(&s.before)
    &&& orderly(&s.before)
    &&& s.sound()
    &&& s.done()
    &&& search_ends(s.finished.device@, s.before.info)
    &&& s.parent != s.before.root() ==> {
        &&& sound_for(&s.before, s.before.root())
        &&& disjoint(s.clusters(), seq![s.before.info.root_cluster])
        &&& clear_of_table(&s.before, s.clusters())
        &&& no_end_before(s.before.data_of(s.clusters()), s.place().entry(s.before.info))
    }
}

/// Which entries of the root directory storing a file writes: where they start, and how many.
spec fn written_entries<D: Device>(s: Storing<D>) -> (int, int) {
    if s.parent == s.before.root() {
        (s.offset as int / 32, set_len(s.name))
    } else {
        (0, 0)
    }
}

proof fn root_entries_are_written<D: Device>(s: Storing<D>)
    requires
        D::infallible(),
        stores_orderly(s),
    ensures
        entries_written(
            s.before.device@,
            s.finished.device@,
            s.before.info,
            written_entries(s).0,
            written_entries(s).1,
        ),
        no_end_before(s.before.data_of(s.clusters()), s.place().entry(s.before.info)),
        clear_of_table(&s.before, s.clusters()),
{
    reveal(stores_orderly);
    if s.parent == s.before.root() {
        room_is_before_the_end(s);
        root_entries_written(s);
        let info = s.before.info;
        assert forall|q: int|
            #![trigger root_entry(s.before.device@, info, q)]
            0 <= q < entries_per_cluster(info) && root_entry(s.before.device@, info, q)[0]
                == UPCASE_TABLE implies ({
            let entry = root_entry(s.before.device@, info, q);
            apart_from(
                info,
                s.clusters(),
                info.offset(from_le32(entry.subrange(20, 24))),
                from_le64(entry.subrange(24, 32)) as int,
            )
        }) by {}
    } else {
        root_entries_stay(s);
    }
}

/// What is stored in a volume is not seen by the search of the root directory.
proof fn search_is_same<D: Device>(s: Storing<D>)
    requires
        D::infallible(),
        stores_orderly(s),
    ensures
        scan_root(s.finished.device@, s.before.info, 0, nothing_found()) == scan_root(
            s.before.device@,
            s.before.info,
            0,
            nothing_found(),
        ),
{
    reveal(stores_orderly);
    let info = s.before.info;
    let (a, z) = (s.before.device@, s.finished.device@);
    root_entries_are_written(s);
    assert forall|q: int|
        #![trigger root_entry(a, info, q)]
        0 <= q < entries_per_cluster(info) && root_entry(a, info, q)[0] == UPCASE_TABLE implies
        upcase_from(z, info, root_entry(a, info, q)) == upcase_from(
        a,
        info,
        root_entry(a, info, q),
    ) by {
        table_stays(s, root_entry(a, info, q));
    }
    let (i, n) = written_entries(s);
    scan_is_same(a, z, info, i, n, 0, nothing_found());
}

/// A root directory that ends once still does, and still has the same up-case table.
proof fn still_ends_once(a: Seq<u8>, z: Seq<u8>, info: ExFatInfo, i: int, n: int)
    requires
        entries_written(a, z, info, i, n),
    ensures
        ends_once(z, info),
        forall|q: int|
            #![trigger root_entry(z, info, q)]
            0 <= q < entries_per_cluster(info) && root_entry(z, info, q)[0] == UPCASE_TABLE
                ==> root_entry(z, info, q) == root_entry(a, info, q),
{
    let per = entries_per_cluster(info);
    assert forall|q: int, r: int|
        #![trigger root_slot(info, q), root_slot(info, r)]
        0 <= q < r < per && z[root_slot(info, q)] == END_OF_DIRECTORY implies z[root_slot(info, r)]
        == END_OF_DIRECTORY by {
        slot_bounds(info, z, q);
        slot_bounds(info, z, r);
        slot_bounds(info, a, q);
        slot_bounds(info, a, r);
        assert(root_entry(z, info, q) == root_entry(a, info, q));
        assert(a[root_slot(info, q)] == END_OF_DIRECTORY);
        assert(root_entry(z, info, r) == root_entry(a, info, r));
    }
    assert forall|q: int|
        #![trigger root_entry(z, info, q)]
        0 <= q < per && root_entry(z, info, q)[0] == UPCASE_TABLE implies root_entry(z, info, q)
        == root_entry(a, info, q) by {
        slot_bounds(info, z, q);
        assert(z[root_slot(info, q)] == UPCASE_TABLE);
    }
}

/// Storing a file keeps a volume in order.
proof fn order_is_kept<D: Device>(s: Storing<D>, again: ExFatVolume<D>)
    requires
        D::infallible(),
        stores_orderly(s),
        again.device@ == s.finished.device@,
        again.info == s.before.info,
        again.bitmap.first_cluster == s.before.bitmap.first_cluster,
        again.bitmap@ == s.finished.bitmap@,
    ensures
        orderly(&again),
{
    reveal(stores_orderly);
    let info = s.before.info;
    let (a, z) = (s.before.device@, s.finished.device@);
    let (i, n) = written_entries(s);
    root_entries_are_written(s);
    still_ends_once(a, z, info, i, n);
    assert forall|q: int|
        #![trigger root_entry(z, info, q)]
        0 <= q < entries_per_cluster(info) && root_entry(z, info, q)[0] == UPCASE_TABLE implies ({
        let entry = root_entry(z, info, q);
        reserved(
            info,
            again.bitmap@,
            again.bitmap.first_cluster,
            info.offset(from_le32(entry.subrange(20, 24))),
            from_le64(entry.subrange(24, 32)) as int,
        )
    }) by {
        let entry = root_entry(a, info, q);
        assert(root_entry(z, info, q) == entry);
        spared_again(
            s,
            info.offset(from_le32(entry.subrange(20, 24))),
            from_le64(entry.subrange(24, 32)) as int,
        );
    }
}

/// What lies in no free cluster still does once a file was stored.
proof fn spared_again<D: Device>(s: Storing<D>, at: int, n: int)
    requires
        D::infallible(),
        s.sound(),
        s.done(),
        spared(s.before.info, s.before.bitmap@, at, n),
    ensures
        spared(s.before.info, s.finished.bitmap@, at, n),
{
    let info = s.before.info;
    assert forall|d: u32| #[trigger] info.has(d) && !s.finished.bitmap@[d - 2] implies at + n
        <= info.offset(d) || info.offset(d) + info.bytes_per_cluster <= at by {
        free_was_free(s, d);
    }
}

/// Storing a file keeps every directory in clusters that are in use and apart from the bitmap:
/// the one that holds the file, and any that has no cluster in common with it.
pub proof fn directories_stay_sound<D: Device>(s: Storing<D>, again: ExFatVolume<D>, dir: ExFatDir)
    requires
        D::infallible(),
        s.sound(),
        s.done(),
        again.wf(),
        again.device@ == s.finished.device@,
        again.info == s.before.info,
        again.bitmap.first_cluster == s.before.bitmap.first_cluster,
        again.bitmap@ == s.finished.bitmap@,
        sound_for(&s.before, dir),
        dir == s.parent || disjoint(s.clusters(), s.before.clusters_of(dir)->Ok_0),
    ensures
        again.clusters_of(dir) == s.before.clusters_of(dir),
        sound_for(&again, dir),
{
    let info = s.before.info;
    let bitmap = s.before.bitmap.first_cluster;
    if dir == s.parent {
        own_directory_stays(s);
    } else {
        other_directory_stays(s, dir);
    }
    assert(again.clusters_of(dir) == s.finished.clusters_of(dir));
    let clusters = s.before.clusters_of(dir)->Ok_0;
    assert(again.clusters_of(dir)->Ok_0 == clusters);
    assert forall|i: int| 0 <= i < clusters.len() implies again.bitmap@[(#[trigger] clusters[i])
        - 2] by {
        if dir == s.parent {
            assert(s.finished.bitmap@[s.clusters()[i] - 2]);
        }
    }
    assert(again.complete());
    if bitmap >= 2 {
        spared_again(s, info.offset(bitmap), bytes_for(info.cluster_count as int));
    }
}

/// A path of one valid name has this one component, unless the name stands for the directory
/// itself.
pub proof fn valid_name_is_one_part(name: Seq<char>)
    requires
        valid_name(name),
        name != seq!['.'],
    ensures
        name_parts(name) == seq![name],
{
    name_is_one_part(name);
    assert(name.len() > 0);
    assert(name_parts(name) =~= seq![name]);
}

/// A volume in which a file was stored can be opened again: its boot region, its system entries
/// and its bitmap are there.
pub proof fn stored_volume_opens_again<D: Device>(s: Storing<D>)
    requires
        D::infallible(),
        stores_orderly(s),
    ensures
        volume_numbers(s.finished.device@) == Ok::<ExFatInfo, ExFatError>(s.before.info),
        scan_root(s.finished.device@, s.before.info, 0, nothing_found()) == scan_root(
            s.before.device@,
            s.before.info,
            0,
            nothing_found(),
        ),
        scan_root(s.before.device@, s.before.info, 0, nothing_found()) matches Ok(found)
            && found.bitmap.0 == s.before.bitmap.first_cluster,
        bits_from(s.finished.device@, s.before.info, s.before.bitmap.first_cluster) is Ok,
        s.before.bitmap.first_cluster >= 2 ==> bits_from(
            s.finished.device@,
            s.before.info,
            s.before.bitmap.first_cluster,
        ) == Ok::<Seq<bool>, ExFatError>(s.finished.bitmap@),
{
    search_is_same(s);
    reveal(stores_orderly);
    boot_region_stays(s);
    bits_are_read_back(s);
}

/// A volume that is opened again after a file was stored is the same volume, and again in order.
pub proof fn stored_volume_is_in_order_again<D: Device>(s: Storing<D>, again: ExFatVolume<D>)
    requires
        D::infallible(),
        stores_orderly(s),
        again.device@ == s.finished.device@,
        opened(&again),
    ensures
        again.info == s.before.info,
        again.bitmap.first_cluster == s.before.bitmap.first_cluster,
        again.root() == s.before.root(),
        again.complete(),
        same_table(again.upcase, s.before.upcase),
        s.before.bitmap.first_cluster >= 2 ==> {
            &&& again.bitmap@ == s.finished.bitmap@
            &&& orderly(&again)
            &&& sound_for(&again, s.parent)
        },
{
    stored_volume_opens_again(s);
    reveal(stores_orderly);
    if s.before.bitmap.first_cluster >= 2 {
        order_is_kept(s, again);
        directories_stay_sound(s, again, s.parent);
    }
}

/// A path over the directories that lead to a stored file gives, on the volume opened anew, an
/// entry with the name of the file and the size of what was written.
pub proof fn stored_file_is_found_after_reopening<D: Device>(
    s: Storing<D>,
    again: ExFatVolume<D>,
    parts: Seq<Seq<char>>,
    r: Result<ExFatFileEntry, ExFatError>,
)
    requires
        D::infallible(),
        stores_orderly(s),
        s.name != seq!['.', '.'],
        leads_to(s, s.before.root(), parts),
        again.device@ == s.finished.device@,
        opened(&again),
        resolves(&again, again.root(), parts.push(s.name), r),
    ensures
        r matches Ok(f) && s.is_entry(f),
{
    stored_volume_is_in_order_again(s, again);
    root_entries_are_written(s);
    reveal(stores_orderly);
    way_is_kept(s, again, s.before.root(), parts, r);
}

/// A file that was created, written and finished is there when the volume is opened anew:
/// opening succeeds and gives the same volume, again in order; a path over the directories that
/// lead to the file gives an entry with the size of what was written; and reading the file gives
/// what was written.
pub proof fn stored_file_is_read_after_reopening<'a, D: Device>(
    s: Storing<D>,
    again: ExFatVolume<D>,
    parts: Seq<Seq<char>>,
    r: Result<ExFatFileEntry, ExFatError>,
    reader: ExFatFileReader<'a, D>,
)
    requires
        D::infallible(),
        stores_orderly(s),
        s.name != seq!['.', '.'],
        leads_to(s, s.before.root(), parts),
        // The volume is opened anew,
        again.device@ == s.finished.device@,
        opened(&again),
        // the path is looked up,
        resolves(&again, again.root(), parts.push(s.name), r),
        // and the file is read from its start.
        *reader.fs == again,
        r matches Ok(f) ==> {
            &&& reader.first_cluster == f.first_cluster
            &&& reader.valid_length == f.valid_data_length
            &&& reader.is_contiguous == f.no_fat_chain
            &&& reader.position == 0
        },
    ensures
        volume_numbers(s.finished.device@) == Ok::<ExFatInfo, ExFatError>(s.before.info),
        scan_root(s.finished.device@, s.before.info, 0, nothing_found()) == scan_root(
            s.before.device@,
            s.before.info,
            0,
            nothing_found(),
        ),
        bits_from(s.finished.device@, s.before.info, s.before.bitmap.first_cluster) is Ok,
        again.info == s.before.info,
        again.bitmap.first_cluster == s.before.bitmap.first_cluster,
        again.root() == s.before.root(),
        same_table(again.upcase, s.before.upcase),
        s.before.bitmap.first_cluster >= 2 ==> {
            &&& again.bitmap@ == s.finished.bitmap@
            &&& orderly(&again)
            &&& sound_for(&again, s.parent)
        },
        r matches Ok(f) && s.is_entry(f),
        reader.readable(),
        read_limit(&reader, s.data.len() as int) == s.data.len(),
        Seq::new(s.data.len(), |i: int| reader.byte(reader.position + i)) == s.data,
        forall|lens: Seq<nat>|
            #![trigger read_on(&reader, lens)]
            ends_reading(&reader, lens) ==> read_on(&reader, lens) == s.data,
{
    stored_volume_opens_again(s);
    stored_volume_is_in_order_again(s, again);
    stored_file_is_found_after_reopening(s, again, parts, r);
    assert(s.sound() && s.done()) by {
        reveal(stores_orderly);
    }
    finished_file_is_read(s, reader);
    assert forall|lens: Seq<nat>|
        #![trigger read_on(&reader, lens)]
        ends_reading(&reader, lens) implies read_on(&reader, lens) == s.data by {
        reads_join(&reader, s.data, lens);
    }
}

/// Whether the last of the reads with buffers of the given lengths had room and gave nothing.
pub open spec fn ends_reading<D: Device>(reader: &ExFatFileReader<D>, lens: Seq<nat>) -> bool {
    &&& lens.len() > 0
    &&& lens.last() > 0
    &&& read_on(reader, lens).len() == read_on(reader, lens.drop_last()).len()
}

/// The bytes that reads with buffers of the given lengths give, one after the other.
pub open spec fn read_on<D: Device>(reader: &ExFatFileReader<D>, lens: Seq<nat>) -> Seq<u8>
    decreases lens.len(),
{
    if lens.len() == 0 {
        Seq::empty()
    } else {
        let before = read_on(reader, lens.drop_last());
        let p = reader.position + before.len();
        let left = if p < reader.valid_length {
            reader.valid_length - p
        } else {
            0
        };
        let n = if lens.last() < left {
            lens.last() as int
        } else {
            left
        };
        before + Seq::new(n as nat, |i: int| reader.byte(p + i))
    }
}

/// Reads with buffers of any lengths give a file from its start on, and all of it where the last
/// of them had room and gave nothing.
pub proof fn reads_join<D: Device>(reader: &ExFatFileReader<D>, data: Seq<u8>, lens: Seq<nat>)
    requires
        reader.position == 0,
        reader.valid_length == data.len(),
        Seq::new(data.len(), |i: int| reader.byte(reader.position + i)) == data,
    ensures
        read_on(reader, lens).len() <= data.len(),
        read_on(reader, lens) == data.take(read_on(reader, lens).len() as int),
        ends_reading(reader, lens) ==> read_on(reader, lens) == data,
    decreases lens.len(),
{
    let all = Seq::new(data.len(), |i: int| reader.byte(reader.position + i));
    if lens.len() > 0 {
        let before = read_on(reader, lens.drop_last());
        reads_join(reader, data, lens.drop_last());
        let now = read_on(reader, lens);
        assert forall|i: int| 0 <= i < now.len() implies #[trigger] now[i] == data[i] by {
            assert(all[i] == data[i]);
            if i < before.len() {
                assert(before[i] == data.take(before.len() as int)[i]);
            }
        }
        assert(now =~= data.take(now.len() as int));
        assert(data.take(data.len() as int) =~= data);
    } else {
        assert(read_on(reader, lens) =~= data.take(0));
    }
}

} // verus!
