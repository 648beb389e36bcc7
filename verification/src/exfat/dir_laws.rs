//! What is created in a directory is found there, and what a resized entry says.

#[allow(unused_imports)]
use crate::bytes::{from_le16, from_le32, from_le64, le32, le32_round_trip, le64, le64_round_trip};
#[allow(unused_imports)]
use crate::exfat::bitmap::{bytes_for, free_cluster_found};
#[allow(unused_imports)]
use crate::exfat::device::{splice, Device};
#[allow(unused_imports)]
use crate::exfat::dir::{
    chain_from, clusters_data, dir_clusters, first_named, listed_clusters_are_reached, named,
    reached_clusters_exist, run_len, set_at, set_name,
    sets_from, stands_set, ExFatDir,
};
#[allow(unused_imports)]
use crate::exfat::edit::{
    cleared_cluster, clusters_for, deleted, dir_created, file_created, first_slots, found_slots,
    resized_set, set_len, slot_at, slot_free, synced,
};
#[allow(unused_imports)]
use crate::exfat::entry::{
    is_entry_set, name_units, DELETED_FILE, END_OF_DIRECTORY, ExFatFileEntry, FILE_NAME,
    STREAM_EXTENSION,
};
#[allow(unused_imports)]
use crate::exfat::entry_writer::{
    built_set, built_set_is_an_entry_set, checksum_matches, stream_flags_of, with_checksum,
    EntrySetBuilder,
};
#[allow(unused_imports)]
use crate::exfat::error::ExFatError;
#[allow(unused_imports)]
use crate::exfat::fat::{entry_write, fat_table, next_of, table_unchanged, END_OF_CHAIN};
#[allow(unused_imports)]
use crate::exfat::file_laws::{clusters_are_few, disjoint};
#[allow(unused_imports)]
use crate::exfat::file_writer::owns;
#[allow(unused_imports)]
use crate::exfat::info::{clusters_are_apart, ExFatInfo};
#[allow(unused_imports)]
use crate::exfat::release_laws::{
    apart_from, file_is_kept, freeing_spares_others, same_file, same_file_is_kept, spared_file,
    splice_keeps_file, syncing_keeps_file,
};
#[allow(unused_imports)]
use crate::exfat::upcase::UpcaseTable;
#[allow(unused_imports)]
use crate::exfat::volume::{
    allocated_one, complete_holds_fat, freed, with_entry, ExFatVolume, VolState,
};
use vstd::prelude::*;

verus! {

proof fn chain_has(info: ExFatInfo, table: Seq<u32>, current: u32, fuel: int)
    requires
        chain_from(info, table, current, fuel) is Ok,
    ensures
        ({
            let c = chain_from(info, table, current, fuel)->Ok_0;
            &&& c.len() > 0
            &&& c[0] == current
            &&& forall|i: int| 0 <= i < c.len() ==> info.has(#[trigger] c[i])
        }),
    decreases fuel,
{
    match next_of(info, table[current as int]) {
        Ok(Some(next)) => {
            chain_has(info, table, next, fuel - 1);
        },
        _ => {},
    }
}

/// How far a chain goes depends only on where it starts.
proof fn chain_is_fixed(info: ExFatInfo, table: Seq<u32>, current: u32, a: int, b: int)
    requires
        chain_from(info, table, current, a) is Ok,
        chain_from(info, table, current, b) is Ok,
    ensures
        chain_from(info, table, current, a) == chain_from(info, table, current, b),
    decreases a,
{
    match next_of(info, table[current as int]) {
        Ok(Some(next)) => {
            chain_is_fixed(info, table, next, a - 1, b - 1);
        },
        _ => {},
    }
}

proof fn chain_rest(info: ExFatInfo, table: Seq<u32>, current: u32, fuel: int, i: int)
    requires
        chain_from(info, table, current, fuel) is Ok,
        0 <= i < chain_from(info, table, current, fuel)->Ok_0.len(),
    ensures
        ({
            let c = chain_from(info, table, current, fuel)->Ok_0;
            chain_from(info, table, c[i], fuel - i) == Ok::<Seq<u32>, ExFatError>(c.skip(i))
        }),
    decreases i,
{
    let c = chain_from(info, table, current, fuel)->Ok_0;
    chain_has(info, table, current, fuel);
    if i == 0 {
        assert(c.skip(0) =~= c);
    } else {
        match next_of(info, table[current as int]) {
            Ok(Some(next)) => {
                let rest = chain_from(info, table, next, fuel - 1)->Ok_0;
                assert(c == seq![current] + rest);
                chain_rest(info, table, next, fuel - 1, i - 1);
                assert(c[i] == rest[i - 1]);
                assert(c.skip(i) =~= rest.skip(i - 1));
            },
            _ => {},
        }
    }
}

/// The clusters of a directory are clusters of the volume, and no two are the same.
pub proof fn directory_clusters_differ(info: ExFatInfo, table: Seq<u32>, dir: ExFatDir)
    requires
        info.wf(),
        dir_clusters(info, table, dir) is Ok,
    ensures
        dir_clusters(info, table, dir)->Ok_0.no_duplicates(),
        forall|i: int|
            0 <= i < dir_clusters(info, table, dir)->Ok_0.len() ==> info.has(
                #[trigger] dir_clusters(info, table, dir)->Ok_0[i],
            ),
{
    let c = dir_clusters(info, table, dir)->Ok_0;
    if dir.is_contiguous {
        let n = run_len(info, dir);
        assert forall|i: int| 0 <= i < c.len() implies info.has(#[trigger] c[i]) by {}
    } else {
        let fuel = info.cluster_count as int;
        chain_has(info, table, dir.first_cluster, fuel);
        assert forall|i: int, j: int| 0 <= i < j < c.len() implies c[i] != c[j] by {
            if c[i] == c[j] {
                chain_rest(info, table, dir.first_cluster, fuel, i);
                chain_rest(info, table, dir.first_cluster, fuel, j);
                chain_is_fixed(info, table, c[i], fuel - i, fuel - j);
                assert(c.skip(i).len() == c.skip(j).len());
            }
        }
    }
}

pub(crate) proof fn data_len(content: Seq<u8>, info: ExFatInfo, clusters: Seq<u32>)
    requires
        info.wf(),
        content.len() >= info.end(),
        forall|i: int| 0 <= i < clusters.len() ==> info.has(#[trigger] clusters[i]),
    ensures
        clusters_data(content, info, clusters).len() == clusters.len() * info.bytes_per_cluster,
    decreases clusters.len(),
{
    let cs = info.bytes_per_cluster as int;
    if clusters.len() > 0 {
        let init = clusters.drop_last();
        assert forall|i: int| 0 <= i < init.len() implies info.has(#[trigger] init[i]) by {
            assert(info.has(clusters[i]));
        }
        data_len(content, info, init);
        let last = clusters[clusters.len() - 1];
        assert(info.has(last));
        clusters_are_apart(info, last, last);
        assert((init.len() + 1) * cs == init.len() * cs + cs) by (nonlinear_arith);
    }
}

/// Writing into a cluster of a directory writes into what the directory holds.
pub(crate) proof fn written_cluster(
    content: Seq<u8>,
    info: ExFatInfo,
    clusters: Seq<u32>,
    j: int,
    off: int,
    data: Seq<u8>,
)
    requires
        info.wf(),
        content.len() >= info.end(),
        clusters.no_duplicates(),
        forall|i: int| 0 <= i < clusters.len() ==> info.has(#[trigger] clusters[i]),
        0 <= off,
        off + data.len() <= info.bytes_per_cluster,
        0 <= j < clusters.len(),
    ensures
        ({
            let cs = info.bytes_per_cluster as int;
            let after = splice(content, info.offset(clusters[j]) + off, data);
            let bytes = clusters_data(content, info, clusters);
            &&& after.len() == content.len()
            &&& j * cs + off + data.len() <= bytes.len()
            &&& clusters_data(after, info, clusters) == splice(bytes, j * cs + off, data)
        }),
    decreases clusters.len(),
{
    let cs = info.bytes_per_cluster as int;
    let at = info.offset(clusters[j]);
    assert(info.has(clusters[j]));
    clusters_are_apart(info, clusters[j], clusters[j]);
    let after = splice(content, at + off, data);
    let init = clusters.drop_last();
    let n = init.len() as int;
    let last = clusters[n];
    assert forall|i: int| 0 <= i < init.len() implies info.has(#[trigger] init[i]) by {
        assert(info.has(clusters[i]));
    }
    assert(info.has(last));
    clusters_are_apart(info, last, last);
    let bytes = clusters_data(content, info, clusters);
    let before = clusters_data(content, info, init);
    let own = content.subrange(info.offset(last), info.offset(last) + cs);
    assert(bytes == before + own);
    data_len(content, info, init);
    data_len(content, info, clusters);
    assert(n * cs >= 0) by (nonlinear_arith)
        requires
            n >= 0,
            cs >= 0,
    ;
    if j == n {
        untouched_clusters(content, after, info, init, clusters[j], off, data);
        assert(clusters_data(after, info, init) == before);
        let new = after.subrange(at, at + cs);
        assert(clusters_data(after, info, clusters) == before + new);
        assert(before + new =~= splice(bytes, n * cs + off, data));
    } else {
        assert(init.no_duplicates()) by {
            assert forall|x: int, y: int| 0 <= x < y < init.len() implies init[x] != init[y] by {
                assert(clusters[x] != clusters[y]);
            }
        }
        written_cluster(content, info, init, j, off, data);
        assert(clusters[j] != clusters[n]);
        if clusters[j] < last {
            clusters_are_apart(info, clusters[j], last);
        } else {
            clusters_are_apart(info, last, clusters[j]);
        }
        let same = after.subrange(info.offset(last), info.offset(last) + cs);
        assert(same =~= own);
        assert(clusters_data(after, info, clusters) == clusters_data(after, info, init) + same);
        assert(j * cs + cs <= n * cs) by (nonlinear_arith)
            requires
                j + 1 <= n,
                cs >= 0,
        ;
        assert(j * cs >= 0) by (nonlinear_arith)
            requires
                j >= 0,
                cs >= 0,
        ;
        assert(splice(before, j * cs + off, data) + own =~= splice(bytes, j * cs + off, data));
    }
}

proof fn untouched_clusters(
    content: Seq<u8>,
    after: Seq<u8>,
    info: ExFatInfo,
    clusters: Seq<u32>,
    c: u32,
    off: int,
    data: Seq<u8>,
)
    requires
        info.wf(),
        info.has(c),
        content.len() >= info.end(),
        0 <= off,
        off + data.len() <= info.bytes_per_cluster,
        after == splice(content, info.offset(c) + off, data),
        forall|i: int|
            0 <= i < clusters.len() ==> info.has(#[trigger] clusters[i]) && clusters[i] != c,
    ensures
        clusters_data(after, info, clusters) == clusters_data(content, info, clusters),
    decreases clusters.len(),
{
    if clusters.len() > 0 {
        let init = clusters.drop_last();
        let cs = info.bytes_per_cluster as int;
        assert forall|i: int| 0 <= i < init.len() implies info.has(#[trigger] init[i]) && init[i]
            != c by {
            assert(info.has(clusters[i]));
        }
        untouched_clusters(content, after, info, init, c, off, data);
        let last = clusters[clusters.len() - 1];
        assert(info.has(last) && last != c);
        clusters_are_apart(info, last, last);
        clusters_are_apart(info, c, c);
        if c < last {
            clusters_are_apart(info, c, last);
        } else {
            clusters_are_apart(info, last, c);
        }
        assert(after.subrange(info.offset(last), info.offset(last) + cs) =~= content.subrange(
            info.offset(last),
            info.offset(last) + cs,
        ));
    }
}

/// Whether no entry before entry `i` ends the directory.
pub open spec fn no_end_before(bytes: Seq<u8>, i: int) -> bool {
    forall|k: int| 0 <= k < i ==> #[trigger] bytes[32 * k] != END_OF_DIRECTORY
}

/// No entry set reaches over an entry that is none of its parts.
proof fn set_stops_before(bytes: Seq<u8>, k: int, i: int)
    requires
        0 <= k < i,
        32 * i + 32 <= bytes.len(),
        stands_set(bytes, k),
        bytes[32 * i] != STREAM_EXTENSION,
        bytes[32 * i] != FILE_NAME,
    ensures
        k + 1 + bytes[32 * k + 1] <= i,
{
    let set = set_at(bytes, k);
    if k + 1 + bytes[32 * k + 1] > i {
        let m = i - k;
        assert(set[32 * m] == bytes[32 * i]);
        if m == 1 {
            assert(set[32] == STREAM_EXTENSION);
        } else {
            assert(set[32 * m] == FILE_NAME);
        }
    }
}

/// The sets before entry `i` and what stands from there on.
pub(
    crate) proof fn walk_reaches(a: Seq<u8>,
    b: Seq<u8>,
    i: int,
    k: int,
    upcase: UpcaseTable,
    name: Seq<char>,
)
    requires
        0 <= k <= i,
        a.len() == b.len(),
        32 * i + 32 <= a.len(),
        forall|x: int| 0 <= x < 32 * i ==> a[x] == b[x],
        a[32 * i] != STREAM_EXTENSION && a[32 * i] != FILE_NAME,
        b[32 * i] != STREAM_EXTENSION && b[32 * i] != FILE_NAME,
        no_end_before(a, i),
        first_named(a, sets_from(a, k), upcase, name) is None,
    ensures
        first_named(b, sets_from(b, k), upcase, name) == first_named(
            b,
            sets_from(b, i),
            upcase,
            name,
        ),
    decreases i - k,
{
    if k < i {
        assert(a[32 * k] != END_OF_DIRECTORY);
        assert(a[32 * k] == b[32 * k]);
        assert(a[32 * k + 1] == b[32 * k + 1]);
        if stands_set(a, k) {
            set_stops_before(a, k, i);
            assert(set_at(a, k) =~= set_at(b, k));
            let next = k + 1 + a[32 * k + 1];
            let sets = sets_from(a, k);
            assert(sets == seq![k] + sets_from(a, next));
            assert(sets.drop_first() =~= sets_from(a, next));
            assert(!named(a, k, upcase, name));
            let other = sets_from(b, k);
            assert(other == seq![k] + sets_from(b, next));
            assert(other.drop_first() =~= sets_from(b, next));
            walk_reaches(a, b, i, next, upcase, name);
        } else {
            if stands_set(b, k) {
                set_stops_before(b, k, i);
                assert(set_at(a, k) =~= set_at(b, k));
            }
            walk_reaches(a, b, i, k + 1, upcase, name);
        }
    }
}

/// An entry set that is written where room for it was found is found there under its name.
#[verifier::rlimit(30)]
proof fn written_set_is_found(
    content: Seq<u8>,
    info: ExFatInfo,
    clusters: Seq<u32>,
    j: int,
    offset: int,
    b: EntrySetBuilder,
    hash: u16,
    upcase: UpcaseTable,
    name: Seq<char>,
)
    requires
        info.wf(),
        content.len() >= info.end(),
        clusters.no_duplicates(),
        forall|i: int| 0 <= i < clusters.len() ==> info.has(#[trigger] clusters[i]),
        b.wf(),
        b.name@ == name,
        found_slots(content, info, clusters, set_len(name), j, offset),
        first_named(
            clusters_data(content, info, clusters),
            sets_from(clusters_data(content, info, clusters), 0),
            upcase,
            name,
        ) is None,
        no_end_before(
            clusters_data(content, info, clusters),
            j * (info.bytes_per_cluster as int / 32) + offset / 32,
        ),
    ensures
        ({
            let after = splice(content, info.offset(clusters[j]) + offset, built_set(b, hash));
            let bytes = clusters_data(after, info, clusters);
            let i = j * (info.bytes_per_cluster as int / 32) + offset / 32;
            &&& after.len() == content.len()
            &&& fat_table(after, info) == fat_table(content, info)
            &&& 0 <= offset
            &&& offset + built_set(b, hash).len() <= info.bytes_per_cluster
            &&& first_named(bytes, sets_from(bytes, 0), upcase, name) == Some(i)
            &&& set_at(bytes, i) == built_set(b, hash)
        }),
{
    let cs = info.bytes_per_cluster as int;
    let per = cs / 32;
    let set = built_set(b, hash);
    let o = offset / 32;
    let i = j * per + o;
    built_set_is_an_entry_set(b, hash);
    let n = set_len(name);
    assert(set.len() == 32 * n);
    assert(32 * o == offset);
    assert(cs == 32 * per) by {
        cluster_is_entries(info);
    }
    assert(info.has(clusters[j]));
    assert(o + n <= per);
    assert(offset + set.len() <= cs);
    written_cluster(content, info, clusters, j, offset, set);
    clusters_are_apart(info, clusters[j], clusters[j]);
    let after = splice(content, info.offset(clusters[j]) + offset, set);
    assert(fat_table(after, info) == fat_table(content, info)) by {
        table_unchanged(content, after, info);
    }
    let a = clusters_data(content, info, clusters);
    let bytes = clusters_data(after, info, clusters);
    assert(j * cs == 32 * (j * per)) by (nonlinear_arith)
        requires
            cs == 32 * per,
    ;
    assert(32 * i == j * cs + offset);
    assert(bytes == splice(a, 32 * i, set));
    slot_byte(content, info, clusters, j, o, n);
    assert(a[32 * i] == END_OF_DIRECTORY || a[32 * i] == DELETED_FILE);
    assert(j * per >= 0) by (nonlinear_arith)
        requires
            j >= 0,
            per >= 0,
    ;
    assert(set_at(bytes, i) =~= set) by {
        assert(bytes[32 * i + 1] == set[1]);
    }
    assert(bytes[32 * i] == set[0]);
    assert(stands_set(bytes, i));
    walk_reaches(a, bytes, i, 0, upcase, name);
    let sets = sets_from(bytes, i);
    assert(sets[0] == i);
    assert(named(bytes, i, upcase, name));
}

/// A file that was created is found under its name, where it was put, in the directory it
/// was put into, unless an unused entry before it ends the directory.
pub proof fn created_file_is_found<D: Device>(
    before: ExFatVolume<D>,
    after: ExFatVolume<D>,
    parent: ExFatDir,
    name: Seq<char>,
    b: EntrySetBuilder,
    j: int,
    offset: u64,
    e: ExFatFileEntry,
)
    requires
        before.wf(),
        before.complete(),
        after.same_volume(&before),
        file_created(&before, after.device@, parent, name, b, j, offset, e),
        before.clusters_of(parent) is Ok,
        !before.has_name(parent, name),
        no_end_before(
            before.data_of(before.clusters_of(parent)->Ok_0),
            j * (before.info.bytes_per_cluster as int / 32) + offset as int / 32,
        ),
    ensures
        after.clusters_of(parent) == before.clusters_of(parent),
        ({
            let clusters = before.clusters_of(parent)->Ok_0;
            let bytes = after.data_of(clusters);
            let i = j * (before.info.bytes_per_cluster as int / 32) + offset as int / 32;
            &&& first_named(bytes, sets_from(bytes, 0), after.upcase, name) == Some(i)
            &&& set_at(bytes, i) == built_set(b, before.upcase.hash_of(name))
        }),
{
    let info = before.info;
    let clusters = before.clusters_of(parent)->Ok_0;
    let hash = before.upcase.hash_of(name);
    directory_clusters_differ(info, fat_table(before.device@, info), parent);
    listed_clusters_are_reached(info, fat_table(before.device@, info), parent);
    written_set_is_found(
        before.device@,
        info,
        clusters,
        j,
        offset as int,
        b,
        hash,
        before.upcase,
        name,
    );
}

/// Creating a file leaves every file alone whose clusters are not the directory's.
pub proof fn creation_keeps_other_files<D: Device>(
    before: ExFatVolume<D>,
    after: Seq<u8>,
    parent: ExFatDir,
    name: Seq<char>,
    b: EntrySetBuilder,
    j: int,
    offset: u64,
    e: ExFatFileEntry,
    first: u32,
    contiguous: bool,
    other: Seq<u32>,
)
    requires
        before.wf(),
        before.complete(),
        file_created(&before, after, parent, name, b, j, offset, e),
        owns(
            before.info,
            fat_table(before.device@, before.info),
            before.bitmap@,
            first,
            contiguous,
            other,
        ),
        disjoint(before.reach(parent), other),
    ensures
        file_is_kept(
            before.info,
            before.state(),
            VolState { content: after, bits: before.bitmap@ },
            first,
            contiguous,
            other,
        ),
{
    let info = before.info;
    let clusters = before.reach(parent);
    let hash = before.upcase.hash_of(name);
    let set = built_set(b, hash);
    reached_clusters_exist(info, fat_table(before.device@, info), parent);
    built_set_is_an_entry_set(b, hash);
    cluster_is_entries(info);
    let c = clusters[j];
    assert(info.has(clusters[j]));
    let at = info.offset(c) + offset;
    assert(offset + set.len() <= info.bytes_per_cluster);
    within_is_apart(info, c, offset as int, set.len() as int, other, clusters, j);
    clusters_are_apart(info, c, c);
    let s = before.state();
    let t = VolState { content: after, bits: before.bitmap@ };
    splice_keeps_file(info, s, t, other, at, set);
    same_file_is_kept(info, s, t, first, contiguous, other);
}

/// Bytes in a cluster are apart from other clusters.
pub(crate) proof fn within_is_apart(
    info: ExFatInfo,
    c: u32,
    off: int,
    n: int,
    other: Seq<u32>,
    clusters: Seq<u32>,
    j: int,
)
    requires
        info.wf(),
        info.has(c),
        0 <= off,
        0 <= n,
        off + n <= info.bytes_per_cluster,
        forall|i: int| 0 <= i < other.len() ==> info.has(#[trigger] other[i]),
        0 <= j < clusters.len(),
        clusters[j] == c,
        disjoint(clusters, other),
    ensures
        apart_from(info, other, info.offset(c) + off, n),
{
    let at = info.offset(c) + off;
    clusters_are_apart(info, c, c);
    assert forall|i: int| 0 <= i < other.len() implies at + n <= info.offset(#[trigger] other[i])
        || info.offset(other[i]) + info.bytes_per_cluster <= at by {
        assert(info.has(other[i]) && !clusters.contains(other[i]));
        assert(clusters.contains(clusters[j]));
        if c < other[i] {
            clusters_are_apart(info, c, other[i]);
        } else {
            clusters_are_apart(info, other[i], c);
        }
    }
}

/// A chain does not depend on entries of other clusters.
proof fn chain_avoids(info: ExFatInfo, table: Seq<u32>, other: Seq<u32>, current: u32, fuel: int)
    requires
        chain_from(info, table, current, fuel) is Ok,
        forall|i: int|
            0 <= i < chain_from(info, table, current, fuel)->Ok_0.len() ==> other[(
            #[trigger] chain_from(info, table, current, fuel)->Ok_0[i]) as int] == table[chain_from(
                info,
                table,
                current,
                fuel,
            )->Ok_0[i] as int],
    ensures
        chain_from(info, other, current, fuel) == chain_from(info, table, current, fuel),
    decreases fuel,
{
    let all = chain_from(info, table, current, fuel)->Ok_0;
    chain_has(info, table, current, fuel);
    assert(other[all[0] as int] == table[all[0] as int]);
    match next_of(info, table[current as int]) {
        Ok(Some(next)) => {
            let rest = chain_from(info, table, next, fuel - 1)->Ok_0;
            assert(all == seq![current] + rest);
            assert forall|i: int| 0 <= i < rest.len() implies other[(#[trigger] rest[i]) as int]
                == table[rest[i] as int] by {
                assert(rest[i] == all[i + 1]);
                assert(other[all[i + 1] as int] == table[all[i + 1] as int]);
            }
            chain_avoids(info, table, other, next, fuel - 1);
        },
        _ => {},
    }
}

/// The clusters of a directory do not depend on entries of other clusters.
pub(
    crate) proof fn directory_avoids(info: ExFatInfo,
    table: Seq<u32>,
    other: Seq<u32>,
    dir: ExFatDir,
)
    requires
        dir_clusters(info, table, dir) is Ok,
        forall|i: int|
            0 <= i < dir_clusters(info, table, dir)->Ok_0.len() ==> other[(#[trigger] dir_clusters(
                info,
                table,
                dir,
            )->Ok_0[i]) as int] == table[dir_clusters(info, table, dir)->Ok_0[i] as int],
    ensures
        dir_clusters(info, other, dir) == dir_clusters(info, table, dir),
{
    if !dir.is_contiguous {
        chain_avoids(info, table, other, dir.first_cluster, info.cluster_count as int);
    }
}

/// What clusters hold does not depend on bytes elsewhere.
pub(crate) proof fn same_data(a: Seq<u8>, b: Seq<u8>, info: ExFatInfo, clusters: Seq<u32>)
    requires
        info.wf(),
        a.len() == b.len(),
        a.len() >= info.end(),
        forall|i: int| 0 <= i < clusters.len() ==> info.has(#[trigger] clusters[i]),
        forall|i: int, x: int|
            #![trigger b[info.offset(clusters[i]) + x]]
            0 <= i < clusters.len() && 0 <= x < info.bytes_per_cluster ==> b[info.offset(
                clusters[i],
            ) + x] == a[info.offset(clusters[i]) + x],
    ensures
        clusters_data(a, info, clusters) == clusters_data(b, info, clusters),
    decreases clusters.len(),
{
    if clusters.len() > 0 {
        let init = clusters.drop_last();
        let n = clusters.len() - 1;
        assert forall|i: int| 0 <= i < init.len() implies info.has(#[trigger] init[i]) by {
            assert(info.has(clusters[i]));
        }
        assert forall|i: int, x: int|
            #![trigger b[info.offset(init[i]) + x]]
            0 <= i < init.len() && 0 <= x < info.bytes_per_cluster implies b[info.offset(init[i])
            + x] == a[info.offset(init[i]) + x] by {
            assert(b[info.offset(clusters[i]) + x] == a[info.offset(clusters[i]) + x]);
        }
        same_data(a, b, info, init);
        assert(info.has(clusters[n]));
        clusters_are_apart(info, clusters[n], clusters[n]);
        let at = info.offset(clusters[n]);
        let cs = info.bytes_per_cluster as int;
        assert forall|x: int| 0 <= x < cs implies #[trigger] a.subrange(at, at + cs)[x]
            == b.subrange(at, at + cs)[x] by {
            assert(b[info.offset(clusters[n]) + x] == a[info.offset(clusters[n]) + x]);
        }
        assert(a.subrange(at, at + cs) =~= b.subrange(at, at + cs));
    }
}

/// A directory that was created is found under its name in the directory it was put into,
/// unless an unused entry before it ends that directory, and it is empty.
pub proof fn created_dir_is_found<D: Device>(
    before: ExFatVolume<D>,
    after: ExFatVolume<D>,
    parent: ExFatDir,
    name: Seq<char>,
    cluster: u32,
    b: EntrySetBuilder,
    j: int,
    offset: u64,
)
    requires
        before.wf(),
        before.complete(),
        after.same_volume(&before),
        dir_created(&before, after.state(), parent, name, cluster, b, j, offset),
        before.clusters_of(parent) is Ok,
        !before.clusters_of(parent)->Ok_0.contains(cluster),
        !before.has_name(parent, name),
        no_end_before(
            before.data_of(before.clusters_of(parent)->Ok_0),
            j * (before.info.bytes_per_cluster as int / 32) + offset as int / 32,
        ),
        before.bitmap.first_cluster >= 2 ==> apart_from(
            before.info,
            before.clusters_of(parent)->Ok_0.push(cluster),
            before.info.offset(before.bitmap.first_cluster),
            bytes_for(before.info.cluster_count as int),
        ),
    ensures
        after.clusters_of(parent) == before.clusters_of(parent),
        ({
            let clusters = before.clusters_of(parent)->Ok_0;
            let bytes = after.data_of(clusters);
            let i = j * (before.info.bytes_per_cluster as int / 32) + offset as int / 32;
            &&& first_named(bytes, sets_from(bytes, 0), after.upcase, name) == Some(i)
            &&& set_at(bytes, i) == built_set(b, before.upcase.hash_of(name))
        }),
        sets_from(after.data_of(seq![cluster]), 0).len() == 0,
{
    let info = before.info;
    let clusters = before.clusters_of(parent)->Ok_0;
    let hash = before.upcase.hash_of(name);
    let set = built_set(b, hash);
    let content = before.device@;
    let taken = allocated_one(info, before.state(), 2).1;
    let cleared = cleared_cluster(info, taken, cluster);
    free_cluster_found(before.bitmap@, 2);
    directory_clusters_differ(info, fat_table(content, info), parent);
    cleared_cluster_is_elsewhere(info, content, cluster, parent);
    assert(cleared == with_cleared(info, content, cluster));
    listed_clusters_are_reached(info, fat_table(content, info), parent);
    listed_clusters_are_reached(info, fat_table(cleared, info), parent);
    written_set_is_found(
        cleared,
        info,
        clusters,
        j,
        offset as int,
        b,
        hash,
        before.upcase,
        name,
    );
    let at = info.offset(clusters[j]) + offset;
    let s = VolState { content: splice(cleared, at, set), bits: taken.bits };
    let all = clusters.push(cluster);
    assert forall|i: int| 0 <= i < all.len() implies info.has(#[trigger] all[i]) by {
        if i < clusters.len() {
            assert(info.has(clusters[i]));
        }
    }
    let t = synced(info, before.bitmap.first_cluster, s).1;
    syncing_keeps_file(info, before.bitmap.first_cluster, s, all);
    syncing_keeps_data(info, before.bitmap.first_cluster, s, clusters, all, 0);
    syncing_keeps_data(
        info,
        before.bitmap.first_cluster,
        s,
        seq![cluster],
        all,
        clusters.len() as int,
    );
    directory_avoids_syncing(info, before.bitmap.first_cluster, s, parent, all);
    assert(after.device@ == t.content);
    new_cluster_is_empty(info, content, cluster, clusters, j, offset as int, set);
}

/// The content with a cluster taken into use and cleared.
spec fn with_cleared(info: ExFatInfo, content: Seq<u8>, cluster: u32) -> Seq<u8> {
    splice(
        with_entry(info, content, cluster, END_OF_CHAIN),
        info.offset(cluster),
        Seq::new(info.bytes_per_cluster as nat, |i: int| 0u8),
    )
}

/// Taking a cluster into use and clearing it leaves a directory alone that does not have it.
proof fn cleared_cluster_is_elsewhere(
    info: ExFatInfo,
    content: Seq<u8>,
    cluster: u32,
    dir: ExFatDir,
)
    requires
        info.wf(),
        content.len() >= info.end(),
        info.has(cluster),
        dir_clusters(info, fat_table(content, info), dir) is Ok,
        !dir_clusters(info, fat_table(content, info), dir)->Ok_0.contains(cluster),
    ensures
        ({
            let cleared = with_cleared(info, content, cluster);
            let clusters = dir_clusters(info, fat_table(content, info), dir)->Ok_0;
            &&& cleared.len() == content.len()
            &&& dir_clusters(info, fat_table(cleared, info), dir) == Ok::<Seq<u32>, ExFatError>(
                clusters,
            )
            &&& clusters_data(cleared, info, clusters) == clusters_data(content, info, clusters)
            &&& forall|x: int|
                0 <= x < info.bytes_per_cluster ==> #[trigger] cleared[info.offset(cluster) + x]
                    == 0
        }),
{
    let table = fat_table(content, info);
    let clusters = dir_clusters(info, table, dir)->Ok_0;
    let taken = with_entry(info, content, cluster, END_OF_CHAIN);
    let cleared = with_cleared(info, content, cluster);
    let zeros = Seq::new(info.bytes_per_cluster as nat, |i: int| 0u8);
    complete_holds_fat(info);
    directory_clusters_differ(info, table, dir);
    entry_write(content, info, cluster, END_OF_CHAIN);
    clusters_are_apart(info, cluster, cluster);
    assert(cleared.len() == content.len());
    table_unchanged(taken, cleared, info);
    assert forall|i: int| 0 <= i < clusters.len() implies info.has(#[trigger] clusters[i])
        && clusters[i] != cluster by {
        assert(clusters.contains(clusters[i]));
    }
    assert forall|i: int| 0 <= i < clusters.len() implies fat_table(cleared, info)[(
    #[trigger] clusters[i]) as int] == table[clusters[i] as int] by {
        assert(info.has(clusters[i]) && clusters[i] != cluster);
    }
    directory_avoids(info, table, fat_table(cleared, info), dir);
    assert forall|i: int, x: int|
        #![trigger taken[info.offset(clusters[i]) + x]]
        0 <= i < clusters.len() && 0 <= x < info.bytes_per_cluster implies taken[info.offset(
        clusters[i],
    ) + x] == content[info.offset(clusters[i]) + x] by {
        assert(info.has(clusters[i]));
        clusters_are_apart(info, clusters[i], clusters[i]);
    }
    same_data(content, taken, info, clusters);
    untouched_clusters(taken, cleared, info, clusters, cluster, 0, zeros);
    assert forall|x: int| 0 <= x < info.bytes_per_cluster implies #[trigger] cleared[info.offset(
        cluster,
    ) + x] == 0 by {
        assert(cleared[info.offset(cluster) + x] == zeros[x]);
    }
}

/// Writing the bitmap leaves what clusters hold alone that lie apart from it.
proof fn syncing_keeps_data(
    info: ExFatInfo,
    bitmap: u32,
    s: VolState,
    part: Seq<u32>,
    all: Seq<u32>,
    from: int,
)
    requires
        info.wf(),
        s.content.len() >= info.end(),
        forall|i: int| 0 <= i < all.len() ==> info.has(#[trigger] all[i]),
        0 <= from,
        from + part.len() <= all.len(),
        forall|i: int| 0 <= i < part.len() ==> #[trigger] part[i] == all[from + i],
        same_file(info, s, synced(info, bitmap, s).1, all),
        s.bits.len() == info.cluster_count,
    ensures
        clusters_data(synced(info, bitmap, s).1.content, info, part) == clusters_data(
            s.content,
            info,
            part,
        ),
{
    let t = synced(info, bitmap, s).1;
    assert(t.content.len() == s.content.len());
    assert forall|i: int| 0 <= i < part.len() implies info.has(#[trigger] part[i]) by {
        assert(info.has(all[from + i]));
    }
    assert forall|i: int, x: int|
        #![trigger t.content[info.offset(part[i]) + x]]
        0 <= i < part.len() && 0 <= x < info.bytes_per_cluster implies t.content[info.offset(
        part[i],
    ) + x] == s.content[info.offset(part[i]) + x] by {
        assert(part[i] == all[from + i]);
        assert(t.content[info.offset(all[from + i]) + x] == s.content[info.offset(all[from + i])
            + x]);
    }
    same_data(s.content, t.content, info, part);
}

/// Writing the bitmap leaves the clusters of a directory alone.
proof fn directory_avoids_syncing(
    info: ExFatInfo,
    bitmap: u32,
    s: VolState,
    dir: ExFatDir,
    all: Seq<u32>,
)
    requires
        dir_clusters(info, fat_table(s.content, info), dir) is Ok,
        same_file(info, s, synced(info, bitmap, s).1, all),
        dir_clusters(info, fat_table(s.content, info), dir)->Ok_0.len() <= all.len(),
        forall|i: int|
            0 <= i < dir_clusters(info, fat_table(s.content, info), dir)->Ok_0.len()
                ==> #[trigger] dir_clusters(info, fat_table(s.content, info), dir)->Ok_0[i]
                == all[i],
    ensures
        dir_clusters(info, fat_table(synced(info, bitmap, s).1.content, info), dir)
            == dir_clusters(info, fat_table(s.content, info), dir),
{
    let t = synced(info, bitmap, s).1;
    let own = dir_clusters(info, fat_table(s.content, info), dir)->Ok_0;
    assert forall|i: int| 0 <= i < own.len() implies fat_table(t.content, info)[(
    #[trigger] own[i]) as int] == fat_table(s.content, info)[own[i] as int] by {
        assert(own[i] == all[i]);
        assert(t.bits[all[i] - 2] == s.bits[all[i] - 2]);
    }
    directory_avoids(info, fat_table(s.content, info), fat_table(t.content, info), dir);
}

/// A cluster that was cleared has no entries, whatever is written into another.
proof fn new_cluster_is_empty(
    info: ExFatInfo,
    content: Seq<u8>,
    cluster: u32,
    clusters: Seq<u32>,
    j: int,
    off: int,
    set: Seq<u8>,
)
    requires
        info.wf(),
        content.len() >= info.end(),
        info.has(cluster),
        with_cleared(info, content, cluster).len() == content.len(),
        forall|x: int|
            0 <= x < info.bytes_per_cluster ==> #[trigger] with_cleared(info, content, cluster)[
            info.offset(cluster) + x] == 0,
        0 <= j < clusters.len(),
        info.has(clusters[j]),
        clusters[j] != cluster,
        0 <= off,
        off + set.len() <= info.bytes_per_cluster,
    ensures
        ({
            let cleared = with_cleared(info, content, cluster);
            let written = splice(cleared, info.offset(clusters[j]) + off, set);
            sets_from(clusters_data(written, info, seq![cluster]), 0).len() == 0
        }),
{
    let cleared = with_cleared(info, content, cluster);
    let written = splice(cleared, info.offset(clusters[j]) + off, set);
    let one = seq![cluster];
    let at = info.offset(cluster);
    clusters_are_apart(info, cluster, cluster);
    clusters_are_apart(info, clusters[j], clusters[j]);
    if clusters[j] < cluster {
        clusters_are_apart(info, clusters[j], cluster);
    } else {
        clusters_are_apart(info, cluster, clusters[j]);
    }
    let own = clusters_data(written, info, one);
    assert(one.drop_last() =~= Seq::empty());
    assert(clusters_data(written, info, one.drop_last()) =~= Seq::empty());
    assert(own =~= written.subrange(at, at + info.bytes_per_cluster));
    assert(cleared[info.offset(cluster) + 0] == 0);
    assert(own[0] == written[at]);
    assert(written[at] == cleared[at]);
}

pub(crate) proof fn cluster_is_entries(info: ExFatInfo)
    requires
        info.wf(),
    ensures
        info.bytes_per_cluster as int == 32 * (info.bytes_per_cluster as int / 32),
{
}

/// What stands in entry `o` of cluster number `j` of a directory.
pub(
    crate) proof fn slot_byte(content: Seq<u8>,
    info: ExFatInfo,
    clusters: Seq<u32>,
    j: int,
    o: int,
    n: int,
)
    requires
        info.wf(),
        content.len() >= info.end(),
        forall|i: int| 0 <= i < clusters.len() ==> info.has(#[trigger] clusters[i]),
        0 <= j < clusters.len(),
        n > 0,
        first_slots(
            content,
            info.offset(clusters[j]),
            info.bytes_per_cluster as int / 32,
            n,
            o,
        ),
    ensures
        ({
            let cs = info.bytes_per_cluster as int;
            let kind = clusters_data(content, info, clusters)[j * cs + 32 * o];
            kind == END_OF_DIRECTORY || kind == DELETED_FILE
        }),
    decreases clusters.len(),
{
    let cs = info.bytes_per_cluster as int;
    let init = clusters.drop_last();
    assert forall|i: int| 0 <= i < init.len() implies info.has(#[trigger] init[i]) by {
        assert(info.has(clusters[i]));
    }
    data_len(content, info, init);
    data_len(content, info, clusters);
    let base = info.offset(clusters[j]);
    assert(slot_free(content, slot_at(base, o)));
    assert(info.has(clusters[j]));
    clusters_are_apart(info, clusters[j], clusters[j]);
    let m = init.len() as int;
    if j == m {
        assert(clusters_data(content, info, clusters)[j * cs + 32 * o] == content[base + 32 * o]);
    } else {
        assert(init[j] == clusters[j]);
        slot_byte(content, info, init, j, o, n);
        assert(j * cs + cs <= m * cs) by (nonlinear_arith)
            requires
                j + 1 <= m,
                cs >= 0,
        ;
        assert(j * cs >= 0) by (nonlinear_arith)
            requires
                j >= 0,
                cs >= 0,
        ;
    }
}

/// An entry set with new sizes is still an entry set of the same name, and says the new
/// sizes and first cluster.
#[verifier::spinoff_prover]
#[verifier::rlimit(80)]
pub proof fn resized_set_is_read_back(
    set: Seq<u8>,
    valid: u64,
    len: u64,
    first: u32,
    no_fat_chain: bool,
)
    requires
        is_entry_set(set),
    ensures
        ({
            let r = resized_set(set, valid, len, first, no_fat_chain);
            &&& is_entry_set(r)
            &&& r.len() == set.len()
            &&& set_name(r) == set_name(set)
            &&& from_le16(r.subrange(4, 6)) == from_le16(set.subrange(4, 6))
            &&& from_le64(r.subrange(40, 48)) == valid
            &&& from_le32(r.subrange(52, 56)) == first
            &&& from_le64(r.subrange(56, 64)) == len
            &&& (r[33] / 2 % 2 == 1) == (no_fat_chain || (len == 0 && first == 0))
        }),
{
    let flags = stream_flags_of(first, len, no_fat_chain);
    let plain = set.take(33) + seq![flags] + set.subrange(34, 40) + le64(valid) + set.subrange(
        48,
        52,
    ) + le32(first) + le64(len) + set.skip(64);
    let r = resized_set(set, valid, len, first, no_fat_chain);
    le64_round_trip(valid);
    le64_round_trip(len);
    le32_round_trip(first);
    checksum_matches(plain);
    assert(plain.len() == set.len());
    assert(r == with_checksum(plain));
    assert forall|i: int|
        0 <= i < set.len() && i != 2 && i != 3 && i != 33 && !(40 <= i < 48) && !(52 <= i < 64) implies
        #[trigger] r[i] == set[i] by {
        assert(r[i] == plain[i]);
    }
    assert(r.subrange(40, 48) =~= le64(valid));
    assert(r.subrange(52, 56) =~= le32(first));
    assert(r.subrange(56, 64) =~= le64(len));
    assert(r.subrange(4, 6) =~= set.subrange(4, 6));
    assert forall|i: int| 2 <= i < r.len() / 32 implies #[trigger] r[32 * i] == FILE_NAME by {
        assert(set[32 * i] == FILE_NAME);
    }
    assert(r[33] == plain[33]);
    assert(is_entry_set(r));
    let count = set[35] as int;
    assert(r[35] == set[35]);
    assert(set_name(r) =~= set_name(set)) by {
        assert forall|i: int| 0 <= i < count implies #[trigger] name_units(r, count)[i]
            == name_units(set, count)[i] by {
            let at = 64 + 32 * (i / 15) + 2 + 2 * (i % 15);
            assert(i / 15 < (count + 14) / 15);
            assert(at + 1 < set.len());
            assert(r[at] == set[at] && r[at + 1] == set[at + 1]);
        }
    }
}

/// Where none of the sets has the name, none is found.
proof fn none_is_named(bytes: Seq<u8>, sets: Seq<int>, upcase: UpcaseTable, name: Seq<char>)
    requires
        forall|i: int| 0 <= i < sets.len() ==> !named(bytes, #[trigger] sets[i], upcase, name),
    ensures
        first_named(bytes, sets, upcase, name) is None,
    decreases sets.len(),
{
    if sets.len() > 0 {
        assert(!named(bytes, sets[0], upcase, name));
        let rest = sets.drop_first();
        assert forall|i: int| 0 <= i < rest.len() implies !named(
            bytes,
            #[trigger] rest[i],
            upcase,
            name,
        ) by {
            assert(!named(bytes, sets[i + 1], upcase, name));
        }
        none_is_named(bytes, rest, upcase, name);
    }
}

/// Sets are found from where the walk starts on.
proof fn sets_are_behind(bytes: Seq<u8>, k: int)
    ensures
        forall|x: int|
            #[trigger] sets_from(bytes, k).contains(x) ==> k <= x && stands_set(bytes, x),
    decreases bytes.len() - 32 * k,
{
    if k < 0 || 32 * k + 32 > bytes.len() || bytes[32 * k] == END_OF_DIRECTORY {
        assert(sets_from(bytes, k) =~= Seq::empty());
    } else if stands_set(bytes, k) {
        let next = k + 1 + bytes[32 * k + 1];
        sets_are_behind(bytes, next);
        let all = sets_from(bytes, k);
        assert(all == seq![k] + sets_from(bytes, next));
        assert forall|x: int| #[trigger] all.contains(x) implies k <= x && stands_set(bytes, x) by {
            let m = choose|m: int| 0 <= m < all.len() && all[m] == x;
            if m > 0 {
                assert(sets_from(bytes, next)[m - 1] == x);
                assert(sets_from(bytes, next).contains(x));
            }
        }
    } else {
        sets_are_behind(bytes, k + 1);
        assert(sets_from(bytes, k) == sets_from(bytes, k + 1));
    }
}

/// What stands from entry `k` on is the same where the bytes are.
proof fn same_tail(a: Seq<u8>, b: Seq<u8>, k: int)
    requires
        a.len() == b.len(),
        k >= 0,
        forall|x: int| 32 * k <= x < a.len() ==> #[trigger] a[x] == b[x],
    ensures
        sets_from(a, k) == sets_from(b, k),
        forall|x: int|
            #[trigger] sets_from(a, k).contains(x) ==> set_at(a, x) == set_at(b, x),
    decreases a.len() - 32 * k,
{
    if 32 * k + 32 > a.len() || a[32 * k] == END_OF_DIRECTORY {
        if 32 * k + 32 <= a.len() {
            assert(a[32 * k] == b[32 * k]);
        }
    } else {
        assert(a[32 * k] == b[32 * k] && a[32 * k + 1] == b[32 * k + 1]);
        let next = k + 1 + a[32 * k + 1];
        if 32 * next <= a.len() {
            assert(set_at(a, k) =~= set_at(b, k));
        }
        if stands_set(a, k) {
            same_tail(a, b, next);
            let all = sets_from(a, k);
            assert(all == seq![k] + sets_from(a, next));
            assert forall|x: int| #[trigger] all.contains(x) implies set_at(a, x) == set_at(
                b,
                x,
            ) by {
                let m = choose|m: int| 0 <= m < all.len() && all[m] == x;
                if m > 0 {
                    assert(sets_from(a, next)[m - 1] == x);
                    assert(sets_from(a, next).contains(x));
                }
            }
        } else {
            same_tail(a, b, k + 1);
        }
    }
}

/// The entries of a set whose first entry is marked as deleted are passed over.
proof fn rest_is_skipped(a: Seq<u8>, b: Seq<u8>, i: int, m: int)
    requires
        0 <= i,
        stands_set(a, i),
        b == splice(a, 32 * i, seq![DELETED_FILE]),
        32 * i + 32 <= a.len(),
        i < m <= i + 1 + a[32 * i + 1],
    ensures
        sets_from(b, m) == sets_from(b, i + 1 + a[32 * i + 1]),
    decreases i + 1 + a[32 * i + 1] - m,
{
    let end = i + 1 + a[32 * i + 1];
    if m < end {
        let set = set_at(a, i);
        let k = m - i;
        assert(set[32 * k] == a[32 * m]);
        assert(b[32 * m] == a[32 * m]);
        assert(set[32 * k] == STREAM_EXTENSION || set[32 * k] == FILE_NAME) by {
            if k == 1 {
                assert(set[32] == STREAM_EXTENSION);
            } else {
                assert(set[32 * k] == FILE_NAME);
            }
        }
        rest_is_skipped(a, b, i, m + 1);
    }
}

/// Once the first entry of a set is marked as deleted, a name that no other set has is not
/// found any more.
proof fn marked_set_is_not_found(
    a: Seq<u8>,
    b: Seq<u8>,
    i: int,
    k: int,
    upcase: UpcaseTable,
    name: Seq<char>,
)
    requires
        0 <= k <= i,
        32 * i + 32 <= a.len(),
        b == splice(a, 32 * i, seq![DELETED_FILE]),
        sets_from(a, k).contains(i),
        forall|x: int|
            #[trigger] sets_from(a, k).contains(x) && x != i ==> !named(a, x, upcase, name),
    ensures
        first_named(b, sets_from(b, k), upcase, name) is None,
    decreases i - k,
{
    assert(a.len() == b.len());
    sets_are_behind(a, k);
    if k == i {
        assert(stands_set(a, i));
        let end = i + 1 + a[32 * i + 1];
        assert(b[32 * i] == DELETED_FILE);
        rest_is_skipped(a, b, i, i + 1);
        assert(sets_from(b, i) == sets_from(b, end));
        assert forall|x: int| 32 * end <= x < a.len() implies #[trigger] a[x] == b[x] by {}
        same_tail(a, b, end);
        let tail = sets_from(a, end);
        assert(sets_from(a, i) == seq![i] + tail);
        sets_are_behind(a, end);
        assert forall|m: int| 0 <= m < tail.len() implies !named(b, #[trigger] tail[m], upcase, name) by {
            assert(tail.contains(tail[m]));
            assert(sets_from(a, i)[m + 1] == tail[m]);
            assert(sets_from(a, i).contains(tail[m]));
            assert(!named(a, tail[m], upcase, name));
        }
        none_is_named(b, tail, upcase, name);
    } else {
        assert(a[32 * k] == b[32 * k] && a[32 * k + 1] == b[32 * k + 1]);
        assert(a[32 * k] != END_OF_DIRECTORY);
        if stands_set(a, k) {
            let next = k + 1 + a[32 * k + 1];
            let rest = sets_from(a, next);
            let all = sets_from(a, k);
            assert(all == seq![k] + rest);
            let m = choose|m: int| 0 <= m < all.len() && all[m] == i;
            assert(rest[m - 1] == i);
            assert(rest.contains(i));
            sets_are_behind(a, next);
            assert(next <= i);
            assert(set_at(a, k) =~= set_at(b, k));
            assert(all[0] == k);
            assert(all.contains(k));
            assert(!named(a, k, upcase, name));
            assert forall|x: int| #[trigger] rest.contains(x) && x != i implies !named(
                a,
                x,
                upcase,
                name,
            ) by {
                let y = choose|y: int| 0 <= y < rest.len() && rest[y] == x;
                assert(all[y + 1] == x);
                assert(all.contains(x));
            }
            marked_set_is_not_found(a, b, i, next, upcase, name);
            let other = sets_from(b, k);
            assert(other == seq![k] + sets_from(b, next));
            assert(other.drop_first() =~= sets_from(b, next));
            assert(!named(b, k, upcase, name));
        } else {
            if stands_set(b, k) {
                set_stops_before(b, k, i);
                assert(set_at(a, k) =~= set_at(b, k));
            }
            marked_set_is_not_found(a, b, i, k + 1, upcase, name);
        }
    }
}

/// A file that was deleted is not found under its name any more, where no other has it.
pub proof fn deleted_file_is_not_found(
    info: ExFatInfo,
    bitmap: u32,
    s: VolState,
    e: ExFatFileEntry,
    clusters: Seq<u32>,
    dir: ExFatDir,
    j: int,
    o: int,
    upcase: UpcaseTable,
    name: Seq<char>,
)
    requires
        info.wf(),
        s.content.len() >= info.end(),
        s.bits.len() == info.cluster_count,
        owns(
            info,
            fat_table(s.content, info),
            s.bits,
            e.first_cluster,
            e.no_fat_chain,
            clusters,
        ),
        clusters.len() == clusters_for(e.data_length as int, info.bytes_per_cluster as int),
        dir_clusters(info, fat_table(s.content, info), dir) is Ok,
        ({
            let own = dir_clusters(info, fat_table(s.content, info), dir)->Ok_0;
            let bytes = clusters_data(s.content, info, own);
            let i = j * (info.bytes_per_cluster as int / 32) + o;
            &&& disjoint(clusters, own)
            &&& 0 <= j < own.len()
            &&& 0 <= o < info.bytes_per_cluster as int / 32
            &&& e.entry_offset == info.offset(own[j]) + 32 * o
            &&& bitmap >= 2 ==> apart_from(
                info,
                own,
                info.offset(bitmap),
                bytes_for(info.cluster_count as int),
            )
            &&& sets_from(bytes, 0).contains(i)
            &&& forall|x: int|
                #[trigger] sets_from(bytes, 0).contains(x) && x != i ==> !named(
                    bytes,
                    x,
                    upcase,
                    name,
                )
        }),
    ensures
        ({
            let own = dir_clusters(info, fat_table(s.content, info), dir)->Ok_0;
            let t = deleted(info, bitmap, s, e).1;
            let bytes = clusters_data(t.content, info, own);
            &&& dir_clusters(info, fat_table(t.content, info), dir) == Ok::<Seq<u32>, ExFatError>(
                own,
            )
            &&& first_named(bytes, sets_from(bytes, 0), upcase, name) is None
        }),
{
    let table = fat_table(s.content, info);
    let own = dir_clusters(info, table, dir)->Ok_0;
    directory_clusters_differ(info, table, dir);
    deletion_marks_the_entry(info, bitmap, s, e, clusters, dir, own, j, o);
    let t = deleted(info, bitmap, s, e).1;
    marked_entry_is_not_found(info, s.content, t.content, own, j, o, upcase, name);
}

/// A name is not found any more in a directory where the first entry of the only set that
/// has it is marked as deleted.
proof fn marked_entry_is_not_found(
    info: ExFatInfo,
    before: Seq<u8>,
    after: Seq<u8>,
    own: Seq<u32>,
    j: int,
    o: int,
    upcase: UpcaseTable,
    name: Seq<char>,
)
    requires
        info.wf(),
        before.len() >= info.end(),
        forall|i: int| 0 <= i < own.len() ==> info.has(#[trigger] own[i]),
        0 <= j < own.len(),
        0 <= o < info.bytes_per_cluster as int / 32,
        clusters_data(after, info, own) == splice(
            clusters_data(before, info, own),
            j * info.bytes_per_cluster as int + 32 * o,
            seq![DELETED_FILE],
        ),
        ({
            let bytes = clusters_data(before, info, own);
            let i = j * (info.bytes_per_cluster as int / 32) + o;
            &&& sets_from(bytes, 0).contains(i)
            &&& forall|x: int|
                #[trigger] sets_from(bytes, 0).contains(x) && x != i ==> !named(
                    bytes,
                    x,
                    upcase,
                    name,
                )
        }),
    ensures
        first_named(
            clusters_data(after, info, own),
            sets_from(clusters_data(after, info, own), 0),
            upcase,
            name,
        ) is None,
{
    let cs = info.bytes_per_cluster as int;
    let per = cs / 32;
    let a = clusters_data(before, info, own);
    let b = clusters_data(after, info, own);
    let i = j * per + o;
    cluster_is_entries(info);
    data_len(before, info, own);
    assert(j * cs == 32 * (j * per)) by (nonlinear_arith)
        requires
            cs == 32 * per,
    ;
    assert(b == splice(a, 32 * i, seq![DELETED_FILE]));
    assert(j * per >= 0) by (nonlinear_arith)
        requires
            j >= 0,
            per >= 0,
    ;
    assert(j * cs + cs <= own.len() * cs) by (nonlinear_arith)
        requires
            j + 1 <= own.len(),
            cs >= 0,
    ;
    marked_set_is_not_found(a, b, i, 0, upcase, name);
}

/// What deletion changes in the directory of a file: the first entry of its set.
proof fn deletion_marks_the_entry(
    info: ExFatInfo,
    bitmap: u32,
    s: VolState,
    e: ExFatFileEntry,
    clusters: Seq<u32>,
    dir: ExFatDir,
    own: Seq<u32>,
    j: int,
    o: int,
)
    requires
        info.wf(),
        s.content.len() >= info.end(),
        s.bits.len() == info.cluster_count,
        owns(
            info,
            fat_table(s.content, info),
            s.bits,
            e.first_cluster,
            e.no_fat_chain,
            clusters,
        ),
        clusters.len() == clusters_for(e.data_length as int, info.bytes_per_cluster as int),
        dir_clusters(info, fat_table(s.content, info), dir) == Ok::<Seq<u32>, ExFatError>(own),
        own.no_duplicates(),
        forall|i: int| 0 <= i < own.len() ==> info.has(#[trigger] own[i]),
        disjoint(clusters, own),
        0 <= j < own.len(),
        0 <= o < info.bytes_per_cluster as int / 32,
        e.entry_offset == info.offset(own[j]) + 32 * o,
        bitmap >= 2 ==> apart_from(
            info,
            own,
            info.offset(bitmap),
            bytes_for(info.cluster_count as int),
        ),
    ensures
        ({
            let t = deleted(info, bitmap, s, e).1;
            &&& dir_clusters(info, fat_table(t.content, info), dir) == Ok::<Seq<u32>, ExFatError>(
                own,
            )
            &&& clusters_data(t.content, info, own) == splice(
                clusters_data(s.content, info, own),
                j * info.bytes_per_cluster as int + 32 * o,
                seq![DELETED_FILE],
            )
        }),
{
    let table = fat_table(s.content, info);
    let mark = seq![DELETED_FILE];
    assert(info.has(own[j]));
    clusters_are_apart(info, own[j], own[j]);
    cluster_is_entries(info);
    let s1 = freed_for_deletion(info, s, e, clusters, own);
    same_data(s.content, s1.content, info, own);
    let at = e.entry_offset as int;
    written_cluster(s1.content, info, own, j, 32 * o, mark);
    let s2 = VolState { content: splice(s1.content, at, mark), ..s1 };
    table_unchanged(s1.content, s2.content, info);
    assert forall|x: int| 0 <= x < own.len() implies fat_table(s2.content, info)[(
    #[trigger] own[x]) as int] == table[own[x] as int] by {
        assert(s1.bits[own[x] - 2] == s.bits[own[x] - 2]);
    }
    directory_avoids(info, table, fat_table(s2.content, info), dir);
    syncing_keeps_file(info, bitmap, s2, own);
    syncing_keeps_data(info, bitmap, s2, own, own, 0);
    directory_avoids_syncing(info, bitmap, s2, dir, own);
    assert(deleted(info, bitmap, s, e).1 == synced(info, bitmap, s2).1);
}

/// The volume once the clusters of a file to be deleted are freed.
proof fn freed_for_deletion(
    info: ExFatInfo,
    s: VolState,
    e: ExFatFileEntry,
    clusters: Seq<u32>,
    own: Seq<u32>,
) -> (s1: VolState)
    requires
        info.wf(),
        s.content.len() >= info.end(),
        s.bits.len() == info.cluster_count,
        owns(
            info,
            fat_table(s.content, info),
            s.bits,
            e.first_cluster,
            e.no_fat_chain,
            clusters,
        ),
        clusters.len() == clusters_for(e.data_length as int, info.bytes_per_cluster as int),
        disjoint(clusters, own),
        forall|i: int| 0 <= i < own.len() ==> info.has(#[trigger] own[i]),
    ensures
        (Ok::<(), ExFatError>(()), s1) == freed(
            info,
            s,
            e.first_cluster,
            if e.no_fat_chain {
                clusters_for(e.data_length as int, info.bytes_per_cluster as int) as u32
            } else {
                0
            },
            e.no_fat_chain,
        ),
        same_file(info, s, s1, own),
        s1.content.len() == s.content.len(),
        s1.bits.len() == s.bits.len(),
{
    let n = clusters.len() as int;
    let count = if e.no_fat_chain {
        n as u32
    } else {
        0
    };
    let (r1, s1) = freed(info, s, e.first_cluster, count, e.no_fat_chain);
    if n == 0 {
        assert(e.first_cluster == 0);
    } else {
        clusters_are_few(info, clusters);
        freeing_spares_others(info, s, e.first_cluster, count, e.no_fat_chain, clusters);
        spared_file(info, s, s1, clusters, own);
    }
    assert(r1 == Ok::<(), ExFatError>(()));
    s1
}

} // verus!
