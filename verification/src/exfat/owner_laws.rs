//! Which clusters belong to a file, and what a write changes.

#[allow(unused_imports)]
use crate::byte_laws::{number32, numbers_are_written_low_byte_first};
#[allow(unused_imports)]
use crate::exfat::bitmap::{flushed, AllocationBitmap};
#[allow(unused_imports)]
use crate::exfat::device::Device;
#[allow(unused_imports)]
use crate::exfat::entry::ExFatFileEntry;
#[allow(unused_imports)]
use crate::exfat::entry_writer::EntrySetBuilder;
#[allow(unused_imports)]
use crate::exfat::fat::fat_table;
#[allow(unused_imports)]
use crate::exfat::file_reader::{nth_cluster, ExFatFileReader, SeekFrom};
#[allow(unused_imports)]
use crate::exfat::file_writer::{
    chain_byte, entry_owns, keeps_rest, only_touches, out_of_clusters, owns, same_allocation, wrote,
    ExFatFileWriter,
};
#[allow(unused_imports)]
use crate::exfat::format_laws::bitmaps_have_a_bit_for_each_cluster;
#[allow(unused_imports)]
use crate::exfat::info::ExFatInfo;
#[allow(unused_imports)]
use crate::exfat::volume::{with_entry, ExFatVolume, VolState};
use vstd::prelude::*;

verus! {

/// A file owns clusters that exist, are in use and are all different, from its first on: one behind
/// the other, or linked by the FAT, whose entry for the last ends the chain.
pub proof fn files_own_their_clusters(
    info: ExFatInfo,
    table: Seq<u32>,
    bits: Seq<bool>,
    first: u32,
    contiguous: bool,
    clusters: Seq<u32>,
)
    ensures
        owns(info, table, bits, first, contiguous, clusters) <==> {
            &&& forall|i: int|
                0 <= i < clusters.len() ==> {
                    &&& 2 <= #[trigger] clusters[i] < info.cluster_count + 2
                    &&& bits[clusters[i] - 2]
                }
            &&& forall|i: int, j: int|
                0 <= i < clusters.len() && 0 <= j < clusters.len() && i != j
                    ==> #[trigger] clusters[i] != #[trigger] clusters[j]
            &&& clusters.len() == 0 ==> first == 0
            &&& clusters.len() > 0 ==> first == clusters[0]
            &&& contiguous ==> forall|i: int|
                0 <= i < clusters.len() ==> #[trigger] clusters[i] == first + i
            &&& !contiguous ==> forall|i: int|
                0 <= i < clusters.len() ==> {
                    &&& i + 1 < clusters.len() ==> #[trigger] table[clusters[i] as int]
                        == clusters[i + 1]
                    &&& i + 1 == clusters.len() ==> table[clusters[i] as int] >= 0xFFFFFFF8
                }
        },
{
}

/// An entry that owns its clusters has just as many as its bytes need, and no more bytes are valid
/// than it has.
pub proof fn entries_own_their_clusters<D: Device>(
    fs: &ExFatVolume<D>,
    entry: ExFatFileEntry,
    clusters: Seq<u32>,
)
    requires
        fs.wf(),
    ensures
        entry_owns(fs, entry, clusters) <==> {
            let cs = fs.info.bytes_per_cluster as int;
            &&& owns(
                fs.info,
                fat_table(fs.device@, fs.info),
                fs.bitmap@,
                entry.first_cluster,
                entry.no_fat_chain,
                clusters,
            )
            &&& (clusters.len() - 1) * cs < entry.data_length <= clusters.len() * cs
            &&& entry.valid_data_length <= entry.data_length
        },
{
    let cs = fs.info.bytes_per_cluster as int;
    let n = clusters.len() as int;
    let len = entry.data_length as int;
    let q = (len + cs - 1) / cs;
    vstd::arithmetic::div_mod::lemma_fundamental_div_mod(len + cs - 1, cs);
    vstd::arithmetic::mul::lemma_mul_is_commutative(cs, q);
    vstd::arithmetic::mul::lemma_mul_is_distributive_sub_other_way(cs, n, 1);
    vstd::arithmetic::div_mod::lemma_mod_bound(len + cs - 1, cs);
    if q < n {
        assert(q * cs <= n * cs - cs) by (nonlinear_arith)
            requires
                q <= n - 1,
                cs > 0,
        ;
    } else if q > n {
        assert(q * cs >= n * cs + cs) by (nonlinear_arith)
            requires
                q >= n + 1,
                cs > 0,
        ;
    }
}

/// A volume is complete where its device reaches to the end of the last cluster. A file can be
/// read up to a byte where, on such a volume, all clusters up to it are there.
pub proof fn files_can_be_read_so_far<'a, D: Device>(r: &ExFatFileReader<'a, D>, end: int)
    requires
        r.fs.wf(),
        end >= 0,
    ensures
        r.fs.complete() <==> r.fs.device@.len() >= r.fs.info.heap_offset + r.fs.info.cluster_count
            * r.fs.info.bytes_per_cluster,
        r.readable_to(end) <==> {
            let cs = r.fs.info.bytes_per_cluster as int;
            let n = (end + cs - 1) / cs;
            &&& D::infallible()
            &&& r.fs.complete()
            &&& n <= r.fs.info.cluster_count
            &&& forall|k: int|
                0 <= k < n ==> (#[trigger] nth_cluster(
                    r.fs.info,
                    fat_table(r.fs.device@, r.fs.info),
                    r.first_cluster,
                    r.is_contiguous,
                    k,
                ) matches Some(c) && 2 <= c < r.fs.info.cluster_count + 2)
        },
{
}

/// A position can be asked for in every file whose size fits a signed number and whose clusters
/// have numbers up to the position.
pub proof fn positions_can_be_asked_for<'a, D: Device>(r: &ExFatFileReader<'a, D>, pos: SeekFrom)
    requires
        r.fs.wf(),
        r.valid_length <= i64::MAX,
        !r.is_contiguous || r.first_cluster + r.valid_length / r.fs.info.bytes_per_cluster as u64
            <= u32::MAX,
        r.valid_length / r.fs.info.bytes_per_cluster as u64 <= u32::MAX,
    ensures
        r.addressable(pos),
{
    let cs = r.fs.info.bytes_per_cluster as int;
    let t = r.target(pos);
    if 0 <= t <= r.valid_length {
        vstd::arithmetic::div_mod::lemma_div_is_ordered(t, r.valid_length as int, cs);
    }
}

/// A writer is in step with the volume where it owns its clusters, has not gone behind its end,
/// and the cluster that it writes to is the one at its position.
pub proof fn writers_are_at_their_position<D: Device>(w: &ExFatFileWriter, fs: &ExFatVolume<D>)
    requires
        fs.wf(),
        w.inv(fs),
    ensures
        w.position <= w.new_length <= w.clusters@.len() * fs.info.bytes_per_cluster,
        owns(
            fs.info,
            fat_table(fs.device@, fs.info),
            fs.bitmap@,
            w.first_cluster,
            w.is_contiguous,
            w.clusters@,
        ),
        w.is_contiguous ==> w.allocated_length == w.clusters@.len() * fs.info.bytes_per_cluster,
        w.clusters@.len() == 0 ==> w.position == 0 && w.current_cluster == 0,
        w.clusters@.len() > 0 && w.cluster_offset < fs.info.bytes_per_cluster ==> ({
            let cs = fs.info.bytes_per_cluster as int;
            &&& w.cluster_offset == w.position as int % cs
            &&& w.current_cluster == w.clusters@[w.position as int / cs]
        }),
        w.ready(fs) <==> D::infallible() && fs.complete(),
{
    let cs = fs.info.bytes_per_cluster as int;
    if w.clusters@.len() > 0 && w.cluster_offset < cs {
        vstd::arithmetic::div_mod::lemma_fundamental_div_mod_converse(
            w.position as int,
            cs,
            w.index(cs),
            w.cluster_offset as int,
        );
    }
}

/// A write puts the bytes where the file's position lies, cluster by cluster; the file's other
/// bytes stay, and so do its clusters. What it gains was free.
pub proof fn writes_put_the_bytes(
    w0: ExFatFileWriter,
    s0: VolState,
    w1: ExFatFileWriter,
    s1: VolState,
    info: ExFatInfo,
    buf: Seq<u8>,
    n: int,
)
    requires
        wrote(w0, s0, w1, s1, info, buf, n),
        forall|i: int| 0 <= i < w1.clusters@.len() ==> 2 <= #[trigger] w1.clusters@[i],
    ensures
        w0.clusters@.len() <= w1.clusters@.len(),
        w0.clusters@ == w1.clusters@.take(w0.clusters@.len() as int),
        forall|i: int|
            w0.clusters@.len() <= i < w1.clusters@.len() ==> !s0.bits[(#[trigger] w1.clusters@[i])
                - 2],
        forall|i: int|
            #![trigger buf[i]]
            0 <= i < n && 0 <= (w0.position + i) / (info.bytes_per_cluster as int)
                < w1.clusters@.len() ==> ({
                let p = w0.position + i;
                let cs = info.bytes_per_cluster as int;
                s1.content[info.heap_offset + (w1.clusters@[p / cs] - 2) * cs + p % cs] == buf[i]
            }),
        forall|p: int|
            0 <= p < w0.clusters@.len() * info.bytes_per_cluster && (p < w0.position || p
                >= w0.position + n) ==> #[trigger] chain_byte(s1.content, info, w1.clusters@, p)
                == chain_byte(s0.content, info, w0.clusters@, p),
{
    let (c0, c1) = (w0.clusters@, w1.clusters@);
    assert(c0 =~= c1.take(c0.len() as int)) by {
        assert forall|i: int| 0 <= i < c0.len() implies c0[i] == c1.take(c0.len() as int)[i] by {
            assert(c1[i] == c0[i]);
        }
    }
    assert forall|i: int|
        #![trigger buf[i]]
        0 <= i < n && 0 <= (w0.position + i) / (info.bytes_per_cluster as int)
            < w1.clusters@.len() implies ({
        let p = w0.position + i;
        let cs = info.bytes_per_cluster as int;
        s1.content[info.heap_offset + (w1.clusters@[p / cs] - 2) * cs + p % cs] == buf[i]
    }) by {
        let p = w0.position + i;
        assert(chain_byte(s1.content, info, w1.clusters@, p) == buf[p - w0.position]);
        assert(2 <= w1.clusters@[p / info.bytes_per_cluster as int]);
    }
}

/// Clusters that are not among those touched keep what they hold, their entries in the FAT and
/// whether they are in use. Outside the clusters only the FAT's entries for clusters differ.
pub proof fn the_rest_is_not_touched(
    info: ExFatInfo,
    a: VolState,
    b: VolState,
    clusters: Seq<u32>,
    d: u32,
    i: int,
)
    requires
        info.wf(),
        only_touches(info, a, b, clusters),
        forall|k: int| 0 <= k < clusters.len() ==> 2 <= #[trigger] clusters[k],
    ensures
        a.content.len() == b.content.len(),
        2 <= d < info.cluster_count + 2 && !clusters.contains(d) ==> {
            &&& b.bits[d - 2] == a.bits[d - 2]
            &&& fat_table(b.content, info)[d as int] == fat_table(a.content, info)[d as int]
            &&& 0 <= i < info.bytes_per_cluster ==> {
                let at = info.heap_offset + (d - 2) * info.bytes_per_cluster + i;
                b.content[at] == a.content[at]
            }
        },
        0 <= i < a.content.len() && (i < info.fat_offset + 8 || info.fat_offset + 4 * (
        info.cluster_count + 2) <= i < info.heap_offset) ==> b.content[i] == a.content[i],
        wrote_elsewhere(info, clusters, i) && 0 <= i < a.content.len() && i >= info.heap_offset
            ==> b.content[i] == a.content[i],
{
    reveal(only_touches);
    reveal(keeps_rest);
    if info.has(d) && !clusters.contains(d) {
        assert(b.bits[d - 2] == a.bits[d - 2]);
        if 0 <= i < info.bytes_per_cluster {
            assert(b.content[info.offset(d) + i] == a.content[info.offset(d) + i]);
        }
    }
    assert forall|k: int| 0 <= k < clusters.len() implies info.offset(#[trigger] clusters[k])
        == info.heap_offset + (clusters[k] - 2) * info.bytes_per_cluster && info.offset(clusters[k])
        >= info.heap_offset by {
        vstd::arithmetic::mul::lemma_mul_nonnegative(
            clusters[k] - 2,
            info.bytes_per_cluster as int,
        );
    }
}

/// Whether a byte lies in none of the given clusters.
pub open spec fn wrote_elsewhere(info: ExFatInfo, clusters: Seq<u32>, i: int) -> bool {
    forall|k: int|
        0 <= k < clusters.len() ==> {
            let at = info.heap_offset + (#[trigger] clusters[k] - 2) * info.bytes_per_cluster;
            i < at || at + info.bytes_per_cluster <= i
        }
}

/// No more cluster is to be had just where all are in use, or the file's clusters follow each other
/// up to the last of the volume. A file whose clusters stay the same has the same first one, and
/// neither the bitmap nor the FAT changes.
pub proof fn writes_stop_at_a_full_volume<D: Device>(
    w0: ExFatFileWriter,
    w: ExFatFileWriter,
    s0: VolState,
    fs: &ExFatVolume<D>,
)
    ensures
        out_of_clusters(w, fs) <==> !(exists|k: int|
            0 <= k < fs.bitmap@.len() && !#[trigger] fs.bitmap@[k]) || (w.is_contiguous
            && w.clusters@.len() > 0 && w.clusters@[w.clusters@.len() - 1] - 1
            == fs.info.cluster_count),
        same_allocation(fs.info, w0, s0, w, fs.state()) <==> {
            &&& w.clusters@ == w0.clusters@
            &&& w.first_cluster == w0.first_cluster
            &&& w.is_contiguous == w0.is_contiguous
            &&& fs.bitmap@ == s0.bits
            &&& fat_table(fs.device@, fs.info) == fat_table(s0.content, fs.info)
        },
{
}

/// What no change of a volume's state changes: its numbers, its up-case table, its root directory,
/// and the sizes of the device and of the bitmap.
pub proof fn volumes_stay_the_same<D: Device>(a: &ExFatVolume<D>, b: &ExFatVolume<D>)
    ensures
        a.same_volume(b) <==> {
            &&& a.info == b.info
            &&& a.upcase == b.upcase
            &&& a.bitmap.first_cluster == b.bitmap.first_cluster
            &&& a.bitmap.data_length == b.bitmap.data_length
            &&& a.bitmap@.len() == b.bitmap@.len()
            &&& a.root_cluster == b.root_cluster
            &&& a.root_contiguous == b.root_contiguous
            &&& a.root_size == b.root_size
            &&& a.device@.len() == b.device@.len()
        },
        a.state().content == a.device@,
        a.state().bits == a.bitmap@,
{
}

/// A copy of an entry has its name and all its numbers and times.
pub proof fn copies_of_entries(a: ExFatFileEntry, b: ExFatFileEntry)
    ensures
        a.same(&b) <==> a.name@ == b.name@ && a.attributes == b.attributes && a.first_cluster
            == b.first_cluster && a.data_length == b.data_length && a.valid_data_length
            == b.valid_data_length && a.no_fat_chain == b.no_fat_chain && a.name_hash == b.name_hash
            && a.created == b.created && a.modified == b.modified && a.accessed == b.accessed
            && a.parent_cluster == b.parent_cluster && a.entry_offset == b.entry_offset,
{
}

/// What a new entry starts with: no cluster, no bytes, no need of the FAT, and one time for all.
pub proof fn new_entries_hold_nothing(b: EntrySetBuilder)
    ensures
        b.fresh() <==> b.first_cluster == 0 && b.data_length == 0 && b.valid_data_length == 0
            && b.is_contiguous && b.modified == b.created && b.accessed == b.created,
{
}

/// The bitmap is written to its clusters, 8 clusters in a byte from the low bit on; nothing else
/// changes. A bitmap without clusters is written nowhere.
pub proof fn bitmaps_are_written_to_their_clusters(
    b: AllocationBitmap,
    content: Seq<u8>,
    info: ExFatInfo,
    i: int,
)
    requires
        info.offset(b.first_cluster) + (b@.len() + 7) / 8 <= content.len(),
    ensures
        b.first_cluster < 2 ==> flushed(b, content, info) == content,
        b.first_cluster >= 2 ==> ({
            let at = info.heap_offset + (b.first_cluster - 2) * info.bytes_per_cluster;
            let n = (b@.len() + 7) / 8;
            let after = flushed(b, content, info);
            &&& after.len() == content.len()
            &&& 0 <= i < content.len() && (i < at || i >= at + n) ==> after[i] == content[i]
            &&& at >= 0 && 0 <= i < b@.len() ==> ((after[at + i / 8] >> ((i % 8) as u8)) & 1 == 1
                <==> b@[i])
        }),
{
    bitmaps_have_a_bit_for_each_cluster(
        b@,
        Seq::empty(),
        0,
        if i < 0 {
            0
        } else {
            i
        },
    );
}

/// An entry of the FAT is four bytes, low byte first; writing it changes nothing else.
pub proof fn fat_entries_are_written_in_place(
    info: ExFatInfo,
    content: Seq<u8>,
    cluster: u32,
    value: u32,
    i: int,
)
    requires
        info.fat_offset + 4 * cluster + 4 <= content.len(),
    ensures
        ({
            let at = info.fat_offset + 4 * cluster;
            let after = with_entry(info, content, cluster, value);
            &&& after.len() == content.len()
            &&& number32(after, at) == value
            &&& 0 <= i < content.len() && (i < at || i >= at + 4) ==> after[i] == content[i]
        }),
{
    numbers_are_written_low_byte_first(0, value, 0);
}

} // verus!
