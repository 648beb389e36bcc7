//! What holds of writing and reading together.

#[allow(unused_imports)]
use crate::exfat::device::Device;
#[allow(unused_imports)]
use crate::exfat::fat::fat_table;
#[allow(unused_imports)]
use crate::exfat::file_reader::{
    clusters_exist, file_byte, nth_cluster, read_limit, ExFatFileReader,
};
#[allow(unused_imports)]
use crate::exfat::file_writer::{chain_byte, only_touches, owns, wrote, ExFatFileWriter};
#[allow(unused_imports)]
use crate::exfat::info::ExFatInfo;
#[allow(unused_imports)]
use crate::exfat::volume::{ExFatVolume, VolState};
use vstd::prelude::*;

verus! {

/// The clusters of a file are found by their numbers.
pub proof fn clusters_are_found(
    info: ExFatInfo,
    table: Seq<u32>,
    bits: Seq<bool>,
    first: u32,
    contiguous: bool,
    clusters: Seq<u32>,
    k: int,
)
    requires
        info.wf(),
        owns(info, table, bits, first, contiguous, clusters),
        0 <= k < clusters.len(),
    ensures
        nth_cluster(info, table, first, contiguous, k) == Some(clusters[k]),
    decreases k,
{
    if contiguous {
        assert(clusters[k] == first + k);
    } else if k > 0 {
        clusters_are_found(info, table, bits, first, contiguous, clusters, k - 1);
        assert(info.has(clusters[k - 1]));
        assert(info.has(clusters[k]));
        assert(table[clusters[k - 1] as int] == clusters[k]);
    }
}

/// A file has no more clusters than the volume.
pub proof fn clusters_are_few(info: ExFatInfo, clusters: Seq<u32>)
    requires
        clusters.no_duplicates(),
        forall|i: int| 0 <= i < clusters.len() ==> info.has(#[trigger] clusters[i]),
    ensures
        clusters.len() <= info.cluster_count,
{
    let ints = Seq::new(clusters.len(), |i: int| clusters[i] as int);
    assert(ints.no_duplicates());
    ints.unique_seq_to_set();
    let range = vstd::set_lib::set_int_range(2, info.cluster_count + 2);
    vstd::set_lib::lemma_int_range(2, info.cluster_count + 2);
    assert forall|x: int| ints.to_set().contains(x) implies range.contains(x) by {
        let i = choose|i: int| 0 <= i < ints.len() && ints[i] == x;
        assert(info.has(clusters[i]));
    }
    vstd::set_lib::lemma_len_subset(ints.to_set(), range);
}

/// A byte that is read by its position is the byte that was written there.
pub proof fn read_gives_back_written<D: Device>(
    w: ExFatFileWriter,
    fs: &ExFatVolume<D>,
    p: int,
)
    requires
        fs.wf(),
        w.inv(fs),
        0 <= p < w.clusters@.len() * fs.info.bytes_per_cluster,
    ensures
        file_byte(fs.device@, fs.info, w.first_cluster, w.is_contiguous, p) == chain_byte(
            fs.device@,
            fs.info,
            w.clusters@,
            p,
        ),
{
    let cs = fs.info.bytes_per_cluster as int;
    let c = w.clusters@;
    index_of(p, c.len() as int, cs);
    clusters_are_found(
        fs.info,
        fat_table(fs.device@, fs.info),
        fs.bitmap@,
        w.first_cluster,
        w.is_contiguous,
        c,
        p / cs,
    );
}

/// The cluster of a byte is one of the file's.
pub proof fn index_of(p: int, n: int, cs: int)
    requires
        cs > 0,
        0 <= p < n * cs,
    ensures
        0 <= p / cs < n,
{
    vstd::arithmetic::div_mod::lemma_fundamental_div_mod(p, cs);
    vstd::arithmetic::div_mod::lemma_mod_bound(p, cs);
    vstd::arithmetic::div_mod::lemma_div_pos_is_pos(p, cs);
    let k = p / cs;
    if k >= n {
        assert(cs * k >= n * cs) by (nonlinear_arith)
            requires
                k >= n,
                cs > 0,
        ;
    }
}

/// A file that was written up to its length can be read up to there.
pub proof fn written_file_is_readable<'a, D: Device>(
    w: ExFatFileWriter,
    reader: ExFatFileReader<'a, D>,
)
    requires
        reader.fs.wf(),
        w.ready(reader.fs),
        reader.first_cluster == w.first_cluster,
        reader.is_contiguous == w.is_contiguous,
        reader.valid_length == w.new_length,
    ensures
        reader.readable(),
        forall|p: int|
            0 <= p < w.new_length ==> #[trigger] reader.byte(p) == chain_byte(
                reader.fs.device@,
                reader.fs.info,
                w.clusters@,
                p,
            ),
{
    let info = reader.fs.info;
    let cs = info.bytes_per_cluster as int;
    let c = w.clusters@;
    let table = fat_table(reader.fs.device@, info);
    let n = (reader.valid_length + cs - 1) / cs;
    clusters_are_few(info, c);
    assert(n <= c.len()) by {
        vstd::arithmetic::div_mod::lemma_div_is_ordered(
            reader.valid_length + cs - 1,
            c.len() * cs + cs - 1,
            cs,
        );
        vstd::arithmetic::div_mod::lemma_fundamental_div_mod_converse(
            c.len() * cs + cs - 1,
            cs,
            c.len() as int,
            cs - 1,
        );
        assert(c.len() * cs == cs * c.len()) by (nonlinear_arith);
    }
    assert(clusters_exist(info, table, w.first_cluster, w.is_contiguous, n)) by {
        assert forall|k: int| 0 <= k < n implies (#[trigger] nth_cluster(
            info,
            table,
            w.first_cluster,
            w.is_contiguous,
            k,
        ) matches Some(x) && info.has(x)) by {
            clusters_are_found(
                info,
                table,
                reader.fs.bitmap@,
                w.first_cluster,
                w.is_contiguous,
                c,
                k,
            );
            assert(info.has(c[k]));
        }
    }
    assert forall|p: int| 0 <= p < w.new_length implies #[trigger] reader.byte(p) == chain_byte(
        reader.fs.device@,
        info,
        c,
        p,
    ) by {
        read_gives_back_written(w, reader.fs, p);
    }
}

/// What was written into an empty file is what is read from it.
pub proof fn write_then_read<'a, D: Device>(
    w0: ExFatFileWriter,
    s0: VolState,
    w1: ExFatFileWriter,
    reader: ExFatFileReader<'a, D>,
    data: Seq<u8>,
)
    requires
        reader.fs.wf(),
        w1.ready(reader.fs),
        w0.position == 0,
        w0.new_length == 0,
        w1.new_length == data.len(),
        wrote(w0, s0, w1, reader.fs.state(), reader.fs.info, data, data.len() as int),
        reader.first_cluster == w1.first_cluster,
        reader.is_contiguous == w1.is_contiguous,
        reader.valid_length == data.len(),
        reader.position == 0,
    ensures
        reader.readable(),
        read_limit(&reader, data.len() as int) == data.len(),
        Seq::new(data.len(), |i: int| reader.byte(reader.position + i)) == data,
{
    written_file_is_readable(w1, reader);
    assert forall|i: int| 0 <= i < data.len() implies reader.byte(reader.position + i)
        == data[i] by {
        let b = chain_byte(reader.fs.state().content, reader.fs.info, w1.clusters@, i);
        assert(b == data[i - w0.position]);
        assert(reader.byte(i) == b);
    }
    assert(Seq::new(data.len(), |i: int| reader.byte(reader.position + i)) =~= data);
}

/// Whether files have no cluster in common.
pub open spec fn disjoint(a: Seq<u32>, b: Seq<u32>) -> bool {
    forall|i: int| 0 <= i < b.len() ==> !a.contains(#[trigger] b[i])
}

/// A byte of a file by its number is the byte in its clusters.
pub proof fn byte_is_in_the_clusters(
    info: ExFatInfo,
    s: VolState,
    first: u32,
    contiguous: bool,
    clusters: Seq<u32>,
    p: int,
)
    requires
        info.wf(),
        owns(info, fat_table(s.content, info), s.bits, first, contiguous, clusters),
        0 <= p < clusters.len() * info.bytes_per_cluster,
    ensures
        file_byte(s.content, info, first, contiguous, p) == chain_byte(
            s.content,
            info,
            clusters,
            p,
        ),
{
    let cs = info.bytes_per_cluster as int;
    index_of(p, clusters.len() as int, cs);
    clusters_are_found(
        info,
        fat_table(s.content, info),
        s.bits,
        first,
        contiguous,
        clusters,
        p / cs,
    );
}

/// Writing at a position changes the file there and nowhere else: a byte that is read
/// afterwards is the one written at its place, and else the one that was there.
pub proof fn writing_changes_what_is_written(
    w0: ExFatFileWriter,
    s0: VolState,
    w1: ExFatFileWriter,
    s1: VolState,
    info: ExFatInfo,
    buf: Seq<u8>,
    n: int,
    p: int,
)
    requires
        info.wf(),
        owns(
            info,
            fat_table(s0.content, info),
            s0.bits,
            w0.first_cluster,
            w0.is_contiguous,
            w0.clusters@,
        ),
        owns(
            info,
            fat_table(s1.content, info),
            s1.bits,
            w1.first_cluster,
            w1.is_contiguous,
            w1.clusters@,
        ),
        wrote(w0, s0, w1, s1, info, buf, n),
        0 <= n,
        w0.position + n <= w1.clusters@.len() * info.bytes_per_cluster,
        w0.position <= p < w0.position + n || 0 <= p < w0.clusters@.len()
            * info.bytes_per_cluster,
    ensures
        file_byte(s1.content, info, w1.first_cluster, w1.is_contiguous, p) == (if w0.position <= p
            < w0.position + n {
            buf[p - w0.position]
        } else {
            file_byte(s0.content, info, w0.first_cluster, w0.is_contiguous, p)
        }),
{
    let cs = info.bytes_per_cluster as int;
    let (c0, c1) = (w0.clusters@, w1.clusters@);
    assert(c0.len() * cs <= c1.len() * cs) by (nonlinear_arith)
        requires
            c0.len() <= c1.len(),
            cs >= 0,
    ;
    byte_is_in_the_clusters(info, s1, w1.first_cluster, w1.is_contiguous, c1, p);
    if !(w0.position <= p < w0.position + n) {
        byte_is_in_the_clusters(info, s0, w0.first_cluster, w0.is_contiguous, c0, p);
    }
}

/// Writing a file leaves every other file alone: it has its clusters and its bytes.
pub proof fn writing_keeps_other_files(
    w0: ExFatFileWriter,
    s0: VolState,
    w1: ExFatFileWriter,
    s1: VolState,
    info: ExFatInfo,
    buf: Seq<u8>,
    n: int,
    first: u32,
    contiguous: bool,
    other: Seq<u32>,
)
    requires
        info.wf(),
        wrote(w0, s0, w1, s1, info, buf, n),
        owns(info, fat_table(s0.content, info), s0.bits, first, contiguous, other),
        disjoint(w0.clusters@, other),
    ensures
        owns(info, fat_table(s1.content, info), s1.bits, first, contiguous, other),
        disjoint(w1.clusters@, other),
        forall|p: int|
            0 <= p < other.len() * info.bytes_per_cluster ==> #[trigger] file_byte(
                s1.content,
                info,
                first,
                contiguous,
                p,
            ) == file_byte(s0.content, info, first, contiguous, p),
{
    reveal(only_touches);
    let (c0, c1) = (w0.clusters@, w1.clusters@);
    let (t0, t1) = (fat_table(s0.content, info), fat_table(s1.content, info));
    let cs = info.bytes_per_cluster as int;
    assert forall|i: int| 0 <= i < other.len() implies !c1.contains(#[trigger] other[i]) by {
        if c1.contains(other[i]) {
            let j = choose|j: int| 0 <= j < c1.len() && c1[j] == other[i];
            if j < c0.len() {
                assert(c0[j] == c1[j]);
                assert(c0.contains(other[i]));
            } else {
                assert(!s0.bits[c1[j] - 2]);
            }
        }
    }
    assert forall|i: int| 0 <= i < other.len() implies s1.bits[#[trigger] other[i] - 2]
        && t1[other[i] as int] == t0[other[i] as int] by {
        assert(info.has(other[i]) && s0.bits[other[i] - 2]);
        assert(s1.bits[other[i] - 2] == s0.bits[other[i] - 2]);
    }
    assert(owns(info, t1, s1.bits, first, contiguous, other));
    assert forall|p: int| 0 <= p < other.len() * cs implies #[trigger] file_byte(
        s1.content,
        info,
        first,
        contiguous,
        p,
    ) == file_byte(s0.content, info, first, contiguous, p) by {
        byte_is_in_the_clusters(info, s0, first, contiguous, other, p);
        byte_is_in_the_clusters(info, s1, first, contiguous, other, p);
        index_of(p, other.len() as int, cs);
        let d = other[p / cs];
        assert(info.has(d) && !c1.contains(d));
        assert(s1.content[info.offset(d) + p % cs] == s0.content[info.offset(d) + p % cs]);
    }
}

} // verus!
