//! Writing files.

use crate::bytes::copy_range;
#[allow(unused_imports)]
use crate::exfat::bitmap::{free_cluster, free_cluster_found, free_from};
use crate::exfat::device::Device;
#[allow(unused_imports)]
use crate::exfat::device::splice;
use crate::exfat::entry::ExFatFileEntry;
use crate::exfat::error::ExFatError;
#[allow(unused_imports)]
use crate::exfat::fat::{
    entry_at, entry_write, fat_table, same_but_fat, table_unchanged, END_OF_CHAIN, MEDIA_DESCRIPTOR,
};
#[allow(unused_imports)]
use crate::exfat::file_reader::position_parts;
#[allow(unused_imports)]
use crate::exfat::info::{clusters_are_apart, ExFatInfo};
#[allow(unused_imports)]
use crate::exfat::volume::{complete_holds_fat, VolState};
use crate::exfat::volume::ExFatVolume;
use vstd::prelude::*;

verus! {

/// Whether the given clusters are those of a file: they are clusters of the volume and in
/// use, none occurs twice, and they follow each other by number or along the FAT.
pub open spec fn owns(
    info: ExFatInfo,
    table: Seq<u32>,
    bits: Seq<bool>,
    first: u32,
    contiguous: bool,
    clusters: Seq<u32>,
) -> bool {
    &&& forall|i: int|
        0 <= i < clusters.len() ==> info.has(#[trigger] clusters[i]) && bits[clusters[i] - 2]
    &&& clusters.no_duplicates()
    &&& first == (if clusters.len() == 0 {
        0
    } else {
        clusters[0]
    })
    &&& contiguous ==> forall|i: int|
        0 <= i < clusters.len() ==> #[trigger] clusters[i] == first + i
    &&& !contiguous ==> chained(table, clusters)
}

/// Whether the FAT links the clusters in order and ends behind the last.
pub open spec fn chained(table: Seq<u32>, clusters: Seq<u32>) -> bool {
    forall|i: int|
        0 <= i < clusters.len() ==> if i + 1 < clusters.len() {
            #[trigger] table[clusters[i] as int] == clusters[i + 1]
        } else {
            table[clusters[i] as int] >= MEDIA_DESCRIPTOR
        }
}

/// Byte of the device that holds byte `p` of the file with the given clusters.
pub open spec fn byte_address(info: ExFatInfo, clusters: Seq<u32>, p: int) -> int {
    let cs = info.bytes_per_cluster as int;
    info.offset(clusters[p / cs]) + p % cs
}

/// Byte `p` of the file with the given clusters.
pub open spec fn chain_byte(content: Seq<u8>, info: ExFatInfo, clusters: Seq<u32>, p: int) -> u8 {
    content[byte_address(info, clusters, p)]
}

/// Whether a byte of the device lies in one of the clusters.
pub open spec fn lies_in(info: ExFatInfo, clusters: Seq<u32>, i: int) -> bool {
    exists|k: int|
        0 <= k < clusters.len() && info.offset(#[trigger] clusters[k]) <= i < info.offset(
            clusters[k],
        ) + info.bytes_per_cluster
}

/// Whether two contents differ in the entries of the FAT and in the given clusters at most.
#[verifier::opaque]
pub open spec fn keeps_rest(info: ExFatInfo, a: Seq<u8>, b: Seq<u8>, clusters: Seq<u32>) -> bool {
    forall|i: int|
        0 <= i < a.len() && !(entry_at(info, 2) <= i < entry_at(info, info.cluster_count + 2))
            && !lies_in(info, clusters, i) ==> #[trigger] b[i] == a[i]
}

/// Whether nothing but the given clusters differs between two states of a volume: neither
/// what other clusters hold, nor their entries in the FAT, nor whether they are in use, nor
/// what stands outside the clusters and the FAT.
#[verifier::opaque]
pub open spec fn only_touches(
    info: ExFatInfo,
    a: VolState,
    b: VolState,
    clusters: Seq<u32>,
) -> bool {
    &&& a.content.len() == b.content.len()
    &&& forall|d: u32|
        info.has(d) && !clusters.contains(d) ==> {
            &&& #[trigger] b.bits[d - 2] == a.bits[d - 2]
            &&& fat_table(b.content, info)[d as int] == fat_table(a.content, info)[d as int]
        }
    &&& forall|d: u32, i: int|
        #![trigger b.content[info.offset(d) + i]]
        info.has(d) && !clusters.contains(d) && 0 <= i < info.bytes_per_cluster
            ==> b.content[info.offset(d) + i] == a.content[info.offset(d) + i]
    &&& keeps_rest(info, a.content, b.content, clusters)
}

/// Writes a file.
pub struct ExFatFileWriter {
    /// The entry of the file.
    pub entry: ExFatFileEntry,
    /// First cluster; 0 where nothing is allocated.
    pub first_cluster: u32,
    /// Cluster that is being written; 0 where nothing is allocated.
    pub current_cluster: u32,
    /// Position within this cluster.
    pub cluster_offset: usize,
    /// Position within the file.
    pub position: u64,
    /// Whether the clusters follow each other without the FAT.
    pub is_contiguous: bool,
    /// Size of the file.
    pub new_length: u64,
    /// Bytes of all clusters.
    pub allocated_length: u64,
    /// The clusters of the file.
    pub clusters: Ghost<Seq<u32>>,
}

/// Bytes in whole clusters.
pub open spec fn whole_clusters(len: int, cs: int) -> int {
    (len + cs - 1) / cs * cs
}

impl ExFatFileWriter {
    /// Number of the cluster that is being written.
    pub open spec fn index(&self, cs: int) -> int {
        (self.position - self.cluster_offset) / cs
    }

    /// Whether the writer knows the clusters of its file, and cluster and offset belong to
    /// the position.
    pub open spec fn inv<D: Device>(&self, fs: &ExFatVolume<D>) -> bool {
        let cs = fs.info.bytes_per_cluster as int;
        let c = self.clusters@;
        let k = self.index(cs);
        &&& owns(
            fs.info,
            fat_table(fs.device@, fs.info),
            fs.bitmap@,
            self.first_cluster,
            self.is_contiguous,
            c,
        )
        &&& self.is_contiguous ==> self.allocated_length == c.len() * cs
        &&& self.new_length <= c.len() * cs
        &&& self.position <= self.new_length
        &&& self.cluster_offset <= cs
        &&& c.len() == 0 ==> self.current_cluster == 0 && self.position == 0 && self.cluster_offset
            == 0
        &&& c.len() > 0 ==> {
            &&& 0 <= k < c.len()
            &&& self.current_cluster == c[k]
            &&& self.position == k * cs + self.cluster_offset
        }
    }

    /// Whether the device never fails and holds the whole volume, and the writer knows its
    /// clusters.
    pub open spec fn ready<D: Device>(&self, fs: &ExFatVolume<D>) -> bool {
        &&& D::infallible()
        &&& fs.complete()
        &&& self.inv(fs)
    }

    /// Starts to write a file at its beginning.
    pub fn new<D: Device>(fs: &ExFatVolume<D>, entry: ExFatFileEntry) -> (r: Result<
        Self,
        ExFatError,
    >)
        requires
            fs.wf(),
        ensures
            r is Err <==> entry.attributes.is_dir(),
            r matches Err(e) ==> e == ExFatError::NotAFile,
            r matches Ok(w) ==> {
                let cs = fs.info.bytes_per_cluster as int;
                &&& w.entry == entry
                &&& w.position == 0
                &&& w.new_length == entry.valid_data_length
                &&& w.first_cluster == entry.first_cluster
                &&& w.is_contiguous == entry.no_fat_chain
                &&& forall|c: Seq<u32>|
                    #![trigger c.no_duplicates()]
                    entry_owns(fs, entry, c) ==> w.inv(fs) && entry_owns(fs, entry, w.clusters@)
            },
    {
        if entry.is_directory() {
            return Err(ExFatError::NotAFile);
        }
        let cs: u64 = fs.info.bytes_per_cluster as u64;
        let ghost csi = cs as int;
        proof {
            let n = (entry.data_length + csi - 1) / csi;
            vstd::arithmetic::div_mod::lemma_fundamental_div_mod(
                entry.data_length + csi - 1,
                csi,
            );
            vstd::arithmetic::div_mod::lemma_mod_bound(entry.data_length + csi - 1, csi);
            vstd::arithmetic::div_mod::lemma_div_pos_is_pos(entry.data_length + csi - 1, csi);
            assert(n * csi == csi * n) by (nonlinear_arith);
            vstd::arithmetic::div_mod::lemma_fundamental_div_mod_converse(0, csi, 0, 0);
        }
        let whole: u128 = (entry.data_length as u128 + (cs as u128 - 1)) / cs as u128 * cs as u128;
        let allocated: u64 = if whole > 0xFFFF_FFFF_FFFF_FFFF {
            0xFFFF_FFFF_FFFF_FFFF
        } else {
            whole as u64
        };
        let ghost known = choose|c: Seq<u32>| #[trigger] entry_owns(fs, entry, c);
        let first_cluster: u32 = entry.first_cluster;
        let is_contiguous: bool = entry.no_fat_chain;
        let new_length: u64 = entry.valid_data_length;
        let w: ExFatFileWriter = ExFatFileWriter {
            entry,
            first_cluster,
            current_cluster: first_cluster,
            cluster_offset: 0,
            position: 0,
            is_contiguous,
            new_length,
            allocated_length: allocated,
            clusters: Ghost(known),
        };
        proof {
            assert forall|c: Seq<u32>|
                #![trigger c.no_duplicates()]
                entry_owns(fs, entry, c) implies w.inv(fs) && entry_owns(
                fs,
                entry,
                w.clusters@,
            ) by {
                assert(entry_owns(fs, entry, known));
                assert(0 * csi == 0);
                crate::exfat::file_laws::clusters_are_few(fs.info, known);
                assert(known.len() * csi <= 0xFFFFFFFF * 33554432) by (nonlinear_arith)
                    requires
                        0 <= known.len() <= 0xFFFFFFFF,
                        0 <= csi <= 33554432,
                ;
            }
        }
        Ok(w)
    }

    /// The position within the file.
    pub fn position(&self) -> (r: u64)
        ensures
            r == self.position,
    {
        self.position
    }

    /// The size of the file.
    pub fn bytes_written(&self) -> (r: u64)
        ensures
            r == self.new_length,
    {
        self.new_length
    }

    /// Takes another cluster into use and links it behind the current one, which must be the
    /// last. Clusters that followed each other so far are linked first. Where no cluster is
    /// free, nothing changes.
    fn allocate_next_cluster<D: Device>(&mut self, fs: &mut ExFatVolume<D>) -> (r: Result<
        u32,
        ExFatError,
    >)
        requires
            old(fs).wf(),
        ensures
            final(fs).wf(),
            final(fs).same_volume(old(fs)),
            same_position(*old(self), *final(self)),
            at_last(old(self), old(fs)) && old(self).ready(old(fs)) ==> match r {
                Ok(c) => {
                    let more = old(self).clusters@.push(c);
                    &&& old(fs).info.has(c)
                    &&& !old(fs).bitmap@[c - 2]
                    &&& !final(self).is_contiguous
                    &&& final(self).clusters@ == more
                    &&& owns(
                        final(fs).info,
                        fat_table(final(fs).device@, final(fs).info),
                        final(fs).bitmap@,
                        final(self).first_cluster,
                        false,
                        more,
                    )
                    &&& only_touches(old(fs).info, old(fs).state(), final(fs).state(), more)
                    &&& same_but_fat(old(fs).device@, final(fs).device@, old(fs).info)
                },
                Err(e) => {
                    &&& e == ExFatError::NoFreeSpace
                    &&& *final(self) == *old(self)
                    &&& final(fs).state() == old(fs).state()
                    &&& forall|k: int|
                        0 <= k < old(fs).bitmap@.len() ==> #[trigger] old(fs).bitmap@[k]
                },
            },
    {
        let ghost info = fs.info;
        let ghost good = at_last(self, fs) && self.ready(fs);
        let ghost c0 = self.clusters@;
        let ghost s0 = fs.state();
        let hint: u32 = self.current_cluster.saturating_add(1);
        if fs.bitmap.find_free_cluster(hint).is_none() {
            proof {
                free_cluster_found(s0.bits, hint);
            }
            return Err(ExFatError::NoFreeSpace);
        }
        match self.linearize_contiguous_prefix(fs) {
            Ok(_) => {},
            Err(e) => {
                return Err(e);
            },
        }
        let ghost s1 = fs.state();
        let new_cluster: u32 = match fs.allocate_cluster(hint) {
            Ok(c) => c,
            Err(e) => {
                return Err(e);
            },
        };
        let ghost s2 = fs.state();
        proof {
            if good {
                free_cluster_found(s1.bits, hint);
                complete_holds_fat(info);
                entry_write(s1.content, info, new_cluster, END_OF_CHAIN);
            }
        }
        if self.current_cluster >= 2 {
            match fs.set_fat_entry(self.current_cluster, new_cluster) {
                Ok(_) => {},
                Err(e) => {
                    return Err(e);
                },
            }
        }
        self.is_contiguous = false;
        let cs: u64 = fs.info.bytes_per_cluster as u64;
        self.allocated_length = self.allocated_length.saturating_add(cs);
        proof {
            self.clusters@ = c0.push(new_cluster);
            if good {
                let cur = self.current_cluster;
                entry_write(s2.content, info, cur, new_cluster);
                appended(
                    info,
                    s0,
                    s1,
                    fs.state(),
                    old(self).first_cluster,
                    old(self).is_contiguous,
                    c0,
                    new_cluster,
                );
            }
        }
        Ok(new_cluster)
    }

    /// Links the clusters up to the current one, where they followed each other without the
    /// FAT.
    fn linearize_contiguous_prefix<D: Device>(&self, fs: &mut ExFatVolume<D>) -> (r: Result<
        (),
        ExFatError,
    >)
        requires
            old(fs).wf(),
        ensures
            final(fs).wf(),
            final(fs).same_volume(old(fs)),
            final(fs).bitmap@ == old(fs).bitmap@,
            !self.is_contiguous ==> final(fs).device@ == old(fs).device@,
            at_last(self, old(fs)) && self.ready(old(fs)) ==> {
                let t = fat_table(final(fs).device@, final(fs).info);
                &&& r is Ok
                &&& same_but_fat(old(fs).device@, final(fs).device@, old(fs).info)
                &&& linked_but_last(t, self.clusters@)
                &&& forall|d: u32|
                    old(fs).info.has(d) && !self.clusters@.contains(d) ==> #[trigger] t[d as int]
                        == fat_table(old(fs).device@, old(fs).info)[d as int]
            },
    {
        let ghost info = fs.info;
        let ghost good = at_last(self, fs) && self.ready(fs);
        let ghost c0 = self.clusters@;
        let ghost t0 = fat_table(fs.device@, info);
        let ghost content0 = fs.device@;
        if self.is_contiguous && self.first_cluster >= 2 {
            let mut c: u32 = self.first_cluster;
            while c < self.current_cluster
                invariant
                    self.first_cluster >= 2,
                    self.first_cluster <= c,
                    c <= self.current_cluster || c == self.first_cluster,
                    self.is_contiguous,
                    fs.wf(),
                    fs.same_volume(old(fs)),
                    fs.bitmap@ == old(fs).bitmap@,
                    fs.info == info,
                    old(fs).info == info,
                    content0 == old(fs).device@,
                    t0 == fat_table(content0, info),
                    good == (at_last(self, old(fs)) && self.ready(old(fs))),
                    c0 == self.clusters@,
                    good ==> {
                        let t = fat_table(fs.device@, info);
                        &&& same_but_fat(content0, fs.device@, info)
                        &&& forall|i: int|
                            0 <= i < c - self.first_cluster ==> t[(#[trigger] c0[i]) as int]
                                == c0[i] + 1
                        &&& forall|d: u32|
                            info.has(d) && !c0.contains(d) ==> #[trigger] t[d as int]
                                == t0[d as int]
                    },
                decreases self.current_cluster - c,
            {
                let ghost t = fat_table(fs.device@, info);
                let ghost i = c - self.first_cluster;
                proof {
                    if good {
                        assert(c0[i] == c);
                        assert(info.has(c0[i]));
                        assert(c0.contains(c));
                        complete_holds_fat(info);
                        entry_write(fs.device@, info, c, (c + 1) as u32);
                    }
                }
                match fs.set_fat_entry(c, c + 1) {
                    Ok(_) => {},
                    Err(e) => {
                        return Err(e);
                    },
                }
                c += 1;
            }
            proof {
                if good {
                    let t = fat_table(fs.device@, info);
                    assert forall|i: int| 0 <= i < c0.len() - 1 implies t[(
                    #[trigger] c0[i]) as int] == c0[i + 1] by {
                        assert(c0[i + 1] == self.first_cluster + i + 1);
                    }
                }
            }
        } else {
            proof {
                if good {
                    assert(info.has(c0[0]));
                    assert forall|i: int| 0 <= i < c0.len() - 1 implies t0[(
                    #[trigger] c0[i]) as int] == c0[i + 1] by {}
                }
            }
        }
        Ok(())
    }

    /// Writes bytes at the position and says how many. It writes as many as clusters can be
    /// had.
    #[verifier::rlimit(80)]
    pub fn write<D: Device>(&mut self, fs: &mut ExFatVolume<D>, buf: &[u8]) -> (r: Result<
        usize,
        ExFatError,
    >)
        requires
            old(fs).wf(),
            old(self).position + buf@.len() <= u64::MAX,
        ensures
            final(fs).wf(),
            final(fs).same_volume(old(fs)),
            final(self).entry == old(self).entry,
            r matches Ok(n) ==> n <= buf@.len() && final(self).position == old(self).position + n,
            r matches Err(e) ==> e == ExFatError::Io,
            old(self).ready(old(fs)) ==> (r matches Ok(n) && {
                &&& final(self).inv(final(fs))
                &&& final(self).new_length == (if old(self).position + n > old(self).new_length {
                    (old(self).position + n) as u64
                } else {
                    old(self).new_length
                })
                &&& wrote(
                    *old(self),
                    old(fs).state(),
                    *final(self),
                    final(fs).state(),
                    old(fs).info,
                    buf@,
                    n as int,
                )
                &&& final(self).clusters@.len() == clusters_needed(
                    old(self).clusters@.len() as int,
                    old(self).position + n,
                    old(fs).info.bytes_per_cluster as int,
                )
                &&& final(self).clusters@.len() == old(self).clusters@.len() ==> same_allocation(
                    old(fs).info,
                    *old(self),
                    old(fs).state(),
                    *final(self),
                    final(fs).state(),
                )
                &&& n < buf@.len() ==> old(self).position + n == final(self).clusters@.len()
                    * old(fs).info.bytes_per_cluster && out_of_clusters(*final(self), final(fs))
            }),
    {
        if buf.len() == 0 {
            proof {
                nothing_written(*self, fs.state(), fs.info, buf@);
                if self.ready(fs) {
                    few_clusters_needed(*self, fs.info.bytes_per_cluster as int);
                }
            }
            return Ok(0);
        }
        let ghost info = fs.info;
        let ghost good = self.ready(fs);
        let cs: usize = fs.info.bytes_per_cluster;
        let ghost w0 = *self;
        let ghost s0 = fs.state();
        let ghost p0 = self.position as int;
        let mut total: usize = 0;
        proof {
            if good {
                progress_starts(*self, fs.state(), fs.info, buf@);
            }
        }
        while total < buf.len()
            invariant
                total <= buf@.len(),
                fs.wf(),
                fs.same_volume(old(fs)),
                fs.info == info,
                info.wf(),
                old(fs).info == info,
                s0 == old(fs).state(),
                w0 == *old(self),
                p0 == w0.position,
                p0 + buf@.len() <= u64::MAX,
                cs == info.bytes_per_cluster,
                self.position == p0 + total,
                self.cluster_offset <= cs || !good,
                self.entry == old(self).entry,
                good == old(self).ready(old(fs)),
                good ==> {
                    &&& self.ready(fs)
                    &&& self.new_length == (if self.position > w0.new_length {
                        self.position
                    } else {
                        w0.new_length
                    })
                    &&& progress(w0, s0, *self, fs.state(), info, buf@, total as int)
                },
            decreases buf.len() - total,
        {
            let ghost w1 = *self;
            let ghost s1 = fs.state();
            if self.current_cluster == 0 || self.cluster_offset >= cs {
                if !self.advance(fs) {
                    proof {
                        if good {
                            progress_stops(
                                w0,
                                s0,
                                w1,
                                s1,
                                *self,
                                fs.state(),
                                info,
                                buf@,
                                total as int,
                            );
                            reveal(progress);
                        }
                    }
                    return Ok(total);
                }
            } else {
                proof {
                    nothing_touched(info, s1, w1.clusters@);
                }
            }
            let in_cluster: usize = cs - self.cluster_offset;
            let in_buf: usize = buf.len() - total;
            let count: usize = if in_cluster < in_buf {
                in_cluster
            } else {
                in_buf
            };
            let chunk: Vec<u8> = copy_range(buf, total, total + count);
            let ghost w2 = *self;
            let ghost s2 = fs.state();
            match self.put(fs, &chunk) {
                Ok(_) => {},
                Err(e) => {
                    return Err(e);
                },
            }
            proof {
                if good {
                    progress_goes_on(
                        w0,
                        s0,
                        w1,
                        s1,
                        w2,
                        s2,
                        *self,
                        fs.state(),
                        info,
                        buf@,
                        total as int,
                        chunk@,
                    );
                }
            }
            total = total + count;
        }
        reveal(progress);
        Ok(total)
    }

    /// Writes all bytes, or fails where no more can be written.
    pub fn write_all<D: Device>(&mut self, fs: &mut ExFatVolume<D>, buf: &[u8]) -> (r: Result<
        (),
        ExFatError,
    >)
        requires
            old(fs).wf(),
            old(self).position + buf@.len() <= u64::MAX,
        ensures
            final(fs).wf(),
            final(fs).same_volume(old(fs)),
            final(self).entry == old(self).entry,
            r is Ok ==> final(self).position == old(self).position + buf@.len(),
            old(self).ready(old(fs)) ==> {
                &&& final(self).inv(final(fs))
                &&& match r {
                    Ok(_) => {
                        &&& wrote(
                            *old(self),
                            old(fs).state(),
                            *final(self),
                            final(fs).state(),
                            old(fs).info,
                            buf@,
                            buf@.len() as int,
                        )
                        &&& final(self).new_length == (if old(self).position + buf@.len() > old(
                            self,
                        ).new_length {
                            (old(self).position + buf@.len()) as u64
                        } else {
                            old(self).new_length
                        })
                        &&& final(self).clusters@.len() == clusters_needed(
                            old(self).clusters@.len() as int,
                            old(self).position + buf@.len(),
                            old(fs).info.bytes_per_cluster as int,
                        )
                        &&& final(self).clusters@.len() == old(self).clusters@.len()
                            ==> same_allocation(
                            old(fs).info,
                            *old(self),
                            old(fs).state(),
                            *final(self),
                            final(fs).state(),
                        )
                    },
                    Err(e) => {
                        let n = final(self).clusters@.len() * old(fs).info.bytes_per_cluster
                            - old(self).position;
                        &&& e == ExFatError::WriteZero
                        &&& out_of_clusters(*final(self), final(fs))
                        &&& 0 <= n < buf@.len()
                        &&& wrote(
                            *old(self),
                            old(fs).state(),
                            *final(self),
                            final(fs).state(),
                            old(fs).info,
                            buf@,
                            n,
                        )
                    },
                }
            },
    {
        let n: usize = match self.write(fs, buf) {
            Ok(n) => n,
            Err(e) => {
                return Err(e);
            },
        };
        if n < buf.len() {
            return Err(ExFatError::WriteZero);
        }
        Ok(())
    }

    /// Goes to the next cluster of the file, or takes one into use; says whether there was
    /// one to be had.
    #[verifier::spinoff_prover]
    #[verifier::rlimit(100)]
    fn advance<D: Device>(&mut self, fs: &mut ExFatVolume<D>) -> (r: bool)
        requires
            old(fs).wf(),
            old(self).current_cluster == 0 || old(self).cluster_offset
                >= old(fs).info.bytes_per_cluster,
        ensures
            final(fs).wf(),
            final(fs).same_volume(old(fs)),
            final(self).entry == old(self).entry,
            final(self).position == old(self).position,
            final(self).new_length == old(self).new_length,
            r ==> final(self).cluster_offset == 0,
            old(self).ready(old(fs)) ==> {
                &&& final(self).inv(final(fs))
                &&& r ==> final(self).clusters@.len() > 0
                &&& !r ==> out_of_clusters(*final(self), final(fs))
                &&& advanced_by(
                    *old(self),
                    old(fs).state(),
                    *final(self),
                    final(fs).state(),
                    old(fs).info.bytes_per_cluster as int,
                    r,
                )
                &&& extends(old(self).clusters@, final(self).clusters@)
                &&& gained_free(old(fs).bitmap@, old(self).clusters@, final(self).clusters@)
                &&& only_touches(
                    old(fs).info,
                    old(fs).state(),
                    final(fs).state(),
                    final(self).clusters@,
                )
                &&& same_but_fat(old(fs).device@, final(fs).device@, old(fs).info)
            },
    {
        let ghost info = fs.info;
        let ghost csi = info.bytes_per_cluster as int;
        let ghost good = self.ready(fs);
        let ghost c0 = self.clusters@;
        let ghost s0 = fs.state();
        let ghost k = self.index(csi);
        let cs: u64 = fs.info.bytes_per_cluster as u64;
        proof {
            nothing_touched(info, s0, c0);
            if good && c0.len() > 0 {
                assert(info.has(c0[k]));
                next_start(self.position as int, k, csi);
                behind_cluster(self.position as int, k, c0.len() as int, csi);
            }
        }
        let new_cluster: u32 = if self.current_cluster == 0 {
            match fs.allocate_cluster(2) {
                Ok(c) => {
                    proof {
                        if good {
                            free_cluster_found(s0.bits, 2);
                            complete_holds_fat(info);
                            entry_write(s0.content, info, c, END_OF_CHAIN);
                            first_allocated(info, s0, fs.state(), c, self.is_contiguous);
                        }
                        self.clusters@ = seq![c];
                    }
                    self.first_cluster = c;
                    self.allocated_length = cs;
                    c
                },
                Err(_) => {
                    proof {
                        if good {
                            free_cluster_found(s0.bits, 2);
                        }
                    }
                    return false;
                },
            }
        } else if self.is_contiguous {
            let owned: u64 = self.allocated_length / cs;
            let next: u64 = self.current_cluster as u64 + 1;
            proof {
                if good {
                    vstd::arithmetic::div_mod::lemma_div_by_multiple(c0.len() as int, csi);
                    assert(c0[k] == self.first_cluster + k);
                }
            }
            if next >= self.first_cluster as u64 && next - (self.first_cluster as u64) < owned {
                proof {
                    if good {
                        assert(k + 1 < c0.len());
                        assert(c0[k + 1] == next);
                        assert(info.has(c0[k + 1]));
                    }
                }
                if next > 0xFFFFFFFF {
                    return false;
                }
                next as u32
            } else if next <= 0xFFFFFFFF && fs.info.is_valid_cluster(next as u32) {
                let next: u32 = next as u32;
                assert(good ==> k + 1 == c0.len());
                let is_free: bool = match fs.is_cluster_allocated(next) {
                    Ok(used) => !used,
                    Err(_) => false,
                };
                if is_free {
                    proof {
                        assert(free_from(s0.bits, next - 2) == next - 2);
                        assert(free_cluster(s0.bits, next) == Some(next));
                    }
                    match fs.allocate_cluster(next) {
                        Ok(c) => {
                            proof {
                                if good {
                                    complete_holds_fat(info);
                                    entry_write(s0.content, info, c, END_OF_CHAIN);
                                    run_extended(
                                        info,
                                        s0,
                                        fs.state(),
                                        self.first_cluster,
                                        c0,
                                        c,
                                    );
                                    more_clusters(c0.len() as int, csi);
                                    assert(info.has(c0[c0.len() - 1]));
                                    assert(c0.len() * csi <= 0xFFFFFFFF * 33554432)
                                        by (nonlinear_arith)
                                        requires
                                            0 <= c0.len() <= 0xFFFFFFFF,
                                            0 <= csi <= 33554432,
                                    ;
                                }
                                self.clusters@ = c0.push(c);
                            }
                            self.allocated_length = self.allocated_length.saturating_add(cs);
                            c
                        },
                        Err(_) => match self.allocate_next_cluster(fs) {
                            Ok(c) => c,
                            Err(_) => {
                                return false;
                            },
                        },
                    }
                } else {
                    match self.allocate_next_cluster(fs) {
                        Ok(c) => {
                            proof {
                                if good {
                                    more_clusters(c0.len() as int, csi);
                                }
                            }
                            c
                        },
                        Err(_) => {
                            return false;
                        },
                    }
                }
            } else {
                proof {
                    if good {
                        assert(k + 1 == c0.len());
                    }
                }
                return false;
            }
        } else {
            let follows: Option<u32> = match fs.next_cluster(self.current_cluster) {
                Ok(next) => next,
                Err(_) => None,
            };
            match follows {
                Some(next) => {
                    proof {
                        if good {
                            assert(fat_table(s0.content, info)[c0[k] as int] == next);
                            assert(k + 1 < c0.len());
                            assert(next == c0[k + 1]);
                        }
                    }
                    next
                },
                None => {
                    proof {
                        if good {
                            if k + 1 < c0.len() {
                                assert(fat_table(s0.content, info)[c0[k] as int] == c0[k + 1]);
                                assert(info.has(c0[k + 1]));
                            }
                            assert(k + 1 == c0.len());
                        }
                    }
                    match self.allocate_next_cluster(fs) {
                        Ok(c) => {
                            proof {
                                if good {
                                    more_clusters(c0.len() as int, csi);
                                }
                            }
                            c
                        },
                        Err(_) => {
                            return false;
                        },
                    }
                },
            }
        };
        self.current_cluster = new_cluster;
        self.cluster_offset = 0;
        proof {
            if good {
                let k1 = if c0.len() == 0 {
                    0int
                } else {
                    k + 1
                };
                assert(self.position == k1 * csi);
                assert(self.index(csi) == k1) by {
                    vstd::arithmetic::div_mod::lemma_div_by_multiple(k1, csi);
                }
                assert(self.clusters@[k1] == new_cluster);
            }
        }
        true
    }

    /// Writes bytes into the current cluster.
    fn put<D: Device>(&mut self, fs: &mut ExFatVolume<D>, chunk: &Vec<u8>) -> (r: Result<
        (),
        ExFatError,
    >)
        requires
            old(fs).wf(),
            chunk@.len() > 0,
            old(self).cluster_offset + chunk@.len() <= old(fs).info.bytes_per_cluster,
            old(self).position + chunk@.len() <= u64::MAX,
        ensures
            final(fs).wf(),
            final(fs).same_volume(old(fs)),
            final(self).entry == old(self).entry,
            final(self).cluster_offset <= old(fs).info.bytes_per_cluster,
            r matches Err(e) ==> e == ExFatError::Io,
            r is Ok ==> final(self).position == old(self).position + chunk@.len(),
            old(self).ready(old(fs)) && old(self).clusters@.len() > 0 ==> {
                &&& r is Ok
                &&& final(self).inv(final(fs))
                &&& final(self).clusters == old(self).clusters
                &&& final(self).first_cluster == old(self).first_cluster
                &&& final(self).is_contiguous == old(self).is_contiguous
                &&& final(self).new_length == (if old(self).position + chunk@.len() > old(
                    self,
                ).new_length {
                    (old(self).position + chunk@.len()) as u64
                } else {
                    old(self).new_length
                })
                &&& final(fs).bitmap@ == old(fs).bitmap@
                &&& final(fs).device@ == splice(
                    old(fs).device@,
                    byte_address(
                        old(fs).info,
                        old(self).clusters@,
                        old(self).position as int,
                    ),
                    chunk@,
                )
            },
    {
        let ghost info = fs.info;
        let ghost csi = info.bytes_per_cluster as int;
        let ghost good = self.ready(fs) && self.clusters@.len() > 0;
        let ghost c = self.clusters@;
        let ghost k = self.index(csi);
        let offset: u64 = fs.info.cluster_to_offset(self.current_cluster)
            + self.cluster_offset as u64;
        proof {
            if good {
                assert(info.has(c[k]));
                clusters_are_apart(info, c[k], c[k]);
                position_parts(self.position as int, k, self.cluster_offset as int, csi);
            }
        }
        match fs.write_at(offset, chunk.as_slice()) {
            Ok(_) => {},
            Err(e) => {
                return Err(e);
            },
        }
        self.cluster_offset = self.cluster_offset + chunk.len();
        self.position = self.position + chunk.len() as u64;
        if self.position > self.new_length {
            self.new_length = self.position;
        }
        proof {
            if good {
                assert forall|i: int|
                    entry_at(info, 0) <= i < entry_at(info, info.cluster_count + 2) && i
                        < fs.device@.len() implies #[trigger] old(fs).device@[i]
                    == fs.device@[i] by {}
                table_unchanged(old(fs).device@, fs.device@, info);
                assert(self.position - self.cluster_offset == k * csi);
                assert(self.index(csi) == k) by {
                    vstd::arithmetic::div_mod::lemma_div_by_multiple(k, csi);
                }
                assert((k + 1) * csi <= c.len() * csi) by (nonlinear_arith)
                    requires
                        k + 1 <= c.len(),
                        csi > 0,
                ;
                assert((k + 1) * csi == k * csi + csi) by (nonlinear_arith);
            }
        }
        Ok(())
    }
}

/// Whether neither the clusters of a file nor the state of any cluster changed.
pub open spec fn same_allocation(
    info: ExFatInfo,
    w0: ExFatFileWriter,
    s0: VolState,
    w1: ExFatFileWriter,
    s1: VolState,
) -> bool {
    &&& w1.clusters@ == w0.clusters@
    &&& w1.first_cluster == w0.first_cluster
    &&& w1.is_contiguous == w0.is_contiguous
    &&& s1.bits == s0.bits
    &&& fat_table(s1.content, info) == fat_table(s0.content, info)
}

/// Whether a writer behind a cluster went to the next of its file, or where there is none
/// gained one, or where none was to be had changed nothing.
spec fn advanced_by(
    w0: ExFatFileWriter,
    s0: VolState,
    w1: ExFatFileWriter,
    s1: VolState,
    cs: int,
    r: bool,
) -> bool {
    let same = w1.clusters@ == w0.clusters@ && w1.first_cluster == w0.first_cluster
        && w1.is_contiguous == w0.is_contiguous && s1 == s0;
    if w0.position < w0.clusters@.len() * cs {
        r && same
    } else {
        &&& w0.position == w0.clusters@.len() * cs
        &&& r ==> w1.clusters@.len() == w0.clusters@.len() + 1
        &&& !r ==> same
    }
}

/// How many clusters a size takes.
pub open spec fn cluster_number(len: int, cs: int) -> int {
    (len + cs - 1) / cs
}

/// How many clusters a file has once it was written up to a position.
pub open spec fn clusters_needed(before: int, position: int, cs: int) -> int {
    if cluster_number(position, cs) > before {
        cluster_number(position, cs)
    } else {
        before
    }
}

proof fn cluster_number_of(k: int, off: int, cs: int)
    requires
        cs > 0,
        0 <= off <= cs,
    ensures
        cluster_number(k * cs + off, cs) == (if off == 0 {
            k
        } else {
            k + 1
        }),
{
    if off == 0 {
        vstd::arithmetic::div_mod::lemma_fundamental_div_mod_converse(
            k * cs + cs - 1,
            cs,
            k,
            cs - 1,
        );
    } else {
        assert((k + 1) * cs == k * cs + cs) by (nonlinear_arith);
        vstd::arithmetic::div_mod::lemma_fundamental_div_mod_converse(
            k * cs + off + cs - 1,
            cs,
            k + 1,
            off - 1,
        );
    }
}

/// Whether two writers of one file are at the same position.
pub open spec fn same_position(a: ExFatFileWriter, b: ExFatFileWriter) -> bool {
    &&& a.entry == b.entry
    &&& a.first_cluster == b.first_cluster
    &&& a.current_cluster == b.current_cluster
    &&& a.cluster_offset == b.cluster_offset
    &&& a.position == b.position
    &&& a.new_length == b.new_length
}

/// Whether the last cluster is being written.
pub open spec fn at_last<D: Device>(w: &ExFatFileWriter, fs: &ExFatVolume<D>) -> bool {
    &&& w.clusters@.len() > 0
    &&& w.index(fs.info.bytes_per_cluster as int) == w.clusters@.len() - 1
}

/// Whether the FAT links the clusters in order, whatever it says of the last.
pub open spec fn linked_but_last(table: Seq<u32>, clusters: Seq<u32>) -> bool {
    forall|i: int|
        0 <= i < clusters.len() - 1 ==> table[(#[trigger] clusters[i]) as int] == clusters[i + 1]
}

/// Whether `b` starts with `a`.
pub open spec fn extends(a: Seq<u32>, b: Seq<u32>) -> bool {
    &&& a.len() <= b.len()
    &&& forall|i: int| 0 <= i < a.len() ==> #[trigger] b[i] == a[i]
}

/// Whether no more cluster can be had: all are in use, or the clusters follow each other up
/// to the end of the volume.
pub open spec fn out_of_clusters<D: Device>(w: ExFatFileWriter, fs: &ExFatVolume<D>) -> bool {
    ||| forall|k: int| 0 <= k < fs.bitmap@.len() ==> #[trigger] fs.bitmap@[k]
    ||| w.is_contiguous && w.clusters@.len() > 0 && w.clusters@.last() == fs.info.cluster_count + 1
}

/// Whether the clusters that `b` has behind those of `a` were free.
pub open spec fn gained_free(bits: Seq<bool>, a: Seq<u32>, b: Seq<u32>) -> bool {
    forall|i: int| a.len() <= i < b.len() ==> !bits[(#[trigger] b[i]) - 2]
}

/// Whether the first `n` bytes of `buf` were written at the position: the file has them
/// there, is as it was elsewhere, the clusters that it gained were free, and nothing but its
/// clusters was touched.
pub open spec fn wrote(
    w0: ExFatFileWriter,
    s0: VolState,
    w1: ExFatFileWriter,
    s1: VolState,
    info: ExFatInfo,
    buf: Seq<u8>,
    n: int,
) -> bool {
    let cs = info.bytes_per_cluster as int;
    let (c0, c1) = (w0.clusters@, w1.clusters@);
    let p0 = w0.position as int;
    &&& extends(c0, c1)
    &&& gained_free(s0.bits, c0, c1)
    &&& forall|p: int|
        p0 <= p < p0 + n ==> #[trigger] chain_byte(s1.content, info, c1, p) == buf[p - p0]
    &&& forall|p: int|
        0 <= p < c0.len() * cs && !(p0 <= p < p0 + n) ==> #[trigger] chain_byte(
            s1.content,
            info,
            c1,
            p,
        ) == chain_byte(s0.content, info, c0, p)
    &&& only_touches(info, s0, s1, c1)
}

/// A file has the clusters up to any position in it.
proof fn few_clusters_needed(w: ExFatFileWriter, cs: int)
    requires
        cs > 0,
        w.position <= w.clusters@.len() * cs,
    ensures
        clusters_needed(w.clusters@.len() as int, w.position as int, cs) == w.clusters@.len(),
{
    let n = w.clusters@.len() as int;
    let p = w.position as int;
    cluster_number_of(n, 0, cs);
    vstd::arithmetic::div_mod::lemma_div_is_ordered(p + cs - 1, n * cs + cs - 1, cs);
}

/// How many clusters a file has once a chunk was put into the one at its position.
proof fn counted_clusters(
    n0: int,
    before: ExFatFileWriter,
    w1: ExFatFileWriter,
    count: int,
    cs: int,
)
    requires
        cs > 0,
        count > 0,
        before.position == w1.position,
        before.clusters@.len() == clusters_needed(n0, before.position as int, cs),
        w1.clusters@.len() == before.clusters@.len() || (w1.clusters@.len()
            == before.clusters@.len() + 1 && before.position == before.clusters@.len() * cs),
        0 <= w1.index(cs) < w1.clusters@.len(),
        w1.position == w1.index(cs) * cs + w1.cluster_offset,
        w1.cluster_offset + count <= cs,
    ensures
        w1.clusters@.len() == clusters_needed(n0, w1.position + count, cs),
{
    let k = w1.index(cs);
    let off = w1.cluster_offset as int;
    cluster_number_of(k, off, cs);
    cluster_number_of(k, off + count, cs);
    if w1.clusters@.len() != before.clusters@.len() {
        let n = before.clusters@.len() as int;
        cluster_number_of(n, 0, cs);
        if k < n {
            assert(k * cs + cs <= n * cs) by (nonlinear_arith)
                requires
                    k + 1 <= n,
                    cs > 0,
            ;
        }
    }
}

proof fn behind_cluster(p: int, k: int, n: int, cs: int)
    requires
        cs > 0,
        k < n,
        p == k * cs + cs,
    ensures
        k + 1 < n ==> p < n * cs,
        k + 1 == n ==> p == n * cs,
{
    assert(k + 2 <= n ==> k * cs + cs + cs <= n * cs) by (nonlinear_arith)
        requires
            cs > 0,
    ;
    assert((k + 1) * cs == k * cs + cs) by (nonlinear_arith);
}

/// Whether the first `n` bytes of `buf` were written, with no more clusters than that takes,
/// and with nothing changed in FAT and bitmap where the file had them before.
#[verifier::opaque]
spec fn progress(
    w0: ExFatFileWriter,
    s0: VolState,
    w: ExFatFileWriter,
    s: VolState,
    info: ExFatInfo,
    buf: Seq<u8>,
    n: int,
) -> bool {
    &&& wrote(w0, s0, w, s, info, buf, n)
    &&& w.clusters@.len() == clusters_needed(
        w0.clusters@.len() as int,
        w0.position + n,
        info.bytes_per_cluster as int,
    )
    &&& w.clusters@.len() == w0.clusters@.len() ==> same_allocation(info, w0, s0, w, s)
}

proof fn progress_starts(w: ExFatFileWriter, s: VolState, info: ExFatInfo, buf: Seq<u8>)
    requires
        info.bytes_per_cluster > 0,
        w.position <= w.clusters@.len() * info.bytes_per_cluster,
    ensures
        progress(w, s, w, s, info, buf, 0),
{
    reveal(progress);
    nothing_written(w, s, info, buf);
    few_clusters_needed(w, info.bytes_per_cluster as int);
}

/// Nothing changes where no cluster is to be had.
proof fn progress_stops(
    w0: ExFatFileWriter,
    s0: VolState,
    w1: ExFatFileWriter,
    s1: VolState,
    w2: ExFatFileWriter,
    s2: VolState,
    info: ExFatInfo,
    buf: Seq<u8>,
    n: int,
)
    requires
        progress(w0, s0, w1, s1, info, buf, n),
        s2 == s1,
        w2.clusters@ == w1.clusters@,
        w2.first_cluster == w1.first_cluster,
        w2.is_contiguous == w1.is_contiguous,
    ensures
        progress(w0, s0, w2, s2, info, buf, n),
{
    reveal(progress);
}

/// A chunk more, in the same cluster or in the next.
proof fn progress_goes_on(
    w0: ExFatFileWriter,
    s0: VolState,
    w1: ExFatFileWriter,
    s1: VolState,
    w2: ExFatFileWriter,
    s2: VolState,
    w3: ExFatFileWriter,
    s3: VolState,
    info: ExFatInfo,
    buf: Seq<u8>,
    n: int,
    chunk: Seq<u8>,
)
    requires
        info.wf(),
        s1.content.len() >= info.end(),
        s2.content.len() >= info.end(),
        progress(w0, s0, w1, s1, info, buf, n),
        extends(w1.clusters@, w2.clusters@),
        gained_free(s1.bits, w1.clusters@, w2.clusters@),
        only_touches(info, s1, s2, w2.clusters@),
        same_but_fat(s1.content, s2.content, info),
        advanced_by(w1, s1, w2, s2, info.bytes_per_cluster as int, true) || (w2 == w1 && s2
            == s1),
        w1.position <= w1.clusters@.len() * info.bytes_per_cluster,
        owns(
            info,
            fat_table(s2.content, info),
            s2.bits,
            w2.first_cluster,
            w2.is_contiguous,
            w2.clusters@,
        ),
        0 <= n,
        n + chunk.len() <= buf.len(),
        chunk == buf.subrange(n, n + chunk.len()),
        chunk.len() > 0,
        w1.position == w0.position + n,
        w2.position == w1.position,
        0 <= w2.index(info.bytes_per_cluster as int) < w2.clusters@.len(),
        w2.position == w2.index(info.bytes_per_cluster as int) * info.bytes_per_cluster
            + w2.cluster_offset,
        w2.cluster_offset + chunk.len() <= info.bytes_per_cluster,
        w3.clusters == w2.clusters,
        w3.first_cluster == w2.first_cluster,
        w3.is_contiguous == w2.is_contiguous,
        s3.bits == s2.bits,
        s3.content == splice(
            s2.content,
            byte_address(info, w2.clusters@, w2.position as int),
            chunk,
        ),
    ensures
        progress(w0, s0, w3, s3, info, buf, n + chunk.len()),
{
    reveal(progress);
    let cs = info.bytes_per_cluster as int;
    let k = w2.index(cs);
    assert forall|i: int| 0 <= i < w1.clusters@.len() implies info.has(
        #[trigger] w1.clusters@[i],
    ) by {
        assert(w2.clusters@[i] == w1.clusters@[i]);
    }
    wrote_then_advanced(w0, s0, w1, s1, w2, s2, info, buf, n);
    position_parts(w2.position as int, k, w2.cluster_offset as int, cs);
    assert(k * cs + cs <= w2.clusters@.len() * cs) by (nonlinear_arith)
        requires
            k + 1 <= w2.clusters@.len(),
            cs > 0,
    ;
    wrote_then_put(w0, s0, w2, s2, w3, s3, info, buf, n, chunk);
    counted_clusters(w0.clusters@.len() as int, w1, w2, chunk.len() as int, cs);
    if w3.clusters@.len() == w0.clusters@.len() {
        assert(w1.clusters@.len() <= w2.clusters@.len());
        assert(w0.clusters@.len() <= w1.clusters@.len());
        assert(same_allocation(info, w0, s0, w1, s1));
        assert(w2.clusters@ == w1.clusters@);
        put_keeps_the_fat(info, w2, s2, s3, chunk);
    }
}

proof fn put_keeps_the_fat(
    info: ExFatInfo,
    w: ExFatFileWriter,
    a: VolState,
    b: VolState,
    chunk: Seq<u8>,
)
    requires
        info.wf(),
        a.content.len() >= info.end(),
        forall|i: int| 0 <= i < w.clusters@.len() ==> info.has(#[trigger] w.clusters@[i]),
        w.position + chunk.len() <= w.clusters@.len() * info.bytes_per_cluster,
        chunk.len() > 0,
        w.position as int % info.bytes_per_cluster as int + chunk.len() <= info.bytes_per_cluster,
        b.content == splice(
            a.content,
            byte_address(info, w.clusters@, w.position as int),
            chunk,
        ),
    ensures
        fat_table(b.content, info) == fat_table(a.content, info),
{
    let cs = info.bytes_per_cluster as int;
    let pos = w.position as int;
    index_bounds(pos, w.clusters@.len() as int, cs);
    let own = w.clusters@[pos / cs];
    assert(info.has(own));
    clusters_are_apart(info, own, own);
    table_unchanged(a.content, b.content, info);
}

proof fn next_start(p: int, k: int, cs: int)
    requires
        cs > 0,
    ensures
        p == k * cs + cs ==> p == (k + 1) * cs,
{
    assert((k + 1) * cs == k * cs + cs) by (nonlinear_arith);
}

proof fn more_clusters(n: int, cs: int)
    requires
        n >= 0,
        cs >= 0,
    ensures
        (n + 1) * cs == n * cs + cs,
{
    assert((n + 1) * cs == n * cs + cs) by (nonlinear_arith);
}

proof fn nothing_touched(info: ExFatInfo, s: VolState, clusters: Seq<u32>)
    ensures
        only_touches(info, s, s, clusters),
        same_but_fat(s.content, s.content, info),
{
    reveal(only_touches);
    reveal(keeps_rest);
}

proof fn nothing_written(w: ExFatFileWriter, s: VolState, info: ExFatInfo, buf: Seq<u8>)
    ensures
        wrote(w, s, w, s, info, buf, 0),
{
    nothing_touched(info, s, w.clusters@);
}

/// A change of the FAT leaves all clusters as they are, and what stands outside.
proof fn heap_is_kept(info: ExFatInfo, a: Seq<u8>, b: Seq<u8>)
    requires
        info.wf(),
        a.len() >= info.end(),
        same_but_fat(a, b, info),
    ensures
        forall|d: u32, i: int|
            #![trigger b[info.offset(d) + i]]
            info.has(d) && 0 <= i < info.bytes_per_cluster ==> b[info.offset(d) + i]
                == a[info.offset(d) + i],
        forall|clusters: Seq<u32>| #[trigger] keeps_rest(info, a, b, clusters),
{
    assert forall|clusters: Seq<u32>| #[trigger] keeps_rest(info, a, b, clusters) by {
        reveal(keeps_rest);
        assert forall|i: int|
            0 <= i < a.len() && !(entry_at(info, 2) <= i < entry_at(info, info.cluster_count + 2))
                && !lies_in(info, clusters, i) implies #[trigger] b[i] == a[i] by {
            assert(a[i] == b[i]);
        }
    }
    assert forall|d: u32, i: int|
        #![trigger b[info.offset(d) + i]]
        info.has(d) && 0 <= i < info.bytes_per_cluster implies b[info.offset(d) + i]
        == a[info.offset(d) + i] by {
        clusters_are_apart(info, d, d);
        assert(a[info.offset(d) + i] == b[info.offset(d) + i]);
    }
}

proof fn first_allocated(info: ExFatInfo, a: VolState, b: VolState, c: u32, contiguous: bool)
    requires
        info.wf(),
        info.has(c),
        a.bits.len() == info.cluster_count,
        a.content.len() >= info.end(),
        same_but_fat(a.content, b.content, info),
        fat_table(b.content, info) == fat_table(a.content, info).update(c as int, END_OF_CHAIN),
        b.bits == a.bits.update(c - 2, true),
    ensures
        owns(info, fat_table(b.content, info), b.bits, c, contiguous, seq![c]),
        only_touches(info, a, b, seq![c]),
{
    reveal(only_touches);
    heap_is_kept(info, a.content, b.content);
    let s = seq![c];
    assert forall|d: u32| info.has(d) && !s.contains(d) implies #[trigger] b.bits[d - 2]
        == a.bits[d - 2] && fat_table(b.content, info)[d as int] == fat_table(
        a.content,
        info,
    )[d as int] by {
        assert(s[0] == c);
        assert(d != c);
    }
}

/// A new cluster is none of those in use.
proof fn new_is_new(info: ExFatInfo, bits: Seq<bool>, clusters: Seq<u32>, c: u32)
    requires
        info.has(c),
        !bits[c - 2],
        clusters.no_duplicates(),
        forall|i: int|
            0 <= i < clusters.len() ==> info.has(#[trigger] clusters[i]) && bits[clusters[i] - 2],
    ensures
        !clusters.contains(c),
        clusters.push(c).no_duplicates(),
{
    if clusters.contains(c) {
        let i = choose|i: int| 0 <= i < clusters.len() && clusters[i] == c;
        assert(bits[clusters[i] - 2]);
    }
    let more = clusters.push(c);
    assert forall|i: int, j: int| 0 <= i < more.len() && 0 <= j < more.len() && i != j implies more[i]
        != more[j] by {
        if i == clusters.len() {
            assert(clusters.contains(clusters[j]));
        } else if j == clusters.len() {
            assert(clusters.contains(clusters[i]));
        }
    }
}

proof fn run_extended(
    info: ExFatInfo,
    a: VolState,
    b: VolState,
    first: u32,
    clusters: Seq<u32>,
    c: u32,
)
    requires
        info.wf(),
        info.has(c),
        a.bits.len() == info.cluster_count,
        !a.bits[c - 2],
        a.content.len() >= info.end(),
        clusters.len() > 0,
        owns(info, fat_table(a.content, info), a.bits, first, true, clusters),
        c == first + clusters.len(),
        same_but_fat(a.content, b.content, info),
        fat_table(b.content, info) == fat_table(a.content, info).update(c as int, END_OF_CHAIN),
        b.bits == a.bits.update(c - 2, true),
    ensures
        owns(info, fat_table(b.content, info), b.bits, first, true, clusters.push(c)),
        only_touches(info, a, b, clusters.push(c)),
        extends(clusters, clusters.push(c)),
{
    reveal(only_touches);
    heap_is_kept(info, a.content, b.content);
    new_is_new(info, a.bits, clusters, c);
    let more = clusters.push(c);
    assert(more[clusters.len() as int] == c);
    assert forall|i: int| 0 <= i < more.len() implies info.has(#[trigger] more[i]) && b.bits[more[i]
        - 2] by {
        if i < clusters.len() {
            assert(more[i] == clusters[i]);
            assert(info.has(clusters[i]));
        }
    }
    assert forall|i: int| 0 <= i < more.len() implies #[trigger] more[i] == first + i by {
        if i < clusters.len() {
            assert(more[i] == clusters[i]);
        }
    }
    assert forall|d: u32| info.has(d) && !more.contains(d) implies #[trigger] b.bits[d - 2]
        == a.bits[d - 2] && fat_table(b.content, info)[d as int] == fat_table(
        a.content,
        info,
    )[d as int] by {
        assert(d != c);
    }
}

/// Linking a new cluster behind the last one makes it the last.
proof fn appended(
    info: ExFatInfo,
    a: VolState,
    m: VolState,
    b: VolState,
    first: u32,
    contiguous: bool,
    clusters: Seq<u32>,
    c: u32,
)
    requires
        info.wf(),
        info.has(c),
        a.bits.len() == info.cluster_count,
        !a.bits[c - 2],
        a.content.len() >= info.end(),
        clusters.len() > 0,
        owns(info, fat_table(a.content, info), a.bits, first, contiguous, clusters),
        m.bits == a.bits,
        linked_but_last(fat_table(m.content, info), clusters),
        forall|d: u32|
            info.has(d) && !clusters.contains(d) ==> #[trigger] fat_table(
                m.content,
                info,
            )[d as int] == fat_table(a.content, info)[d as int],
        same_but_fat(a.content, b.content, info),
        fat_table(b.content, info) == fat_table(m.content, info).update(
            c as int,
            END_OF_CHAIN,
        ).update(clusters.last() as int, c),
        b.bits == a.bits.update(c - 2, true),
    ensures
        owns(info, fat_table(b.content, info), b.bits, first, false, clusters.push(c)),
        only_touches(info, a, b, clusters.push(c)),
        extends(clusters, clusters.push(c)),
{
    reveal(only_touches);
    heap_is_kept(info, a.content, b.content);
    new_is_new(info, a.bits, clusters, c);
    let more = clusters.push(c);
    let t = fat_table(b.content, info);
    let tm = fat_table(m.content, info);
    let n = clusters.len() as int;
    assert(more[n] == c);
    assert forall|i: int| 0 <= i < more.len() implies info.has(#[trigger] more[i]) && b.bits[more[i]
        - 2] by {
        if i < n {
            assert(more[i] == clusters[i]);
            assert(info.has(clusters[i]));
        }
    }
    assert(info.has(clusters[n - 1]));
    assert(chained(t, more)) by {
        assert forall|i: int| 0 <= i < more.len() implies if i + 1 < more.len() {
            t[(#[trigger] more[i]) as int] == more[i + 1]
        } else {
            t[more[i] as int] >= MEDIA_DESCRIPTOR
        } by {
            if i + 1 < n {
                assert(more[i] == clusters[i] && more[i + 1] == clusters[i + 1]);
                assert(clusters.contains(clusters[i]));
                assert(clusters[i] != c);
                assert(clusters[i] != clusters[n - 1]);
                assert(tm[clusters[i] as int] == clusters[i + 1]);
                assert(info.has(clusters[i]));
            } else if i + 1 == n {
                assert(more[i] == clusters[n - 1]);
            } else {
                assert(more[i] == c);
                assert(clusters.contains(clusters[n - 1]));
                assert(c != clusters[n - 1]);
            }
        }
    }
    assert forall|d: u32| info.has(d) && !more.contains(d) implies #[trigger] b.bits[d - 2]
        == a.bits[d - 2] && t[d as int] == fat_table(a.content, info)[d as int] by {
        assert(d != c);
        if clusters.contains(d) {
            let i = choose|i: int| 0 <= i < clusters.len() && clusters[i] == d;
            assert(more[i] == d);
        }
        if d == clusters.last() {
            assert(more[n - 1] == d);
        }
    }
}

/// Different bytes of a file lie at different places of the device.
proof fn addresses_differ(info: ExFatInfo, clusters: Seq<u32>, p: int, q: int)
    requires
        info.wf(),
        clusters.no_duplicates(),
        forall|i: int| 0 <= i < clusters.len() ==> info.has(#[trigger] clusters[i]),
        0 <= p < clusters.len() * info.bytes_per_cluster,
        0 <= q < clusters.len() * info.bytes_per_cluster,
        byte_address(info, clusters, p) == byte_address(info, clusters, q),
    ensures
        p == q,
{
    let cs = info.bytes_per_cluster as int;
    index_bounds(p, clusters.len() as int, cs);
    index_bounds(q, clusters.len() as int, cs);
    let a = clusters[p / cs];
    let b = clusters[q / cs];
    clusters_are_apart(info, a, b);
    clusters_are_apart(info, b, a);
    if p / cs != q / cs {
        assert(a != b);
    }
    vstd::arithmetic::div_mod::lemma_fundamental_div_mod(p, cs);
    vstd::arithmetic::div_mod::lemma_fundamental_div_mod(q, cs);
}

proof fn index_bounds(p: int, n: int, cs: int)
    requires
        cs > 0,
        0 <= p < n * cs,
    ensures
        0 <= p / cs < n,
        0 <= p % cs < cs,
        p == p / cs * cs + p % cs,
{
    vstd::arithmetic::div_mod::lemma_fundamental_div_mod(p, cs);
    vstd::arithmetic::div_mod::lemma_mod_bound(p, cs);
    vstd::arithmetic::div_mod::lemma_div_pos_is_pos(p, cs);
    let k = p / cs;
    assert(cs * k == k * cs) by (nonlinear_arith);
    if k >= n {
        assert(k * cs >= n * cs) by (nonlinear_arith)
            requires
                k >= n,
                cs > 0,
        ;
    }
}

proof fn touches_compose(
    info: ExFatInfo,
    a: VolState,
    b: VolState,
    c: VolState,
    small: Seq<u32>,
    large: Seq<u32>,
)
    requires
        only_touches(info, a, b, small),
        only_touches(info, b, c, large),
        extends(small, large),
    ensures
        only_touches(info, a, c, large),
{
    reveal(only_touches);
    assert forall|d: u32| info.has(d) && !large.contains(d) implies !small.contains(d) by {
        if small.contains(d) {
            let i = choose|i: int| 0 <= i < small.len() && small[i] == d;
            assert(large[i] == d);
        }
    }
    assert forall|d: u32| info.has(d) && !large.contains(d) implies #[trigger] c.bits[d - 2]
        == a.bits[d - 2] && fat_table(c.content, info)[d as int] == fat_table(
        a.content,
        info,
    )[d as int] by {
        assert(!small.contains(d));
        assert(b.bits[d - 2] == a.bits[d - 2]);
    }
    assert forall|d: u32, i: int|
        #![trigger c.content[info.offset(d) + i]]
        info.has(d) && !large.contains(d) && 0 <= i < info.bytes_per_cluster implies c.content[
    info.offset(d) + i] == a.content[info.offset(d) + i] by {
        assert(!small.contains(d));
        assert(b.content[info.offset(d) + i] == a.content[info.offset(d) + i]);
    }
    rest_composes(info, a.content, b.content, c.content, small, large);
}

proof fn rest_composes(
    info: ExFatInfo,
    a: Seq<u8>,
    b: Seq<u8>,
    c: Seq<u8>,
    small: Seq<u32>,
    large: Seq<u32>,
)
    requires
        a.len() == b.len(),
        keeps_rest(info, a, b, small),
        keeps_rest(info, b, c, large),
        extends(small, large),
    ensures
        keeps_rest(info, a, c, large),
{
    reveal(keeps_rest);
    assert forall|i: int|
        0 <= i < a.len() && !(entry_at(info, 2) <= i < entry_at(info, info.cluster_count + 2))
            && !lies_in(info, large, i) implies #[trigger] c[i] == a[i] by {
        if lies_in(info, small, i) {
            let k = choose|k: int|
                0 <= k < small.len() && info.offset(#[trigger] small[k]) <= i < info.offset(
                    small[k],
                ) + info.bytes_per_cluster;
            assert(large[k] == small[k]);
        }
        assert(b[i] == a[i]);
    }
}

proof fn wrote_then_advanced(
    w0: ExFatFileWriter,
    s0: VolState,
    w1: ExFatFileWriter,
    s1: VolState,
    w2: ExFatFileWriter,
    s2: VolState,
    info: ExFatInfo,
    buf: Seq<u8>,
    n: int,
)
    requires
        info.wf(),
        s1.content.len() >= info.end(),
        wrote(w0, s0, w1, s1, info, buf, n),
        extends(w1.clusters@, w2.clusters@),
        gained_free(s1.bits, w1.clusters@, w2.clusters@),
        w2.clusters@.no_duplicates(),
        forall|i: int|
            0 <= i < w2.clusters@.len() ==> info.has(#[trigger] w2.clusters@[i]),
        only_touches(info, s1, s2, w2.clusters@),
        same_but_fat(s1.content, s2.content, info),
        forall|i: int|
            0 <= i < w1.clusters@.len() ==> info.has(#[trigger] w1.clusters@[i]),
        0 <= n,
        w0.position + n <= w1.clusters@.len() * info.bytes_per_cluster,
    ensures
        wrote(w0, s0, w2, s2, info, buf, n),
{
    reveal(only_touches);
    let cs = info.bytes_per_cluster as int;
    let (c0, c1, c2) = (w0.clusters@, w1.clusters@, w2.clusters@);
    let p0 = w0.position as int;
    heap_is_kept(info, s1.content, s2.content);
    touches_compose(info, s0, s1, s2, c1, c2);
    assert forall|i: int| c0.len() <= i < c2.len() implies !s0.bits[(#[trigger] c2[i]) - 2] by {
        if i < c1.len() {
            assert(c2[i] == c1[i]);
        } else {
            assert(info.has(c2[i]));
            if c1.contains(c2[i]) {
                let j = choose|j: int| 0 <= j < c1.len() && c1[j] == c2[i];
                assert(c2[j] == c1[j]);
            }
            assert(s1.bits[c2[i] - 2] == s0.bits[c2[i] - 2]);
        }
    }
    assert(extends(c0, c2)) by {
        assert forall|i: int| 0 <= i < c0.len() implies #[trigger] c2[i] == c0[i] by {
            assert(c1[i] == c0[i]);
        }
    }
    assert forall|p: int| 0 <= p < c1.len() * cs implies chain_byte(s2.content, info, c2, p)
        == chain_byte(s1.content, info, c1, p) by {
        index_bounds(p, c1.len() as int, cs);
        assert(c2[p / cs] == c1[p / cs]);
        assert(info.has(c1[p / cs]));
        assert(s2.content[info.offset(c1[p / cs]) + p % cs] == s1.content[info.offset(c1[p / cs])
            + p % cs]);
    }
    assert(c0.len() * cs <= c1.len() * cs) by (nonlinear_arith)
        requires
            c0.len() <= c1.len(),
            cs > 0,
    ;
    assert forall|p: int| p0 <= p < p0 + n implies #[trigger] chain_byte(s2.content, info, c2, p)
        == buf[p - p0] by {
        assert(chain_byte(s1.content, info, c1, p) == buf[p - p0]);
    }
    assert forall|p: int| 0 <= p < c0.len() * cs && !(p0 <= p < p0 + n) implies
        #[trigger] chain_byte(s2.content, info, c2, p) == chain_byte(s0.content, info, c0, p) by {
        assert(chain_byte(s1.content, info, c1, p) == chain_byte(s0.content, info, c0, p));
    }
}

proof fn put_keeps_rest(
    info: ExFatInfo,
    clusters: Seq<u32>,
    k: int,
    a: Seq<u8>,
    b: Seq<u8>,
    at: int,
    data: Seq<u8>,
)
    requires
        0 <= k < clusters.len(),
        0 <= info.offset(clusters[k]) <= at,
        at + data.len() <= info.offset(clusters[k]) + info.bytes_per_cluster,
        at + data.len() <= a.len(),
        b == splice(a, at, data),
    ensures
        keeps_rest(info, a, b, clusters),
{
    reveal(keeps_rest);
    assert forall|i: int|
        0 <= i < a.len() && !(entry_at(info, 2) <= i < entry_at(info, info.cluster_count + 2))
            && !lies_in(info, clusters, i) implies #[trigger] b[i] == a[i] by {
        if at <= i < at + data.len() {
            assert(info.offset(clusters[k]) <= i);
            assert(lies_in(info, clusters, i));
        }
    }
}

/// Writing into a cluster touches the file and nothing else.
proof fn put_touches(
    info: ExFatInfo,
    clusters: Seq<u32>,
    k: int,
    a: VolState,
    b: VolState,
    at: int,
    data: Seq<u8>,
)
    requires
        info.wf(),
        a.content.len() >= info.end(),
        0 <= k < clusters.len(),
        info.has(clusters[k]),
        info.offset(clusters[k]) <= at,
        at + data.len() <= info.offset(clusters[k]) + info.bytes_per_cluster,
        b.bits == a.bits,
        b.content == splice(a.content, at, data),
    ensures
        only_touches(info, a, b, clusters),
{
    reveal(only_touches);
    let own = clusters[k];
    clusters_are_apart(info, own, own);
    assert(b.content.len() == a.content.len());
    table_unchanged(a.content, b.content, info);
    assert forall|d: u32, i: int|
        #![trigger b.content[info.offset(d) + i]]
        info.has(d) && !clusters.contains(d) && 0 <= i < info.bytes_per_cluster implies b.content[
    info.offset(d) + i] == a.content[info.offset(d) + i] by {
        assert(clusters.contains(own));
        assert(d != own);
        clusters_are_apart(info, d, own);
        clusters_are_apart(info, own, d);
    }
    put_keeps_rest(info, clusters, k, a.content, b.content, at, data);
}

/// Writing at a position replaces the bytes there and no others of the file.
proof fn put_bytes(
    info: ExFatInfo,
    c1: Seq<u32>,
    a: Seq<u8>,
    b: Seq<u8>,
    pos: int,
    chunk: Seq<u8>,
)
    requires
        info.wf(),
        a.len() >= info.end(),
        c1.no_duplicates(),
        forall|i: int| 0 <= i < c1.len() ==> info.has(#[trigger] c1[i]),
        0 <= pos,
        pos % info.bytes_per_cluster as int + chunk.len() <= info.bytes_per_cluster,
        pos + chunk.len() <= c1.len() * info.bytes_per_cluster,
        chunk.len() > 0,
        b == splice(a, byte_address(info, c1, pos), chunk),
    ensures
        forall|p: int|
            pos <= p < pos + chunk.len() ==> #[trigger] chain_byte(b, info, c1, p) == chunk[p
                - pos],
        forall|p: int|
            0 <= p < c1.len() * info.bytes_per_cluster && !(pos <= p < pos + chunk.len())
                ==> #[trigger] chain_byte(b, info, c1, p) == chain_byte(a, info, c1, p),
{
    let cs = info.bytes_per_cluster as int;
    let m = chunk.len() as int;
    let at = byte_address(info, c1, pos);
    index_bounds(pos, c1.len() as int, cs);
    let own = c1[pos / cs];
    assert(info.has(own));
    clusters_are_apart(info, own, own);
    assert forall|p: int| pos <= p < pos + m implies byte_address(info, c1, p) == at + (p - pos) by {
        position_parts(p, pos / cs, pos % cs + (p - pos), cs);
    }
    assert forall|p: int| pos <= p < pos + m implies chain_byte(b, info, c1, p) == chunk[p
        - pos] by {
        assert(byte_address(info, c1, p) == at + (p - pos));
    }
    assert forall|p: int|
        0 <= p < c1.len() * cs && !(pos <= p < pos + m) implies #[trigger] chain_byte(
        b,
        info,
        c1,
        p,
    ) == chain_byte(a, info, c1, p) by {
        let x = byte_address(info, c1, p);
        index_bounds(p, c1.len() as int, cs);
        assert(info.has(c1[p / cs]));
        clusters_are_apart(info, c1[p / cs], c1[p / cs]);
        if at <= x < at + m {
            let q = pos + (x - at);
            assert(byte_address(info, c1, q) == x);
            addresses_differ(info, c1, p, q);
        }
    }
}

#[verifier::spinoff_prover]
#[verifier::rlimit(40)]
proof fn wrote_then_put(
    w0: ExFatFileWriter,
    s0: VolState,
    w1: ExFatFileWriter,
    s1: VolState,
    w2: ExFatFileWriter,
    s2: VolState,
    info: ExFatInfo,
    buf: Seq<u8>,
    n: int,
    chunk: Seq<u8>,
)
    requires
        info.wf(),
        s1.content.len() >= info.end(),
        wrote(w0, s0, w1, s1, info, buf, n),
        w1.clusters@.len() > 0,
        owns(
            info,
            fat_table(s1.content, info),
            s1.bits,
            w1.first_cluster,
            w1.is_contiguous,
            w1.clusters@,
        ),
        w2.clusters == w1.clusters,
        0 <= n,
        n + chunk.len() <= buf.len(),
        chunk == buf.subrange(n, n + chunk.len()),
        w1.position == w0.position + n,
        w1.position as int % info.bytes_per_cluster as int + chunk.len() <= info.bytes_per_cluster,
        w1.position + chunk.len() <= w1.clusters@.len() * info.bytes_per_cluster,
        chunk.len() > 0,
        s2.bits == s1.bits,
        s2.content == splice(
            s1.content,
            byte_address(info, w1.clusters@, w1.position as int),
            chunk,
        ),
    ensures
        wrote(w0, s0, w2, s2, info, buf, n + chunk.len()),
{
    let cs = info.bytes_per_cluster as int;
    let (c0, c1) = (w0.clusters@, w1.clusters@);
    let p0 = w0.position as int;
    let pos = w1.position as int;
    let m = chunk.len() as int;
    let at = byte_address(info, c1, pos);
    index_bounds(pos, c1.len() as int, cs);
    let own = c1[pos / cs];
    assert(info.has(own));
    clusters_are_apart(info, own, own);
    assert(s2.content.len() == s1.content.len());
    put_bytes(info, c1, s1.content, s2.content, pos, chunk);
    put_touches(info, c1, pos / cs, s1, s2, at, chunk);
    touches_compose(info, s0, s1, s2, c1, c1);
    assert forall|p: int| p0 <= p < p0 + n + m implies #[trigger] chain_byte(
        s2.content,
        info,
        c1,
        p,
    ) == buf[p - p0] by {
        if p < pos {
            assert(chain_byte(s1.content, info, c1, p) == buf[p - p0]);
        } else {
            assert(chunk[p - pos] == buf[p - p0]);
        }
    }
    assert(c0.len() * cs <= c1.len() * cs) by (nonlinear_arith)
        requires
            c0.len() <= c1.len(),
            cs > 0,
    ;
    assert forall|p: int| 0 <= p < c0.len() * cs && !(p0 <= p < p0 + n + m) implies
        #[trigger] chain_byte(s2.content, info, c1, p) == chain_byte(s0.content, info, c0, p) by {
        assert(chain_byte(s1.content, info, c1, p) == chain_byte(s0.content, info, c0, p));
    }
}

/// Whether entry and clusters agree: the clusters are those of the file, as many as its size
/// takes, and it was not written beyond its size.
pub open spec fn entry_owns<D: Device>(
    fs: &ExFatVolume<D>,
    entry: ExFatFileEntry,
    c: Seq<u32>,
) -> bool {
    let cs = fs.info.bytes_per_cluster as int;
    &&& owns(
        fs.info,
        fat_table(fs.device@, fs.info),
        fs.bitmap@,
        entry.first_cluster,
        entry.no_fat_chain,
        c,
    )
    &&& c.len() * cs == whole_clusters(entry.data_length as int, cs)
    &&& entry.valid_data_length <= entry.data_length
}

} // verus!
