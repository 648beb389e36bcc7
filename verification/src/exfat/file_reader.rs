//! Reading files.

use crate::exfat::device::Device;
use crate::exfat::entry::ExFatFileEntry;
use crate::exfat::error::ExFatError;
#[allow(unused_imports)]
use crate::exfat::fat::{fat_table, next_of};
#[allow(unused_imports)]
use crate::exfat::info::{clusters_are_apart, ExFatInfo};
use crate::exfat::volume::ExFatVolume;
use vstd::prelude::*;

verus! {

/// Cluster number `k` of a file, counted from 0: by counting where the clusters follow each
/// other, else along the chain in the FAT.
pub open spec fn nth_cluster(
    info: ExFatInfo,
    table: Seq<u32>,
    first: u32,
    contiguous: bool,
    k: int,
) -> Option<u32>
    decreases k,
{
    if contiguous {
        if first + k <= u32::MAX {
            Some((first + k) as u32)
        } else {
            None
        }
    } else if k <= 0 {
        Some(first)
    } else {
        match nth_cluster(info, table, first, contiguous, k - 1) {
            Some(c) if info.has(c) => match next_of(info, table[c as int]) {
                Ok(Some(next)) => Some(next),
                _ => None,
            },
            _ => None,
        }
    }
}

/// A byte of a file, by its position.
pub open spec fn file_byte(
    content: Seq<u8>,
    info: ExFatInfo,
    first: u32,
    contiguous: bool,
    p: int,
) -> u8 {
    let cs = info.bytes_per_cluster as int;
    let table = fat_table(content, info);
    match nth_cluster(info, table, first, contiguous, p / cs) {
        Some(c) => content[info.offset(c) + p % cs],
        None => 0,
    }
}

/// Whether the first `n` clusters of a file are clusters of the volume, no more than there
/// are.
pub open spec fn clusters_exist(
    info: ExFatInfo,
    table: Seq<u32>,
    first: u32,
    contiguous: bool,
    n: int,
) -> bool {
    &&& n <= info.cluster_count
    &&& forall|k: int|
        0 <= k < n ==> (#[trigger] nth_cluster(info, table, first, contiguous, k) matches Some(c)
            && info.has(c))
}

/// A position to go to.
#[derive(Debug, Clone, Copy)]
pub enum SeekFrom {
    /// From the start.
    Start(u64),
    /// From the end.
    End(i64),
    /// From where the reader is.
    Current(i64),
}

/// Reads a file.
#[derive(Debug)]
pub struct ExFatFileReader<'a, D: Device> {
    /// The volume.
    pub fs: &'a ExFatVolume<D>,
    /// First cluster of the file.
    pub first_cluster: u32,
    /// Cluster that is being read.
    pub current_cluster: u32,
    /// Position within this cluster.
    pub cluster_offset: usize,
    /// Position within the file.
    pub position: u64,
    /// Size of the file as far as it was written.
    pub valid_length: u64,
    /// Whether the clusters follow each other.
    pub is_contiguous: bool,
    /// Number of the cluster that is being read, where the clusters follow each other.
    pub cluster_index: u32,
    /// How many links of the chain were followed.
    pub cluster_steps: u32,
}

impl<'a, D: Device> ExFatFileReader<'a, D> {
    /// The number of the cluster that is being read.
    pub open spec fn index(&self) -> int {
        if self.is_contiguous {
            self.cluster_index as int
        } else {
            self.cluster_steps as int
        }
    }

    /// Cluster number `k` of the file.
    pub open spec fn cluster(&self, k: int) -> Option<u32> {
        nth_cluster(
            self.fs.info,
            fat_table(self.fs.device@, self.fs.info),
            self.first_cluster,
            self.is_contiguous,
            k,
        )
    }

    /// A byte of the file.
    pub open spec fn byte(&self, p: int) -> u8 {
        file_byte(self.fs.device@, self.fs.info, self.first_cluster, self.is_contiguous, p)
    }

    /// Whether cluster and offset belong to the position. Behind the last byte of a cluster
    /// the next is not entered before it is needed.
    pub open spec fn wf(&self) -> bool {
        let cs = self.fs.info.bytes_per_cluster as int;
        &&& self.fs.wf()
        &&& self.cluster_offset <= cs
        &&& self.position == self.index() * cs + self.cluster_offset
        &&& self.cluster(self.index()) == Some(self.current_cluster)
    }

    /// Whether both read the same file.
    pub open spec fn same_file(&self, other: &Self) -> bool {
        &&& self.fs == other.fs
        &&& self.first_cluster == other.first_cluster
        &&& self.valid_length == other.valid_length
        &&& self.is_contiguous == other.is_contiguous
    }

    /// Whether the device never fails, holds the whole volume, and the clusters of the file
    /// exist up to a position.
    pub open spec fn readable_to(&self, end: int) -> bool {
        let cs = self.fs.info.bytes_per_cluster as int;
        &&& D::infallible()
        &&& self.fs.complete()
        &&& clusters_exist(
            self.fs.info,
            fat_table(self.fs.device@, self.fs.info),
            self.first_cluster,
            self.is_contiguous,
            (end + cs - 1) / cs,
        )
    }

    /// Whether the file can be read as far as it was written.
    pub open spec fn readable(&self) -> bool {
        self.readable_to(self.valid_length as int)
    }

    /// Starts to read a file.
    pub fn new(fs: &'a ExFatVolume<D>, entry: &ExFatFileEntry) -> (r: Result<Self, ExFatError>)
        requires
            fs.wf(),
        ensures
            r is Err <==> entry.attributes.is_dir(),
            r matches Err(e) ==> e == ExFatError::NotAFile,
            r matches Ok(reader) ==> {
                &&& reader.wf()
                &&& reader.fs == fs
                &&& reader.first_cluster == entry.first_cluster
                &&& reader.valid_length == entry.valid_data_length
                &&& reader.is_contiguous == entry.no_fat_chain
                &&& reader.position == 0
            },
    {
        if entry.is_directory() {
            return Err(ExFatError::NotAFile);
        }
        Ok(
            ExFatFileReader {
                fs,
                first_cluster: entry.first_cluster,
                current_cluster: entry.first_cluster,
                cluster_offset: 0,
                position: 0,
                valid_length: entry.valid_data_length,
                is_contiguous: entry.no_fat_chain,
                cluster_index: 0,
                cluster_steps: 0,
            },
        )
    }

    /// The position within the file.
    pub fn position(&self) -> (r: u64)
        ensures
            r == self.position,
    {
        self.position
    }

    /// The size of the file as far as it was written.
    pub fn size(&self) -> (r: u64)
        ensures
            r == self.valid_length,
    {
        self.valid_length
    }

    /// How many bytes are left to read.
    pub fn remaining(&self) -> (r: u64)
        ensures
            r == (if self.position <= self.valid_length {
                self.valid_length - self.position
            } else {
                0
            }),
    {
        self.valid_length.saturating_sub(self.position)
    }

    /// Follows one link of the chain; says whether there was one. A chain with more links
    /// than the volume has clusters leads in a circle.
    fn follow_chain(&mut self) -> (r: Result<bool, ExFatError>)
        requires
            old(self).fs.wf(),
            !old(self).is_contiguous,
            old(self).cluster(old(self).cluster_steps as int) == Some(old(self).current_cluster),
        ensures
            final(self).same_file(old(self)),
            final(self).position == old(self).position,
            final(self).cluster_offset == old(self).cluster_offset,
            final(self).cluster_index == old(self).cluster_index,
            match r {
                Ok(true) => {
                    &&& final(self).cluster_steps == old(self).cluster_steps + 1
                    &&& final(self).cluster(final(self).cluster_steps as int) == Some(
                        final(self).current_cluster,
                    )
                },
                Ok(false) => {
                    &&& *final(self) == *old(self)
                    &&& old(self).fs.info.has(old(self).current_cluster)
                    &&& next_of(
                        old(self).fs.info,
                        fat_table(
                            old(self).fs.device@,
                            old(self).fs.info,
                        )[old(self).current_cluster as int],
                    ) == Ok::<Option<u32>, ExFatError>(None)
                },
                Err(e) => {
                    ||| e == ExFatError::ChainLoop && old(self).cluster_steps
                        >= old(self).fs.info.cluster_count
                    ||| e == ExFatError::Io && !(D::infallible() && old(self).fs.complete())
                    ||| e is InvalidCluster && old(self).cluster(old(self).cluster_steps + 1)
                        is None
                },
            },
    {
        if self.cluster_steps >= self.fs.info.cluster_count {
            return Err(ExFatError::ChainLoop);
        }
        match self.fs.next_cluster(self.current_cluster) {
            Ok(Some(next)) => {
                self.cluster_steps = self.cluster_steps + 1;
                self.current_cluster = next;
                Ok(true)
            },
            Ok(None) => Ok(false),
            Err(e) => Err(e),
        }
    }

    /// Reads into a buffer and says how many bytes. It reads as many as the buffer and the
    /// file have, unless the chain ends before.
    pub fn read(&mut self, buf: &mut [u8]) -> (r: Result<usize, ExFatError>)
        requires
            old(self).wf(),
        ensures
            final(self).same_file(old(self)),
            final(buf)@.len() == old(buf)@.len(),
            match r {
                Ok(n) => {
                    let want = read_limit(old(self), old(buf)@.len() as int);
                    &&& final(self).wf()
                    &&& n <= want
                    &&& final(self).position == old(self).position + n
                    &&& final(buf)@ == Seq::new(
                        n as nat,
                        |i: int| old(self).byte(old(self).position + i),
                    ) + old(buf)@.skip(n as int)
                    &&& n < want ==> {
                        &&& !old(self).is_contiguous
                        &&& final(self).cluster_offset == old(self).fs.info.bytes_per_cluster
                        &&& old(self).cluster(final(self).index() + 1) is None
                    }
                },
                Err(e) => {
                    &&& e == ExFatError::Io || e == ExFatError::ChainLoop || e is InvalidCluster
                    &&& !old(self).readable_to(
                        old(self).position + read_limit(old(self), old(buf)@.len() as int),
                    )
                },
            },
            old(self).readable_to(
                old(self).position + read_limit(old(self), old(buf)@.len() as int),
            ) ==> r == Ok::<usize, ExFatError>(
                read_limit(old(self), old(buf)@.len() as int) as usize,
            ),
            old(self).readable() ==> r is Ok,
    {
        proof {
            let want = read_limit(self, buf@.len() as int);
            if self.position <= self.valid_length {
                self.readable_before(self.position + want, self.valid_length as int);
            }
        }
        if self.position >= self.valid_length {
            assert(buf@ =~= Seq::new(0, |i: int| old(self).byte(old(self).position + i)) + buf@.skip(
                0,
            ));
            return Ok(0);
        }
        let info: &ExFatInfo = &self.fs.info;
        let cs: usize = info.bytes_per_cluster;
        let ghost p0 = self.position as int;
        let ghost want = read_limit(old(self), buf@.len() as int);
        let len: usize = buf.len();
        let mut total: usize = 0;
        assert(buf@ =~= Seq::new(0, |i: int| old(self).byte(p0 + i)) + buf@.skip(0));
        while total < len && self.position < self.valid_length
            invariant
                self.wf(),
                self.same_file(old(self)),
                old(self).wf(),
                p0 == old(self).position,
                cs == self.fs.info.bytes_per_cluster,
                info == self.fs.info,
                want == read_limit(old(self), len as int),
                buf@.len() == len,
                len == old(buf)@.len(),
                total <= want,
                self.position == p0 + total,
                p0 < self.valid_length,
                buf@ == Seq::new(total as nat, |i: int| old(self).byte(p0 + i)) + old(buf)@.skip(
                    total as int,
                ),
            decreases len - total,
        {
            let ghost q0 = self.position as int;
            let ghost csi = cs as int;
            proof {
                cluster_count_of(self.valid_length as int, csi, q0);
            }
            if self.cluster_offset >= cs {
                proof {
                    next_index(q0, self.index(), csi);
                }
                if self.is_contiguous {
                    if self.cluster_index == u32::MAX || self.first_cluster > u32::MAX - (
                    self.cluster_index + 1) {
                        proof {
                            position_parts(q0, self.index() + 1, 0, csi);
                            old(self).missing_cluster(q0, self.index() + 1, p0 + want);
                        }
                        return Err(ExFatError::InvalidCluster(self.current_cluster));
                    }
                    self.cluster_index = self.cluster_index + 1;
                    self.current_cluster = self.first_cluster + self.cluster_index;
                } else {
                    let ghost k1 = self.index() + 1;
                    proof {
                        position_parts(q0, k1, 0, csi);
                    }
                    match self.follow_chain() {
                        Ok(true) => {},
                        Ok(false) => {
                            assert(old(self).cluster(k1) is None);
                            proof {
                                old(self).missing_cluster(q0, k1, p0 + want);
                            }
                            return Ok(total);
                        },
                        Err(e) => {
                            proof {
                                old(self).missing_cluster(q0, k1, p0 + want);
                            }
                            return Err(e);
                        },
                    }
                }
                self.cluster_offset = 0;
            }
            let ghost idx = self.index();
            proof {
                assert(q0 == idx * csi + self.cluster_offset);
                position_parts(q0, idx, self.cluster_offset as int, csi);
            }
            let in_cluster: usize = cs - self.cluster_offset;
            let in_file: u64 = self.valid_length - self.position;
            let in_buf: usize = len - total;
            let mut count: usize = if in_cluster < in_buf {
                in_cluster
            } else {
                in_buf
            };
            if (count as u64) > in_file {
                count = in_file as usize;
            }
            let offset: u64 = info.cluster_to_offset(self.current_cluster)
                + self.cluster_offset as u64;
            proof {
                if self.fs.info.has(self.current_cluster) {
                    clusters_are_apart(
                        self.fs.info,
                        self.current_cluster,
                        self.current_cluster,
                    );
                }
            }
            let data: Vec<u8> = match self.fs.read_at(offset, count) {
                Ok(data) => data,
                Err(e) => {
                    proof {
                        old(self).existing_cluster(q0, idx, p0 + want);
                    }
                    return Err(e);
                },
            };
            let ghost before = buf@;
            let mut i: usize = 0;
            while i < count
                invariant
                    i <= count,
                    total + count <= len,
                    buf@.len() == len,
                    data@.len() == count,
                    before.len() == len,
                    forall|k: int|
                        0 <= k < len ==> #[trigger] buf@[k] == (if total <= k < total + i {
                            data@[k - total]
                        } else {
                            before[k]
                        }),
                decreases count - i,
            {
                buf[total + i] = data[i];
                i += 1;
            }
            proof {
                let off = self.cluster_offset as int;
                assert forall|i: int| 0 <= i < count implies data@[i] == old(self).byte(
                    q0 + i,
                ) by {
                    position_parts(q0 + i, idx, off + i, csi);
                }
                assert(buf@ =~= Seq::new(
                    (total + count) as nat,
                    |i: int| old(self).byte(p0 + i),
                ) + old(buf)@.skip(total + count));
            }
            total = total + count;
            self.cluster_offset = self.cluster_offset + count;
            self.position = self.position + count as u64;
        }
        Ok(total)
    }

    /// Where the file is readable up to a position, the cluster of a position before exists.
    proof fn existing_cluster(&self, p: int, k: int, end: int)
        requires
            self.fs.wf(),
            0 <= p < end,
            k == p / self.fs.info.bytes_per_cluster as int,
        ensures
            self.readable_to(end) ==> k < self.fs.info.cluster_count && (self.cluster(k) matches
            Some(c) && self.fs.info.has(c)),
    {
        cluster_count_of(end, self.fs.info.bytes_per_cluster as int, p);
    }

    /// Where the cluster of a position is missing, the file is not readable beyond.
    proof fn missing_cluster(&self, p: int, k: int, end: int)
        requires
            self.fs.wf(),
            0 <= p < end,
            k == p / self.fs.info.bytes_per_cluster as int,
        ensures
            self.cluster(k) is None || k >= self.fs.info.cluster_count + 1 ==> !self.readable_to(
                end,
            ),
    {
        self.existing_cluster(p, k, end);
    }

    /// What is readable up to a position is readable up to any before.
    proof fn readable_before(&self, p: int, end: int)
        requires
            self.fs.wf(),
            0 <= p <= end,
        ensures
            self.readable_to(end) ==> self.readable_to(p),
    {
        let cs = self.fs.info.bytes_per_cluster as int;
        vstd::arithmetic::div_mod::lemma_div_is_ordered(p + cs - 1, end + cs - 1, cs);
    }

    /// Fills a buffer, or fails where the file ends before.
    pub fn read_exact(&mut self, buf: &mut [u8]) -> (r: Result<(), ExFatError>)
        requires
            old(self).wf(),
        ensures
            final(self).same_file(old(self)),
            final(buf)@.len() == old(buf)@.len(),
            match r {
                Ok(_) => {
                    &&& final(self).wf()
                    &&& final(self).position == old(self).position + old(buf)@.len()
                    &&& final(buf)@ == Seq::new(
                        old(buf)@.len(),
                        |i: int| old(self).byte(old(self).position + i),
                    )
                },
                Err(e) => {
                    ||| !old(self).readable_to(
                        old(self).position + read_limit(old(self), old(buf)@.len() as int),
                    )
                    ||| e == ExFatError::UnexpectedEof && read_limit(
                        old(self),
                        old(buf)@.len() as int,
                    ) < old(buf)@.len()
                },
            },
            old(self).readable_to(old(self).position + old(buf)@.len()) && read_limit(
                old(self),
                old(buf)@.len() as int,
            ) == old(buf)@.len() ==> r is Ok,
    {
        let len: usize = buf.len();
        let n: usize = match self.read(buf) {
            Ok(n) => n,
            Err(e) => {
                return Err(e);
            },
        };
        if n < len {
            return Err(ExFatError::UnexpectedEof);
        }
        assert(buf@ =~= Seq::new(len as nat, |i: int| old(self).byte(old(self).position + i)));
        Ok(())
    }

    /// The position that a seek asks for. What does not fit a signed number of 64 bits counts as
    /// negative.
    pub open spec fn target(&self, pos: SeekFrom) -> int {
        match pos {
            SeekFrom::Start(offset) => if offset <= i64::MAX {
                offset as int
            } else {
                offset - 0x1_0000_0000_0000_0000
            },
            SeekFrom::End(offset) => self.valid_length + offset,
            SeekFrom::Current(offset) => self.position + offset,
        }
    }

    /// The ways to name a position agree: counted from the start, from the end and from where the
    /// reader is. A step of none stays, steps one after the other add up, and going back as many
    /// bytes as were read comes to where the reading began.
    pub proof fn positions_agree(&self, later: &Self, p: int, d: i64)
        requires
            0 <= p <= i64::MAX,
            self.position <= i64::MAX,
            self.valid_length <= i64::MAX,
            later.same_file(self),
        ensures
            self.target(SeekFrom::Start(p as u64)) == p,
            self.target(SeekFrom::Current((p - self.position) as i64)) == p,
            self.target(SeekFrom::End((p - self.valid_length) as i64)) == p,
            self.target(SeekFrom::Current(0)) == self.position,
            self.target(SeekFrom::End(0)) == self.valid_length,
            self.target(SeekFrom::Current(d)) - self.position == d,
            self.target(SeekFrom::End(d)) - self.valid_length == d,
            later.position == self.target(SeekFrom::Current(d)) ==> later.target(
                SeekFrom::Current((0 - d) as i64),
            ) == self.position || d == i64::MIN,
            later.position == p ==> later.target(SeekFrom::Current((self.position - p) as i64))
                == self.position,
            later.target(SeekFrom::Start(p as u64)) == self.target(SeekFrom::Start(p as u64)),
            later.target(SeekFrom::End(d)) == self.target(SeekFrom::End(d)),
    {
    }

    /// Whether a position within the file that a seek asks for has a cluster number, and where it
    /// is relative the file's size fits a signed number of 64 bits.
    pub open spec fn addressable(&self, pos: SeekFrom) -> bool {
        let n = self.target(pos) / self.fs.info.bytes_per_cluster as int;
        &&& pos is Start || self.valid_length <= i64::MAX
        &&& 0 <= self.target(pos) <= self.valid_length ==> n <= u32::MAX && (self.is_contiguous
            ==> self.first_cluster + n <= u32::MAX)
    }

    /// Goes to a position. It must lie within the file, and its cluster must exist.
    pub fn seek(&mut self, pos: SeekFrom) -> (r: Result<u64, ExFatError>)
        requires
            old(self).wf(),
            old(self).addressable(pos),
        ensures
            final(self).same_file(old(self)),
            ({
                let target = old(self).target(pos);
                let k = target / old(self).fs.info.bytes_per_cluster as int;
                match r {
                    Ok(p) => {
                        &&& p == target
                        &&& 0 <= target <= old(self).valid_length
                        &&& final(self).wf()
                        &&& final(self).position == p
                    },
                    Err(e) => {
                        ||| e == ExFatError::InvalidInput && (target < 0 || target > old(
                            self,
                        ).valid_length) && *final(self) == *old(self)
                        ||| !old(self).is_contiguous && 0 <= target <= old(self).valid_length && (
                        exists|j: int| 0 <= j <= k && #[trigger] old(self).cluster(j) is None) && (e
                            == ExFatError::InvalidInput || e is InvalidCluster)
                        ||| !old(self).is_contiguous && e == ExFatError::ChainLoop && k
                            > old(self).fs.info.cluster_count
                        ||| !old(self).is_contiguous && e == ExFatError::Io && !(D::infallible()
                            && old(self).fs.complete())
                    },
                }
            }),
            old(self).is_contiguous && 0 <= old(self).target(pos) <= old(self).valid_length ==> r is Ok,
            r matches Ok(p) ==> match pos {
                SeekFrom::Start(offset) => p == offset,
                SeekFrom::End(offset) => p == old(self).valid_length + offset,
                SeekFrom::Current(offset) => p == old(self).position + offset,
            },
            pos == SeekFrom::Current(0) && r is Ok ==> final(self).position == old(self).position,
            pos == SeekFrom::Current(0) && old(self).is_contiguous && old(self).position <= old(
                self,
            ).valid_length ==> r == Ok::<u64, ExFatError>(old(self).position),
    {
        let wanted: i128 = match pos {
            SeekFrom::Start(offset) => if offset <= 0x7FFF_FFFF_FFFF_FFFF {
                offset as i128
            } else {
                offset as i128 - 0x1_0000_0000_0000_0000
            },
            SeekFrom::End(offset) => self.valid_length as i128 + offset as i128,
            SeekFrom::Current(offset) => self.position as i128 + offset as i128,
        };
        if wanted < 0 || wanted > self.valid_length as i128 {
            return Err(ExFatError::InvalidInput);
        }
        let new_pos: u64 = wanted as u64;
        let cs: u64 = self.fs.info.bytes_per_cluster as u64;
        let ghost csi = cs as int;
        proof {
            vstd::arithmetic::div_mod::lemma_div_is_ordered(
                new_pos as int,
                self.valid_length as int,
                csi,
            );
            vstd::arithmetic::div_mod::lemma_fundamental_div_mod(new_pos as int, csi);
            vstd::arithmetic::div_mod::lemma_mod_bound(new_pos as int, csi);
            vstd::arithmetic::div_mod::lemma_div_pos_is_pos(new_pos as int, csi);
            let q = new_pos as int / csi;
            assert(q * csi == csi * q) by (nonlinear_arith);
        }
        let index: u32 = (new_pos / cs) as u32;
        let rest: usize = (new_pos % cs) as usize;
        let ghost k = new_pos as int / csi;
        if self.is_contiguous {
            self.current_cluster = self.first_cluster + index;
            self.cluster_index = index;
        } else {
            self.current_cluster = self.first_cluster;
            self.cluster_steps = 0;
            let mut i: u32 = 0;
            while i < index
                invariant
                    i <= index,
                    index == k,
                    k == old(self).target(pos) / (old(self).fs.info.bytes_per_cluster as int),
                    0 <= old(self).target(pos) <= old(self).valid_length,
                    !self.is_contiguous,
                    self.same_file(old(self)),
                    self.fs.wf(),
                    self.cluster_steps == i,
                    self.cluster(i as int) == Some(self.current_cluster),
                decreases index - i,
            {
                match self.follow_chain() {
                    Ok(true) => {},
                    Ok(false) => {
                        assert(old(self).cluster(i + 1) is None);
                        return Err(ExFatError::InvalidInput);
                    },
                    Err(e) => {
                        return Err(e);
                    },
                }
                i += 1;
            }
        }
        self.cluster_offset = rest;
        self.position = new_pos;
        Ok(new_pos)
    }

    /// The position within the file.
    pub fn stream_position(&self) -> (r: u64)
        ensures
            r == self.position,
    {
        self.position
    }
}

/// How many bytes a read can give at most: what the buffer holds, and what is left of the
/// file.
pub open spec fn read_limit<D: Device>(reader: &ExFatFileReader<D>, len: int) -> int {
    let left = if reader.position < reader.valid_length {
        reader.valid_length - reader.position
    } else {
        0
    };
    if len < left {
        len
    } else {
        left
    }
}

/// A position lies in the cluster and at the offset that it is made of.
pub proof fn position_parts(p: int, k: int, off: int, cs: int)
    requires
        cs > 0,
        p == k * cs + off,
        0 <= off < cs,
    ensures
        p / cs == k,
        p % cs == off,
{
    assert(k * cs == cs * k) by (nonlinear_arith);
    vstd::arithmetic::div_mod::lemma_fundamental_div_mod_converse(p, cs, k, off);
}

proof fn next_index(p: int, k: int, cs: int)
    requires
        cs > 0,
        p == k * cs + cs,
    ensures
        p == (k + 1) * cs + 0,
{
    assert((k + 1) * cs == k * cs + cs) by (nonlinear_arith);
}

/// A position within a file lies in one of its clusters.
proof fn cluster_count_of(len: int, cs: int, p: int)
    requires
        cs > 0,
        0 <= p < len,
    ensures
        0 <= p / cs < (len + cs - 1) / cs,
{
    vstd::arithmetic::div_mod::lemma_div_pos_is_pos(p, cs);
    vstd::arithmetic::div_mod::lemma_div_is_ordered(p + cs, len + cs - 1, cs);
    vstd::arithmetic::div_mod::lemma_div_plus_one(p, cs);
}

} // verus!
