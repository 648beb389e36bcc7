//! Creating, deleting and truncating files and directories.

use crate::bytes::{copy_range, push_all, push_le32, push_le64, push_zeros};
#[allow(unused_imports)]
use crate::bytes::{le32, le64, le64_round_trip};
#[allow(unused_imports)]
use crate::exfat::bitmap::{bytes_for, packed};
use crate::exfat::device::Device;
#[allow(unused_imports)]
use crate::exfat::device::splice;
use crate::exfat::dir::ExFatDir;
#[allow(unused_imports)]
use crate::exfat::dir::{
    dir_clusters, dir_of_entry, dir_reach, is_chain_error, listing_fails_by_chain,
};
use crate::exfat::entry::{
    entries_of, flatten_entries, DELETED_FILE, END_OF_DIRECTORY, ExFatFileEntry, FileAttributes,
    RawDirectoryEntry,
};
#[allow(unused_imports)]
use crate::exfat::entry::{set_bytes, set_bytes_at};
use crate::exfat::entry_writer::{fill_checksum, EntrySetBuilder};
#[allow(unused_imports)]
use crate::exfat::entry_writer::{
    built_set, checksum_matches, name_entry_count, stream_flags_of, valid_name, with_checksum,
};
use crate::exfat::error::ExFatError;
use crate::exfat::fat::{next_cluster, read_entry, END_OF_CHAIN};
#[allow(unused_imports)]
use crate::exfat::fat::{fat_table, holds_fat, next_of};
#[allow(unused_imports)]
use crate::exfat::file_writer::entry_owns;
use crate::exfat::file_writer::ExFatFileWriter;
use crate::exfat::info::ExFatInfo;
#[allow(unused_imports)]
use crate::exfat::info::clusters_are_apart;
use crate::exfat::time::ExFatTimestamp;
#[allow(unused_imports)]
use crate::exfat::volume::{allocated_one, complete_holds_fat, freed, with_entry, VolState};
use crate::exfat::volume::ExFatVolume;
#[allow(unused_imports)]
use crate::text::utf16;
use vstd::prelude::*;

verus! {

/// Whether a directory entry at a byte of the device is unused or deleted.
pub open spec fn slot_free(content: Seq<u8>, at: int) -> bool {
    content[at] == END_OF_DIRECTORY || content[at] == DELETED_FILE
}

/// Whether `n` entries from entry `i` of a cluster on are free.
pub open spec fn slot_run(content: Seq<u8>, base: int, i: int, n: int) -> bool {
    forall|k: int| i <= k < i + n ==> slot_free(content, #[trigger] slot_at(base, k))
}

/// Byte where entry `k` of a cluster stands.
pub open spec fn slot_at(base: int, k: int) -> int {
    base + 32 * k
}

/// Whether the first `n` free entries in a row of a cluster with `per` entries start at `i`.
pub open spec fn first_slots(content: Seq<u8>, base: int, per: int, n: int, i: int) -> bool {
    &&& 0 <= i
    &&& i + n <= per
    &&& slot_run(content, base, i, n)
    &&& forall|j: int| 0 <= j < i ==> !#[trigger] slot_run(content, base, j, n)
}

/// Whether a cluster with `per` entries has no `n` free ones in a row.
pub open spec fn no_slots(content: Seq<u8>, base: int, per: int, n: int) -> bool {
    forall|j: int| 0 <= j && j + n <= per ==> !#[trigger] slot_run(content, base, j, n)
}

/// Whether the first `m` of the clusters have no `n` free entries in a row.
pub open spec fn full_before(
    content: Seq<u8>,
    info: ExFatInfo,
    clusters: Seq<u32>,
    n: int,
    m: int,
) -> bool {
    forall|j: int|
        0 <= j < m ==> no_slots(
            content,
            info.offset(#[trigger] clusters[j]),
            info.bytes_per_cluster as int / 32,
            n,
        )
}

/// Whether `n` free entries in a row were found in cluster number `j` of a directory: the
/// first that has them, at the first place there. No set of entries spans two clusters.
pub open spec fn found_slots(
    content: Seq<u8>,
    info: ExFatInfo,
    clusters: Seq<u32>,
    n: int,
    j: int,
    offset: int,
) -> bool {
    &&& 0 <= j < clusters.len()
    &&& full_before(content, info, clusters, n, j)
    &&& offset % 32 == 0
    &&& first_slots(
        content,
        info.offset(clusters[j]),
        info.bytes_per_cluster as int / 32,
        n,
        offset / 32,
    )
}

/// The entry set with new sizes, first cluster and flags in its stream extension, and with
/// its checksum.
pub open spec fn resized_set(
    set: Seq<u8>,
    valid: u64,
    len: u64,
    first: u32,
    no_fat_chain: bool,
) -> Seq<u8> {
    if set.len() < 64 {
        with_checksum(set)
    } else {
        with_checksum(
            set.take(33) + seq![stream_flags_of(first, len, no_fat_chain)] + set.subrange(34, 40)
                + le64(valid) + set.subrange(48, 52) + le32(first) + le64(len) + set.skip(64),
        )
    }
}

/// The entry set that starts at a byte of the device, as many entries as it says.
pub open spec fn set_on_device(content: Seq<u8>, at: int) -> Seq<u8> {
    content.subrange(at, at + 32 * (1 + content[at + 1]))
}

/// What updating an entry set comes to.
pub open spec fn resized(
    content: Seq<u8>,
    at: int,
    valid: u64,
    len: u64,
    first: u32,
    no_fat_chain: bool,
) -> (Result<(), ExFatError>, Seq<u8>) {
    if at + 32 > content.len() || at + 32 * (1 + content[at + 1]) > content.len() {
        (Err(ExFatError::Io), content)
    } else {
        (
            Ok(()),
            splice(
                content,
                at,
                resized_set(set_on_device(content, at), valid, len, first, no_fat_chain),
            ),
        )
    }
}

/// What writing the bitmap that starts at `first` comes to.
pub open spec fn synced(info: ExFatInfo, first: u32, s: VolState) -> (
    Result<(), ExFatError>,
    VolState,
) {
    if first < 2 {
        (Ok(()), s)
    } else if info.offset(first) + bytes_for(s.bits.len() as int) > s.content.len() {
        (Err(ExFatError::Io), s)
    } else {
        (
            Ok(()),
            VolState { content: splice(s.content, info.offset(first), packed(s.bits)), ..s },
        )
    }
}

/// How many clusters a size takes.
pub open spec fn clusters_for(len: int, cs: int) -> int {
    len / cs + (if len % cs == 0 {
        0int
    } else {
        1int
    })
}

/// The cluster that is reached from `current` over `n` links; the last one where the chain
/// ends before.
pub open spec fn walked(info: ExFatInfo, table: Seq<u32>, current: u32, n: int) -> Result<
    u32,
    ExFatError,
>
    decreases n,
{
    if n <= 0 {
        Ok(current)
    } else if !info.has(current) {
        Err(ExFatError::InvalidCluster(current))
    } else {
        match next_of(info, table[current as int]) {
            Err(e) => Err(e),
            Ok(None) => Ok(current),
            Ok(Some(next)) => walked(info, table, next, n - 1),
        }
    }
}

/// What freeing the clusters of a file behind its first `keep` comes to. A chain is ended
/// behind the last cluster that stays.
pub open spec fn shrunk(info: ExFatInfo, s: VolState, e: ExFatFileEntry, new_size: u64) -> (
    Result<(), ExFatError>,
    VolState,
) {
    let cs = info.bytes_per_cluster as int;
    let total = clusters_for(e.data_length as int, cs);
    let keep = clusters_for(new_size as int, cs);
    if new_size == 0 {
        freed(
            info,
            s,
            e.first_cluster,
            if e.no_fat_chain {
                total as u32
            } else {
                0
            },
            e.no_fat_chain,
        )
    } else if e.no_fat_chain {
        if total > keep {
            freed(info, s, (e.first_cluster + keep) as u32, (total - keep) as u32, true)
        } else {
            (Ok(()), s)
        }
    } else {
        let table = fat_table(s.content, info);
        match walked(info, table, e.first_cluster, keep - 1) {
            Err(err) => (Err(err), s),
            Ok(last) => if !info.has(last) {
                (Err(ExFatError::InvalidCluster(last)), s)
            } else {
                let ended = VolState {
                    content: with_entry(info, s.content, last, END_OF_CHAIN),
                    ..s
                };
                let tail = table[last as int];
                if info.has(tail) {
                    freed(info, ended, tail, 0, false)
                } else {
                    (Ok(()), ended)
                }
            },
        }
    }
}

/// Whether a file can get a smaller size: where its clusters follow each other, the new size
/// takes no more of them than the file has, and what is freed starts at a number of 32 bits.
pub open spec fn can_shrink(info: ExFatInfo, e: ExFatFileEntry, new_size: u64) -> bool {
    let cs = info.bytes_per_cluster as int;
    let total = clusters_for(e.data_length as int, cs);
    let keep = clusters_for(new_size as int, cs);
    e.no_fat_chain && new_size > 0 ==> keep <= total && (keep < total ==> e.first_cluster + keep
        <= u32::MAX)
}

/// What truncating a file comes to: its clusters behind the new size are freed, its entry
/// gets the new size, and the bitmap is written.
pub open spec fn truncated(
    info: ExFatInfo,
    bitmap: u32,
    s: VolState,
    e: ExFatFileEntry,
    new_size: u64,
) -> (Result<(), ExFatError>, VolState) {
    if e.attributes.is_dir() {
        (Err(ExFatError::NotAFile), s)
    } else if new_size >= e.valid_data_length {
        (Ok(()), s)
    } else {
        let (r1, s1) = shrunk(info, s, e, new_size);
        match r1 {
            Err(err) => (Err(err), s1),
            Ok(_) => {
                let (r2, content) = if new_size == 0 {
                    resized(s1.content, e.entry_offset as int, 0, 0, 0, false)
                } else {
                    resized(
                        s1.content,
                        e.entry_offset as int,
                        new_size,
                        new_size,
                        e.first_cluster,
                        e.no_fat_chain,
                    )
                };
                match r2 {
                    Err(err) => (Err(err), s1),
                    Ok(_) => synced(info, bitmap, VolState { content, ..s1 }),
                }
            },
        }
    }
}

/// What deleting a file, or a directory without entries, comes to: its clusters are freed,
/// its entry is marked, and the bitmap is written.
pub open spec fn deleted(info: ExFatInfo, bitmap: u32, s: VolState, e: ExFatFileEntry) -> (
    Result<(), ExFatError>,
    VolState,
) {
    let cs = info.bytes_per_cluster as int;
    let at = e.entry_offset as int;
    let (r1, s1) = freed(
        info,
        s,
        e.first_cluster,
        if e.no_fat_chain {
            clusters_for(e.data_length as int, cs) as u32
        } else {
            0
        },
        e.no_fat_chain,
    );
    match r1 {
        Err(err) => (Err(err), s1),
        Ok(_) => if at + 1 > s1.content.len() {
            (Err(ExFatError::Io), s1)
        } else {
            synced(
                info,
                bitmap,
                VolState { content: splice(s1.content, at, seq![DELETED_FILE]), ..s1 },
            )
        },
    }
}

fn count_clusters(len: u64, cs: u64) -> (r: u64)
    requires
        cs >= 2,
    ensures
        r == clusters_for(len as int, cs as int),
        r <= len,
{
    proof {
        vstd::arithmetic::div_mod::lemma_div_is_ordered_by_denominator(len as int, 2, cs as int);
        vstd::arithmetic::div_mod::lemma_div_pos_is_pos(len as int, cs as int);
        if len == 0 {
            vstd::arithmetic::div_mod::lemma_fundamental_div_mod_converse(0, cs as int, 0, 0);
        }
    }
    if len % cs == 0 {
        len / cs
    } else {
        len / cs + 1
    }
}

impl<D: Device> ExFatVolume<D> {
    /// Finds room for `slots_needed` entries in a row in a cluster, and says where.
    fn find_slots_in(&self, cluster: u32, slots_needed: usize) -> (r: Result<
        Option<u64>,
        ExFatError,
    >)
        requires
            self.wf(),
            self.info.has(cluster),
            slots_needed > 0,
        ensures
            ({
                let base = self.info.offset(cluster);
                let per = self.info.bytes_per_cluster as int / 32;
                match r {
                    Ok(Some(off)) => off % 32 == 0 && first_slots(
                        self.device@,
                        base,
                        per,
                        slots_needed as int,
                        off as int / 32,
                    ) && off + 32 * slots_needed <= self.info.bytes_per_cluster,
                    Ok(None) => no_slots(self.device@, base, per, slots_needed as int),
                    Err(e) => e == ExFatError::Io && !(D::infallible() && self.complete()),
                }
            }),
    {
        let ghost content = self.device@;
        let ghost n = slots_needed as int;
        let cs: usize = self.info.bytes_per_cluster;
        let per: usize = cs / 32;
        let base: u64 = self.info.cluster_to_offset(cluster);
        proof {
            clusters_are_apart(self.info, cluster, cluster);
        }
        let mut idx: usize = 0;
        let mut free: usize = 0;
        while idx < per
            invariant
                self.wf(),
                self.info.has(cluster),
                content == self.device@,
                n == slots_needed,
                n > 0,
                cs == self.info.bytes_per_cluster,
                per == cs / 32,
                idx <= per,
                free <= idx,
                free < n,
                base == self.info.offset(cluster),
                base + cs <= self.info.end(),
                base <= 0xFFFFFFFF * 4096 + 0xFFFFFFFF * 33554432,
                slot_run(content, base as int, idx - free, free as int),
                idx > free ==> !slot_free(content, slot_at(base as int, idx - free - 1)),
                forall|j: int|
                    0 <= j && j + n <= idx ==> !#[trigger] slot_run(content, base as int, j, n),
            decreases per - idx,
        {
            let at: u64 = base + 32 * idx as u64;
            let entry: Vec<u8> = match self.device.read_at(at, 32) {
                Ok(data) => data,
                Err(e) => {
                    return Err(e);
                },
            };
            let kind: u8 = entry[0];
            assert(kind == content[slot_at(base as int, idx as int)]);
            if kind == END_OF_DIRECTORY || kind == DELETED_FILE {
                free = free + 1;
                idx = idx + 1;
                assert(slot_run(content, base as int, idx - free, free as int));
                if free >= slots_needed {
                    let start: usize = idx - free;
                    proof {
                        assert forall|j: int| 0 <= j < start implies !#[trigger] slot_run(
                            content,
                            base as int,
                            j,
                            n,
                        ) by {
                            if j + n > idx - 1 {
                                assert(j <= start - 1 < j + n);
                                assert(!slot_free(content, slot_at(base as int, start - 1)));
                            }
                        }
                        let off = 32 * start as int;
                        assert(off / 32 == start && off % 32 == 0);
                    }
                    return Ok(Some(32 * start as u64));
                }
                assert forall|j: int| 0 <= j && j + n <= idx implies !#[trigger] slot_run(
                    content,
                    base as int,
                    j,
                    n,
                ) by {
                    if j + n == idx {
                        assert(idx - free - 1 >= j);
                        assert(!slot_free(content, slot_at(base as int, idx - free - 1)));
                    }
                }
            } else {
                assert forall|j: int| 0 <= j && j + n <= idx + 1 implies !#[trigger] slot_run(
                    content,
                    base as int,
                    j,
                    n,
                ) by {
                    if j + n == idx + 1 {
                        assert(!slot_free(content, slot_at(base as int, idx as int)));
                    }
                }
                free = 0;
                idx = idx + 1;
            }
        }
        Ok(None)
    }

    /// Finds room for `slots_needed` entries in a row: the first cluster of the directory
    /// that has it, and the offset there. Clusters behind it are not looked for.
    fn find_free_entry_slots(&self, dir: ExFatDir, slots_needed: usize) -> (r: Result<
        (u32, u64),
        ExFatError,
    >)
        requires
            self.wf(),
            slots_needed > 0,
        ensures
            match r {
                Ok((c, off)) => (exists|j: int|
                    #[trigger] found_slots(
                        self.device@,
                        self.info,
                        self.reach(dir),
                        slots_needed as int,
                        j,
                        off as int,
                    ) && self.reach(dir)[j] == c) && off + 32 * slots_needed
                    <= self.info.bytes_per_cluster && self.info.has(c),
                Err(ExFatError::DirectoryFull) => self.clusters_of(dir) is Ok && full_before(
                    self.device@,
                    self.info,
                    self.reach(dir),
                    slots_needed as int,
                    self.reach(dir).len() as int,
                ),
                Err(ExFatError::Io) => !(D::infallible() && self.complete()),
                Err(e) => {
                    &&& self.clusters_of(dir) == Err::<Seq<u32>, ExFatError>(e)
                    &&& is_chain_error(e)
                    &&& full_before(
                        self.device@,
                        self.info,
                        self.reach(dir),
                        slots_needed as int,
                        self.reach(dir).len() as int,
                    )
                },
            },
    {
        let ghost reach = self.reach(dir);
        let mut clusters: Vec<u32> = Vec::new();
        proof {
            listing_fails_by_chain(self.info, fat_table(self.device@, self.info), dir);
            assert(clusters@ =~= reach.take(0));
        }
        loop
            invariant
                self.wf(),
                slots_needed > 0,
                reach == self.reach(dir),
                self.clusters_of(dir) matches Err(e) ==> is_chain_error(e),
                clusters@.len() <= reach.len(),
                clusters@ == reach.take(clusters@.len() as int),
                full_before(
                    self.device@,
                    self.info,
                    reach,
                    slots_needed as int,
                    clusters@.len() as int,
                ),
            decreases reach.len() - clusters@.len(),
        {
            let c: u32 = match self.next_of_dir(dir, &clusters) {
                Ok(Some(c)) => c,
                Ok(None) => {
                    return Err(ExFatError::DirectoryFull);
                },
                Err(e) => {
                    return Err(e);
                },
            };
            let ghost i = clusters@.len() as int;
            match self.find_slots_in(c, slots_needed) {
                Ok(Some(off)) => {
                    assert(found_slots(
                        self.device@,
                        self.info,
                        reach,
                        slots_needed as int,
                        i,
                        off as int,
                    ) && reach[i] == c);
                    return Ok((c, off));
                },
                Ok(None) => {},
                Err(e) => {
                    return Err(e);
                },
            }
            clusters.push(c);
            assert(clusters@ =~= reach.take(i + 1));
        }
    }

    /// Writes an entry set into a cluster.
    fn write_entry_set(
        &mut self,
        cluster: u32,
        offset_in_cluster: u64,
        entries: &Vec<RawDirectoryEntry>,
    ) -> (r: Result<(), ExFatError>)
        requires
            old(self).wf(),
            offset_in_cluster <= old(self).info.bytes_per_cluster,
        ensures
            final(self).wf(),
            final(self).same_volume(old(self)),
            final(self).bitmap@ == old(self).bitmap@,
            ({
                let at = old(self).info.offset(cluster) + offset_in_cluster;
                match r {
                    Ok(_) => at + set_bytes(entries@).len() <= old(self).device@.len()
                        && final(self).device@ == splice(
                        old(self).device@,
                        at,
                        set_bytes(entries@),
                    ),
                    Err(e) => e == ExFatError::Io && (D::infallible() ==> at + set_bytes(
                        entries@,
                    ).len() > old(self).device@.len()),
                }
            }),
    {
        let at: u64 = self.info.cluster_to_offset(cluster) + offset_in_cluster;
        let data: Vec<u8> = flatten_entries(entries);
        self.write_at(at, data.as_slice())
    }

    /// Creates an empty file in a directory.
    pub fn create_file(&mut self, parent: ExFatDir, name: &str) -> (r: Result<
        ExFatFileEntry,
        ExFatError,
    >)
        requires
            old(self).wf(),
        ensures
            final(self).wf(),
            final(self).same_volume(old(self)),
            final(self).bitmap@ == old(self).bitmap@,
            match r {
                Ok(e) => {
                    &&& old(self).lookup(parent, name@) == Ok::<Option<int>, ExFatError>(None)
                    &&& valid_name(name@)
                    &&& e.name@ == name@
                    &&& e.attributes.bits == 0x20
                    &&& e.first_cluster == 0
                    &&& e.data_length == 0
                    &&& e.valid_data_length == 0
                    &&& e.no_fat_chain
                    &&& e.name_hash == old(self).upcase.hash_of(name@)
                    &&& exists|b: EntrySetBuilder, j: int, off: u64|
                        #[trigger] file_created(
                            old(self),
                            final(self).device@,
                            parent,
                            name@,
                            b,
                            j,
                            off,
                            e,
                        )
                },
                Err(e) => {
                    let full = full_before(
                        old(self).device@,
                        old(self).info,
                        old(self).reach(parent),
                        set_len(name@),
                        old(self).reach(parent).len() as int,
                    );
                    &&& e != ExFatError::Io ==> final(self).state() == old(self).state()
                    &&& match e {
                        ExFatError::AlreadyExists => old(self).has_name(parent, name@),
                        ExFatError::InvalidFilename => {
                            &&& old(self).lookup(parent, name@) == Ok::<Option<int>, ExFatError>(None)
                            &&& !valid_name(name@)
                        },
                        ExFatError::DirectoryFull => {
                            &&& old(self).lookup(parent, name@) == Ok::<Option<int>, ExFatError>(None)
                            &&& valid_name(name@)
                            &&& old(self).clusters_of(parent) is Ok
                            &&& full
                        },
                        ExFatError::Io => !(D::infallible() && old(self).complete()),
                        e => {
                            ||| old(self).lookup(parent, name@) == Err::<Option<int>, ExFatError>(e)
                            ||| old(self).lookup(parent, name@) == Ok::<Option<int>, ExFatError>(
                                None,
                            ) && valid_name(name@) && old(self).clusters_of(parent) == Err::<
                                Seq<u32>,
                                ExFatError,
                            >(e) && full
                        },
                    }
                },
            },
    {
        match self.find(parent, name) {
            Ok(Some(_)) => {
                return Err(ExFatError::AlreadyExists);
            },
            Ok(None) => {},
            Err(e) => {
                proof {
                    listing_fails_by_chain(self.info, fat_table(self.device@, self.info), parent);
                }
                return Err(e);
            },
        }
        let builder: EntrySetBuilder = match EntrySetBuilder::file(name) {
            Ok(b) => b,
            Err(e) => {
                return Err(e);
            },
        };
        let entries: Vec<RawDirectoryEntry> = builder.build(&self.upcase);
        let (cluster, offset): (u32, u64) = match self.find_free_entry_slots(
            parent,
            entries.len(),
        ) {
            Ok(found) => found,
            Err(e) => {
                return Err(e);
            },
        };
        proof {
            set_bytes_at(entries@, 0);
            clusters_are_apart(self.info, cluster, cluster);
        }
        match self.write_entry_set(cluster, offset, &entries) {
            Ok(_) => {},
            Err(e) => {
                return Err(e);
            },
        }
        let now: ExFatTimestamp = ExFatTimestamp::now();
        let e: ExFatFileEntry = ExFatFileEntry {
            name: name.to_owned(),
            attributes: FileAttributes::archive(),
            first_cluster: 0,
            data_length: 0,
            valid_data_length: 0,
            no_fat_chain: true,
            name_hash: self.upcase.name_hash(name),
            created: now,
            modified: now,
            accessed: now,
            parent_cluster: cluster,
            entry_offset: self.info.cluster_to_offset(cluster) + offset,
        };
        proof {
            let clusters = old(self).reach(parent);
            let j = choose|j: int|
                #[trigger] found_slots(
                    old(self).device@,
                    old(self).info,
                    clusters,
                    entries@.len() as int,
                    j,
                    offset as int,
                ) && clusters[j] == cluster;
            assert(file_created(old(self), self.device@, parent, name@, builder, j, offset, e));
        }
        Ok(e)
    }

    /// Whether a directory has an entry of the given name.
    pub open spec fn has_name(&self, dir: ExFatDir, name: Seq<char>) -> bool {
        self.lookup(dir, name) matches Ok(Some(_))
    }

    /// Creates a directory in a directory: takes a cluster into use, clears it, and adds an
    /// entry for it. Where the name is not allowed or there is no room for the entry, the
    /// cluster stays in use.
    #[verifier::rlimit(40)]
    pub fn create_dir(&mut self, parent: ExFatDir, name: &str) -> (r: Result<ExFatDir, ExFatError>)
        requires
            old(self).wf(),
        ensures
            final(self).wf(),
            final(self).same_volume(old(self)),
            match r {
                Ok(dir) => {
                    let info = old(self).info;
                    &&& old(self).lookup(parent, name@) == Ok::<Option<int>, ExFatError>(None)
                    &&& valid_name(name@)
                    &&& dir.is_contiguous
                    &&& dir.size == info.bytes_per_cluster
                    &&& final(self).bitmap@ == old(self).bitmap@.update(
                        dir.first_cluster - 2,
                        true,
                    )
                    &&& info.has(dir.first_cluster)
                    &&& !old(self).bitmap@[dir.first_cluster - 2]
                    &&& exists|b: EntrySetBuilder, j: int, off: u64|
                        #[trigger] dir_created(
                            old(self),
                            final(self).state(),
                            parent,
                            name@,
                            dir.first_cluster,
                            b,
                            j,
                            off,
                        )
                },
                Err(e) => {
                    let info = old(self).info;
                    let (r1, taken) = allocated_one(info, old(self).state(), 2);
                    let cleared = cleared_cluster(info, taken, r1->Ok_0);
                    let clusters = dir_clusters(info, fat_table(cleared, info), parent);
                    let reach = dir_reach(info, fat_table(cleared, info), parent);
                    let full = full_before(
                        cleared,
                        info,
                        reach,
                        set_len(name@),
                        reach.len() as int,
                    );
                    let kept = VolState { content: cleared, bits: taken.bits };
                    match e {
                        ExFatError::AlreadyExists => old(self).has_name(parent, name@)
                            && final(self).state() == old(self).state(),
                        ExFatError::NoFreeSpace => {
                            &&& old(self).lookup(parent, name@) == Ok::<Option<int>, ExFatError>(None)
                            &&& final(self).state() == old(self).state()
                            &&& forall|k: int|
                                0 <= k < old(self).bitmap@.len()
                                    ==> #[trigger] old(self).bitmap@[k]
                        },
                        ExFatError::InvalidFilename => {
                            &&& old(self).lookup(parent, name@) == Ok::<Option<int>, ExFatError>(None)
                            &&& !valid_name(name@)
                            &&& r1 is Ok
                            &&& final(self).state() == kept
                        },
                        ExFatError::DirectoryFull => {
                            &&& old(self).lookup(parent, name@) == Ok::<Option<int>, ExFatError>(None)
                            &&& valid_name(name@)
                            &&& r1 is Ok
                            &&& final(self).state() == kept
                            &&& clusters is Ok
                            &&& full
                        },
                        ExFatError::Io => !(D::infallible() && old(self).complete()) || (
                        old(self).bitmap.first_cluster >= 2 && info.offset(
                            old(self).bitmap.first_cluster,
                        ) + bytes_for(old(self).bitmap@.len() as int) > old(self).device@.len()),
                        e => {
                            ||| old(self).lookup(parent, name@) == Err::<Option<int>, ExFatError>(e)
                                && final(self).state() == old(self).state()
                            ||| old(self).lookup(parent, name@) == Ok::<Option<int>, ExFatError>(
                                None,
                            ) && valid_name(name@) && r1 is Ok && clusters == Err::<
                                Seq<u32>,
                                ExFatError,
                            >(e) && full && final(self).state() == kept
                        },
                    }
                },
            },
    {
        match self.find(parent, name) {
            Ok(Some(_)) => {
                return Err(ExFatError::AlreadyExists);
            },
            Ok(None) => {},
            Err(e) => {
                proof {
                    listing_fails_by_chain(self.info, fat_table(self.device@, self.info), parent);
                }
                return Err(e);
            },
        }
        proof {
            crate::exfat::bitmap::free_cluster_found(self.bitmap@, 2);
        }
        let cluster: u32 = match self.allocate_cluster(2) {
            Ok(c) => c,
            Err(e) => {
                return Err(e);
            },
        };
        let ghost taken = self.state();
        proof {
            complete_holds_fat(self.info);
            clusters_are_apart(self.info, cluster, cluster);
            if old(self).complete() {
                assert(holds_fat(old(self).device@, self.info));
                crate::exfat::fat::entry_write(
                    old(self).device@,
                    self.info,
                    cluster,
                    END_OF_CHAIN,
                );
            }
        }
        let at: u64 = self.info.cluster_to_offset(cluster);
        let cs: usize = self.info.bytes_per_cluster;
        let mut zeros: Vec<u8> = Vec::new();
        push_zeros(&mut zeros, cs);
        assert(zeros@ =~= Seq::new(cs as nat, |i: int| 0u8));
        match self.write_at(at, zeros.as_slice()) {
            Ok(_) => {},
            Err(e) => {
                return Err(e);
            },
        }
        let ghost cleared = cleared_cluster(self.info, taken, cluster);
        assert(self.device@ == cleared);
        assert(old(self).complete() ==> self.complete());
        let builder: EntrySetBuilder = match EntrySetBuilder::directory(name) {
            Ok(b) => b.with_cluster(cluster).with_size(0, cs as u64).with_contiguous(true),
            Err(e) => {
                return Err(e);
            },
        };
        let entries: Vec<RawDirectoryEntry> = builder.build(&self.upcase);
        let (slot_cluster, slot_offset): (u32, u64) = match self.find_free_entry_slots(
            parent,
            entries.len(),
        ) {
            Ok(found) => found,
            Err(e) => {
                return Err(e);
            },
        };
        proof {
            set_bytes_at(entries@, 0);
            clusters_are_apart(self.info, slot_cluster, slot_cluster);
        }
        match self.write_entry_set(slot_cluster, slot_offset, &entries) {
            Ok(_) => {},
            Err(e) => {
                return Err(e);
            },
        }
        match self.sync_bitmap() {
            Ok(_) => {},
            Err(e) => {
                return Err(e);
            },
        }
        proof {
            let clusters = dir_reach(self.info, fat_table(cleared, self.info), parent);
            let j = choose|j: int|
                #[trigger] found_slots(
                    cleared,
                    self.info,
                    clusters,
                    entries@.len() as int,
                    j,
                    slot_offset as int,
                ) && clusters[j] == slot_cluster;
            assert(dir_created(
                old(self),
                self.state(),
                parent,
                name@,
                cluster,
                builder,
                j,
                slot_offset,
            ));
        }
        Ok(ExFatDir { first_cluster: cluster, is_contiguous: true, size: cs as u64 })
    }

    /// Deletes a file or a directory without entries.
    pub fn delete(&mut self, entry: &ExFatFileEntry) -> (r: Result<(), ExFatError>)
        requires
            old(self).wf(),
        ensures
            final(self).wf(),
            final(self).same_volume(old(self)),
            r == Err::<(), ExFatError>(ExFatError::DirectoryNotEmpty) ==> {
                &&& entry.attributes.is_dir()
                &&& final(self).state() == old(self).state()
                &&& old(self).nonempty(dir_of_entry(*entry)) == Ok::<bool, ExFatError>(true)
            },
            r != Err::<(), ExFatError>(ExFatError::Io) || (D::infallible() && old(self).complete())
                ==> {
                ||| (r, final(self).state()) == deleted(
                    old(self).info,
                    old(self).bitmap.first_cluster,
                    old(self).state(),
                    *entry,
                ) && (entry.attributes.is_dir() ==> old(self).nonempty(dir_of_entry(*entry))
                    == Ok::<bool, ExFatError>(false))
                ||| entry.attributes.is_dir() && r == Err::<(), ExFatError>(
                    ExFatError::DirectoryNotEmpty,
                )
                ||| entry.attributes.is_dir() && final(self).state() == old(self).state() && (old(
                    self,
                ).nonempty(dir_of_entry(*entry)) matches Err(e) && r == Err::<(), ExFatError>(e))
            },
    {
        if entry.is_directory() {
            let dir: ExFatDir = ExFatDir {
                first_cluster: entry.first_cluster,
                is_contiguous: entry.no_fat_chain,
                size: entry.data_length,
            };
            assert(dir == dir_of_entry(*entry));
            match self.has_entries(dir) {
                Ok(some) => {
                    if some {
                        return Err(ExFatError::DirectoryNotEmpty);
                    }
                },
                Err(e) => {
                    proof {
                        listing_fails_by_chain(self.info, fat_table(self.device@, self.info), dir);
                    }
                    return Err(e);
                },
            }
        }
        let cs: u64 = self.info.bytes_per_cluster as u64;
        let count: u32 = if entry.no_fat_chain {
            count_clusters(entry.data_length, cs) as u32
        } else {
            0
        };
        match self.free_clusters(entry.first_cluster, count, entry.no_fat_chain) {
            Ok(_) => {},
            Err(e) => {
                return Err(e);
            },
        }
        let mut marker: Vec<u8> = Vec::new();
        marker.push(DELETED_FILE);
        assert(marker@ =~= seq![DELETED_FILE]);
        match self.write_at(entry.entry_offset, marker.as_slice()) {
            Ok(_) => {},
            Err(e) => {
                return Err(e);
            },
        }
        match self.sync_bitmap() {
            Ok(_) => Ok(()),
            Err(e) => Err(e),
        }
    }

    /// A writer for a file.
    pub fn write_file(&self, entry: &ExFatFileEntry) -> (r: Result<ExFatFileWriter, ExFatError>)
        requires
            self.wf(),
        ensures
            r is Err <==> entry.attributes.is_dir(),
            r matches Err(e) ==> e == ExFatError::NotAFile,
            r matches Ok(w) ==> {
                &&& w.entry.same(entry)
                &&& w.position == 0
                &&& w.new_length == entry.valid_data_length
                &&& w.first_cluster == entry.first_cluster
                &&& w.is_contiguous == entry.no_fat_chain
                &&& forall|c: Seq<u32>|
                    #![trigger c.no_duplicates()]
                    entry_owns(self, w.entry, c) ==> w.inv(self) && entry_owns(
                        self,
                        w.entry,
                        w.clusters@,
                    )
            },
    {
        ExFatFileWriter::new(self, entry.duplicate())
    }

    /// Gives the entry of a file new sizes and a new first cluster, with a new checksum.
    pub fn update_entry_size(
        &mut self,
        entry: &ExFatFileEntry,
        new_valid_data_length: u64,
        new_data_length: u64,
        new_first_cluster: u32,
        no_fat_chain: bool,
    ) -> (r: Result<(), ExFatError>)
        requires
            old(self).wf(),
        ensures
            final(self).wf(),
            final(self).same_volume(old(self)),
            final(self).bitmap@ == old(self).bitmap@,
            r is Ok || D::infallible() ==> (r, final(self).device@) == resized(
                old(self).device@,
                entry.entry_offset as int,
                new_valid_data_length,
                new_data_length,
                new_first_cluster,
                no_fat_chain,
            ),
            r matches Err(e) ==> e == ExFatError::Io,
    {
        let primary: Vec<u8> = match self.read_at(entry.entry_offset, 32) {
            Ok(data) => data,
            Err(e) => {
                return Err(e);
            },
        };
        let ghost at = entry.entry_offset as int;
        let ghost content = self.device@;
        let count: usize = 1 + primary[1] as usize;
        assert(primary@[1] == content[at + 1]);
        let raw: Vec<u8> = match self.read_at(entry.entry_offset, 32 * count) {
            Ok(data) => data,
            Err(e) => {
                return Err(e);
            },
        };
        let ghost set = set_on_device(content, at);
        assert(raw@ =~= set);
        assert(set.len() == 32 * count);
        let mut data: Vec<u8> = Vec::new();
        if count >= 2 {
            let has_allocation: bool = new_data_length > 0 || new_first_cluster != 0;
            let flags: u8 = if !has_allocation || no_fat_chain {
                0x03
            } else {
                0x01
            };
            let head: Vec<u8> = copy_range(raw.as_slice(), 0, 33);
            let hash: Vec<u8> = copy_range(raw.as_slice(), 34, 40);
            let gap: Vec<u8> = copy_range(raw.as_slice(), 48, 52);
            let names: Vec<u8> = copy_range(raw.as_slice(), 64, raw.len());
            push_all(&mut data, head.as_slice());
            data.push(flags);
            push_all(&mut data, hash.as_slice());
            push_le64(&mut data, new_valid_data_length);
            push_all(&mut data, gap.as_slice());
            push_le32(&mut data, new_first_cluster);
            push_le64(&mut data, new_data_length);
            push_all(&mut data, names.as_slice());
            proof {
                le64_round_trip(new_valid_data_length);
                le64_round_trip(new_data_length);
                crate::bytes::le32_round_trip(new_first_cluster);
                assert(set.subrange(0, 33) =~= set.take(33));
                assert(set.subrange(64, set.len() as int) =~= set.skip(64));
                assert(data@ =~= set.take(33) + seq![flags] + set.subrange(34, 40) + le64(
                    new_valid_data_length,
                ) + set.subrange(48, 52) + le32(new_first_cluster) + le64(new_data_length)
                    + set.skip(64));
            }
        } else {
            push_all(&mut data, raw.as_slice());
            assert(data@ =~= set);
        }
        assert(data@.len() == set.len());
        let mut entries: Vec<RawDirectoryEntry> = entries_of(data.as_slice());
        fill_checksum(&mut entries);
        let new_data: Vec<u8> = flatten_entries(&entries);
        assert(new_data@ == resized_set(
            set,
            new_valid_data_length,
            new_data_length,
            new_first_cluster,
            no_fat_chain,
        ));
        proof {
            checksum_matches(data@);
        }
        match self.write_at(entry.entry_offset, new_data.as_slice()) {
            Ok(_) => Ok(()),
            Err(e) => Err(e),
        }
    }

    /// Truncates a file. A size that is not below the file's own changes nothing.
    #[verifier::rlimit(60)]
    pub fn truncate(&mut self, entry: &ExFatFileEntry, new_size: u64) -> (r: Result<(), ExFatError>)
        requires
            old(self).wf(),
            !entry.attributes.is_dir() && new_size < entry.valid_data_length ==> can_shrink(
                old(self).info,
                *entry,
                new_size,
            ),
        ensures
            final(self).wf(),
            final(self).same_volume(old(self)),
            r != Err::<(), ExFatError>(ExFatError::Io) || (D::infallible() && old(self).complete())
                ==> (r, final(self).state()) == truncated(
                old(self).info,
                old(self).bitmap.first_cluster,
                old(self).state(),
                *entry,
                new_size,
            ),
            r == Err::<(), ExFatError>(ExFatError::Io) ==> !entry.attributes.is_dir() && new_size
                < entry.valid_data_length,
    {
        if entry.is_directory() {
            return Err(ExFatError::NotAFile);
        }
        if new_size >= entry.valid_data_length {
            return Ok(());
        }
        match self.shrink(entry, new_size) {
            Ok(_) => {},
            Err(e) => {
                return Err(e);
            },
        }
        let updated: Result<(), ExFatError> = if new_size == 0 {
            self.update_entry_size(entry, 0, 0, 0, false)
        } else {
            self.update_entry_size(
                entry,
                new_size,
                new_size,
                entry.first_cluster,
                entry.no_fat_chain,
            )
        };
        match updated {
            Ok(_) => {},
            Err(e) => {
                return Err(e);
            },
        }
        match self.sync_bitmap() {
            Ok(_) => Ok(()),
            Err(e) => Err(e),
        }
    }

    /// Frees the clusters of a file behind a new size.
    fn shrink(&mut self, entry: &ExFatFileEntry, new_size: u64) -> (r: Result<(), ExFatError>)
        requires
            old(self).wf(),
            can_shrink(old(self).info, *entry, new_size),
        ensures
            final(self).wf(),
            final(self).same_volume(old(self)),
            r != Err::<(), ExFatError>(ExFatError::Io) || (D::infallible() && old(self).complete())
                ==> (r, final(self).state()) == shrunk(
                old(self).info,
                old(self).state(),
                *entry,
                new_size,
            ),
    {
        let cs: u64 = self.info.bytes_per_cluster as u64;
        let total: u64 = count_clusters(entry.data_length, cs);
        let keep: u64 = count_clusters(new_size, cs);
        proof {
            more_size_more_clusters(0, new_size as int, cs as int);
            complete_holds_fat(self.info);
        }
        if new_size == 0 {
            let count: u32 = if entry.no_fat_chain {
                total as u32
            } else {
                0
            };
            return self.free_clusters(entry.first_cluster, count, entry.no_fat_chain);
        }
        if entry.no_fat_chain {
            if total > keep {
                let first: u32 = entry.first_cluster + keep as u32;
                return self.free_clusters(first, (total - keep) as u32, true);
            }
            return Ok(());
        }
        let ghost info = self.info;
        let ghost table = fat_table(self.device@, info);
        let mut current: u32 = entry.first_cluster;
        let mut i: u64 = 1;
        let mut ended: bool = false;
        while i < keep && !ended
            invariant
                1 <= i,
                i <= keep || keep == 0,
                self.wf(),
                *self == *old(self),
                info == self.info,
                table == fat_table(self.device@, info),
                old(self).complete() ==> holds_fat(self.device@, info),
                ended ==> walked(info, table, entry.first_cluster, keep - 1) == Ok::<
                    u32,
                    ExFatError,
                >(current),
                !ended ==> walked(info, table, entry.first_cluster, keep - 1) == walked(
                    info,
                    table,
                    current,
                    keep - i,
                ),
                keep == clusters_for(new_size as int, info.bytes_per_cluster as int),
                new_size != 0,
                !entry.no_fat_chain,
            decreases keep - i,
        {
            match self.next_cluster(current) {
                Ok(Some(next)) => {
                    current = next;
                },
                Ok(None) => {
                    ended = true;
                },
                Err(e) => {
                    return Err(e);
                },
            }
            i = i + 1;
        }
        assert(walked(info, table, entry.first_cluster, keep - 1) == Ok::<u32, ExFatError>(
            current,
        ));
        let tail: u32 = match read_entry(&self.device, &self.info, current) {
            Ok(tail) => tail,
            Err(e) => {
                return Err(e);
            },
        };
        match self.set_fat_entry(current, END_OF_CHAIN) {
            Ok(_) => {},
            Err(e) => {
                return Err(e);
            },
        }
        if self.info.is_valid_cluster(tail) {
            self.free_clusters(tail, 0, false)
        } else {
            Ok(())
        }
    }
}

impl ExFatFileWriter {
    /// Ends writing: the entry of the file gets its size and first cluster, and the bitmap
    /// is written.
    pub fn finish<D: Device>(self, fs: &mut ExFatVolume<D>) -> (r: Result<(), ExFatError>)
        requires
            old(fs).wf(),
        ensures
            final(fs).wf(),
            final(fs).same_volume(old(fs)),
            final(fs).bitmap@ == old(fs).bitmap@,
            r is Ok || D::infallible() ==> {
                let (r1, content) = resized(
                    old(fs).device@,
                    self.entry.entry_offset as int,
                    self.new_length,
                    self.new_length,
                    self.first_cluster,
                    self.is_contiguous,
                );
                match r1 {
                    Ok(_) => (r, final(fs).state()) == synced(
                        old(fs).info,
                        old(fs).bitmap.first_cluster,
                        VolState { content, ..old(fs).state() },
                    ),
                    Err(e) => r == Err::<(), ExFatError>(e),
                }
            },
    {
        match fs.update_entry_size(
            &self.entry,
            self.new_length,
            self.new_length,
            self.first_cluster,
            self.is_contiguous,
        ) {
            Ok(_) => {},
            Err(e) => {
                return Err(e);
            },
        }
        match fs.sync_bitmap() {
            Ok(_) => {},
            Err(e) => {
                return Err(e);
            },
        }
        let _flushed: Result<(), ExFatError> = fs.flush();
        Ok(())
    }
}

/// How many entries a set with the given name has.
pub open spec fn set_len(name: Seq<char>) -> int {
    2 + name_entry_count(utf16(name).len() as int)
}

/// Whether the entry set of a new, empty file was written where room for it was found.
pub open spec fn file_created<D: Device>(
    fs: &ExFatVolume<D>,
    after: Seq<u8>,
    parent: ExFatDir,
    name: Seq<char>,
    b: EntrySetBuilder,
    j: int,
    offset: u64,
    e: ExFatFileEntry,
) -> bool {
    let clusters = fs.reach(parent);
    &&& b.wf()
    &&& b.fresh()
    &&& b.name@ == name
    &&& b.attributes.bits == 0x20
    &&& found_slots(fs.device@, fs.info, clusters, set_len(name), j, offset as int)
    &&& e.parent_cluster == clusters[j]
    &&& e.entry_offset == fs.info.offset(e.parent_cluster) + offset
    &&& after == splice(
        fs.device@,
        e.entry_offset as int,
        built_set(b, fs.upcase.hash_of(name)),
    )
}

/// Whether a cluster was taken into use and cleared, the entry set of a new directory was
/// written where room for it was found, and the bitmap was written.
pub open spec fn dir_created<D: Device>(
    fs: &ExFatVolume<D>,
    after: VolState,
    parent: ExFatDir,
    name: Seq<char>,
    cluster: u32,
    b: EntrySetBuilder,
    j: int,
    offset: u64,
) -> bool {
    let info = fs.info;
    let (r, taken) = allocated_one(info, fs.state(), 2);
    let cleared = cleared_cluster(info, taken, cluster);
    let clusters = dir_reach(info, fat_table(cleared, info), parent);
    &&& r == Ok::<u32, ExFatError>(cluster)
    &&& b.wf()
    &&& b.name@ == name
    &&& b.attributes.bits == 0x10
    &&& b.first_cluster == cluster
    &&& b.valid_data_length == 0
    &&& b.data_length == info.bytes_per_cluster
    &&& b.is_contiguous
    &&& found_slots(cleared, info, clusters, set_len(name), j, offset as int)
    &&& (Ok::<(), ExFatError>(()), after) == synced(
        info,
        fs.bitmap.first_cluster,
        VolState {
            content: splice(
                cleared,
                info.offset(clusters[j]) + offset,
                built_set(b, fs.upcase.hash_of(name)),
            ),
            bits: taken.bits,
        },
    )
}

/// The content with a cluster cleared.
pub open spec fn cleared_cluster(info: ExFatInfo, s: VolState, cluster: u32) -> Seq<u8> {
    splice(
        s.content,
        info.offset(cluster),
        Seq::new(info.bytes_per_cluster as nat, |i: int| 0u8),
    )
}

proof fn more_size_more_clusters(a: int, b: int, cs: int)
    requires
        0 <= a <= b,
        cs > 0,
    ensures
        clusters_for(a, cs) <= clusters_for(b, cs),
        a > 0 ==> clusters_for(a, cs) > 0,
{
    vstd::arithmetic::div_mod::lemma_div_is_ordered(a, b, cs);
    vstd::arithmetic::div_mod::lemma_fundamental_div_mod(a, cs);
    vstd::arithmetic::div_mod::lemma_fundamental_div_mod(b, cs);
    vstd::arithmetic::div_mod::lemma_mod_bound(a, cs);
    vstd::arithmetic::div_mod::lemma_mod_bound(b, cs);
    vstd::arithmetic::div_mod::lemma_div_pos_is_pos(a, cs);
    if a / cs == b / cs {
        assert(a % cs <= b % cs);
    }
    if a > 0 && a / cs == 0 {
        assert(cs * 0 == 0);
    }
}

} // verus!
