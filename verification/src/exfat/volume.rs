//! A mounted volume: opening it, and allocating and freeing clusters.

use crate::bytes::{get_le32, get_le64};
#[allow(unused_imports)]
use crate::bytes::{from_le32, from_le64, le32};
use crate::exfat::bitmap::AllocationBitmap;
#[allow(unused_imports)]
use crate::exfat::bitmap::{
    bytes_for, contiguous_pick, first_run, flushed, free_cluster, free_cluster_found, free_count,
    is_run, no_run, unpacked,
};
use crate::exfat::device::Device;
#[allow(unused_imports)]
use crate::exfat::device::splice;
use crate::exfat::entry::{ALLOCATION_BITMAP, END_OF_DIRECTORY, UPCASE_TABLE};
use crate::exfat::error::ExFatError;
use crate::exfat::fat::{
    next_cluster, read_entry, write_entry, END_OF_CHAIN, FREE_CLUSTER, MEDIA_DESCRIPTOR,
};
#[allow(unused_imports)]
use crate::exfat::fat::{
    entry_at, entry_write_keeps_cut_entry, fat_table, holds_fat, in_entries, next_of, same_but_fat,
    same_cut_entry,
};
use crate::exfat::info::{read_boot_region, ExFatInfo};
#[allow(unused_imports)]
use crate::exfat::info::{roll32, volume_numbers};
#[allow(unused_imports)]
use crate::exfat::upcase::{ascii_table, expand, words, UPCASE_TABLE_MAX_BYTES};
use crate::exfat::upcase::UpcaseTable;
use vstd::prelude::*;

verus! {

/// How many entries of the root directory are searched for the bitmap and the up-case
/// table.
pub const MAX_SYSTEM_ENTRIES: usize = 100;

/// A mounted volume.
#[derive(Debug)]
pub struct ExFatVolume<D: Device> {
    /// The device.
    pub device: D,
    /// The volume's numbers.
    pub info: ExFatInfo,
    /// Which clusters are in use.
    pub bitmap: AllocationBitmap,
    /// The up-case table.
    pub upcase: UpcaseTable,
    /// First cluster of the root directory.
    pub root_cluster: u32,
    /// Whether the root directory is taken to be contiguous.
    pub root_contiguous: bool,
    /// Size of the root directory; 0 where it is not known.
    pub root_size: u64,
}

/// What changes when a volume is written to: what the device holds, and which clusters are
/// in use.
pub struct VolState {
    /// What the device holds.
    pub content: Seq<u8>,
    /// Which clusters are in use.
    pub bits: Seq<bool>,
}

/// What was found in the root directory: where the bitmap lies and how long it is, and the
/// up-case table.
pub struct RootScan {
    /// First cluster and length of the bitmap; 0 where there is none.
    pub bitmap: (u32, u64),
    /// The up-case table.
    pub upcase: Option<Seq<u16>>,
}

/// The up-case table of which an entry tells, or why it cannot be loaded.
pub open spec fn upcase_from(content: Seq<u8>, info: ExFatInfo, entry: Seq<u8>) -> Result<
    Seq<u16>,
    ExFatError,
> {
    let expected = from_le32(entry.subrange(4, 8));
    let first = from_le32(entry.subrange(20, 24));
    let size = from_le64(entry.subrange(24, 32));
    let at = info.offset(first);
    let raw = content.subrange(at, at + size);
    if size > info.cluster_count * info.bytes_per_cluster {
        Err(ExFatError::UpcaseExceedsVolume)
    } else if size > UPCASE_TABLE_MAX_BYTES {
        Err(ExFatError::UpcaseTooLarge)
    } else if at + size > content.len() {
        Err(ExFatError::Io)
    } else if roll32(raw) != expected {
        Err(ExFatError::InvalidChecksum { expected, found: roll32(raw) })
    } else {
        Ok(expand(words(raw), 0))
    }
}

/// What the root directory tells from entry `k` on: up to its end, and up to 100 entries.
/// Later entries override earlier ones, and a bad up-case table is an error.
pub open spec fn scan_root(content: Seq<u8>, info: ExFatInfo, k: int, found: RootScan) -> Result<
    RootScan,
    ExFatError,
>
    decreases MAX_SYSTEM_ENTRIES - k,
{
    let at = info.offset(info.root_cluster) + 32 * k;
    let entry = content.subrange(at, at + 32);
    if k >= MAX_SYSTEM_ENTRIES {
        Ok(found)
    } else if at + 32 > content.len() {
        Err(ExFatError::Io)
    } else if entry[0] == END_OF_DIRECTORY {
        Ok(found)
    } else if entry[0] == ALLOCATION_BITMAP {
        scan_root(
            content,
            info,
            k + 1,
            RootScan {
                bitmap: (
                    from_le32(entry.subrange(20, 24)),
                    from_le64(entry.subrange(24, 32)),
                ),
                ..found
            },
        )
    } else if entry[0] == UPCASE_TABLE {
        match upcase_from(content, info, entry) {
            Ok(table) => scan_root(
                content,
                info,
                k + 1,
                RootScan { upcase: Some(table), ..found },
            ),
            Err(e) => Err(e),
        }
    } else {
        scan_root(content, info, k + 1, found)
    }
}

/// Nothing found.
pub open spec fn nothing_found() -> RootScan {
    RootScan { bitmap: (0, 0), upcase: None }
}

/// The bits of the bitmap at the given place; none is set where there is no bitmap.
pub open spec fn bits_from(content: Seq<u8>, info: ExFatInfo, first: u32) -> Result<
    Seq<bool>,
    ExFatError,
> {
    let n = info.cluster_count as int;
    let at = info.offset(first);
    if first == 0 {
        Ok(Seq::new(n as nat, |i: int| false))
    } else if at + bytes_for(n) > content.len() {
        Err(ExFatError::Io)
    } else {
        Ok(unpacked(content.subrange(at, at + bytes_for(n)), n))
    }
}

impl<D: Device> ExFatVolume<D> {
    /// Whether the numbers are possible and every cluster has a bit.
    pub open spec fn wf(&self) -> bool {
        &&& self.info.wf()
        &&& self.bitmap@.len() == self.info.cluster_count
        &&& self.root_cluster == self.info.root_cluster
    }

    /// What changes when the volume is written to.
    pub open spec fn state(&self) -> VolState {
        VolState { content: self.device@, bits: self.bitmap@ }
    }

    /// Whether the device holds the whole volume.
    pub open spec fn complete(&self) -> bool {
        self.device@.len() >= self.info.end()
    }

    /// Whether everything but the state is as it was.
    pub open spec fn same_volume(&self, other: &Self) -> bool {
        &&& self.info == other.info
        &&& self.bitmap.first_cluster == other.bitmap.first_cluster
        &&& self.bitmap.data_length == other.bitmap.data_length
        &&& self.upcase == other.upcase
        &&& self.root_cluster == other.root_cluster
        &&& self.root_contiguous == other.root_contiguous
        &&& self.root_size == other.root_size
        &&& self.device@.len() == other.device@.len()
        &&& self.bitmap@.len() == other.bitmap@.len()
    }

    /// Opens the volume that a device holds: reads the boot region, searches the root
    /// directory for the bitmap and the up-case table and loads both. Without an up-case
    /// table the letters of ASCII are used.
    pub fn open(device: D) -> (r: Result<Self, ExFatError>)
        ensures
            match r {
                Ok(v) => {
                    &&& v.wf()
                    &&& v.device == device
                    &&& volume_numbers(device@) == Ok::<ExFatInfo, ExFatError>(v.info)
                    &&& v.root_contiguous
                    &&& v.root_size == 0
                    &&& v.upcase.valid
                    &&& scan_root(device@, v.info, 0, nothing_found()) matches Ok(found) && {
                        &&& v.bitmap.first_cluster == found.bitmap.0
                        &&& v.bitmap.data_length == found.bitmap.1
                        &&& bits_from(device@, v.info, found.bitmap.0) == Ok::<
                            Seq<bool>,
                            ExFatError,
                        >(v.bitmap@)
                        &&& v.upcase.data@ == match found.upcase {
                            Some(table) => table,
                            None => ascii_table(),
                        }
                    }
                },
                Err(e) => {
                    ||| volume_numbers(device@) == Err::<ExFatInfo, ExFatError>(e)
                    ||| e == ExFatError::Io && !D::infallible()
                    ||| volume_numbers(device@) matches Ok(info) && {
                        let scan = scan_root(device@, info, 0, nothing_found());
                        ||| scan == Err::<RootScan, ExFatError>(e)
                        ||| scan matches Ok(found) && bits_from(device@, info, found.bitmap.0)
                            == Err::<Seq<bool>, ExFatError>(e)
                    }
                },
            },
    {
        let info: ExFatInfo = match read_boot_region(&device) {
            Ok(info) => info,
            Err(e) => {
                return Err(e);
            },
        };
        let mut first: u32 = 0;
        let mut length: u64 = 0;
        let mut upcase: UpcaseTable = UpcaseTable::new();
        let ghost content = device@;
        let ghost goal = scan_root(content, info, 0, nothing_found());
        let ghost mut found = nothing_found();
        let root: u64 = info.cluster_to_offset(info.root_cluster);
        let mut k: usize = 0;
        let mut done: bool = false;
        while k < MAX_SYSTEM_ENTRIES && !done
            invariant
                k <= MAX_SYSTEM_ENTRIES,
                content == device@,
                info.wf(),
                volume_numbers(content) == Ok::<ExFatInfo, ExFatError>(info),
                root == info.offset(info.root_cluster),
                root <= 0xFFFFFFFF * 4096 + 0xFFFFFFFF * 33554432,
                goal == scan_root(content, info, 0, nothing_found()),
                done ==> goal == Ok::<RootScan, ExFatError>(found),
                !done ==> goal == scan_root(content, info, k as int, found),
                found.bitmap == (first, length),
                found.upcase is Some <==> upcase.valid,
                found.upcase matches Some(table) ==> upcase.data@ == table,
            decreases MAX_SYSTEM_ENTRIES - k,
        {
            let at: u64 = root + 32 * k as u64;
            let entry: Vec<u8> = match device.read_at(at, 32) {
                Ok(data) => data,
                Err(e) => {
                    return Err(e);
                },
            };
            let kind: u8 = entry[0];
            if kind == END_OF_DIRECTORY {
                done = true;
            } else if kind == ALLOCATION_BITMAP {
                first = get_le32(entry.as_slice(), 20);
                length = get_le64(entry.as_slice(), 24);
                proof {
                    found = RootScan { bitmap: (first, length), ..found };
                }
            } else if kind == UPCASE_TABLE {
                let expected: u32 = get_le32(entry.as_slice(), 4);
                let table_cluster: u32 = get_le32(entry.as_slice(), 20);
                let size: u64 = get_le64(entry.as_slice(), 24);
                match upcase.load_checked(&device, &info, table_cluster, size, true, expected) {
                    Ok(_) => {},
                    Err(e) => {
                        return Err(e);
                    },
                }
                proof {
                    found = RootScan { upcase: Some(upcase.data@), ..found };
                }
            }
            k += 1;
        }
        let mut bitmap: AllocationBitmap = AllocationBitmap::new(
            first,
            length,
            info.cluster_count,
        );
        if first != 0 {
            match bitmap.load(&device, &info) {
                Ok(_) => {},
                Err(e) => {
                    return Err(e);
                },
            }
        }
        if !upcase.is_valid() {
            upcase = UpcaseTable::create_default();
        }
        Ok(
            ExFatVolume {
                device,
                info,
                bitmap,
                upcase,
                root_cluster: info.root_cluster,
                root_contiguous: true,
                root_size: 0,
            },
        )
    }

    /// The volume's numbers.
    pub fn info(&self) -> (r: &ExFatInfo)
        ensures
            *r == self.info,
    {
        &self.info
    }

    /// The cluster that follows in a chain.
    pub fn next_cluster(&self, cluster: u32) -> (r: Result<Option<u32>, ExFatError>)
        requires
            self.wf(),
        ensures
            match r {
                Ok(next) => self.info.has(cluster) && next_of(
                    self.info,
                    fat_table(self.device@, self.info)[cluster as int],
                ) == Ok::<Option<u32>, ExFatError>(next),
                Err(ExFatError::Io) => self.info.has(cluster) && (D::infallible() ==> entry_at(
                    self.info,
                    cluster as int,
                ) + 4 > self.device@.len() && !self.complete()),
                Err(e) => {
                    ||| !self.info.has(cluster) && e == ExFatError::InvalidCluster(cluster)
                    ||| self.info.has(cluster) && next_of(
                        self.info,
                        fat_table(self.device@, self.info)[cluster as int],
                    ) == Err::<Option<u32>, ExFatError>(e)
                },
            },
    {
        proof {
            complete_holds_fat(self.info);
        }
        next_cluster(&self.device, &self.info, cluster)
    }

    /// Reads bytes of the device.
    pub fn read_at(&self, offset: u64, len: usize) -> (r: Result<Vec<u8>, ExFatError>)
        ensures
            match r {
                Ok(data) => offset + len <= self.device@.len() && data@ == self.device@.subrange(
                    offset as int,
                    offset + len,
                ),
                Err(e) => e == ExFatError::Io && (D::infallible() ==> offset + len
                    > self.device@.len()),
            },
    {
        self.device.read_at(offset, len)
    }

    /// Writes bytes of the device.
    pub fn write_at(&mut self, offset: u64, data: &[u8]) -> (r: Result<(), ExFatError>)
        requires
            old(self).wf(),
        ensures
            final(self).wf(),
            final(self).same_volume(old(self)),
            final(self).bitmap@ == old(self).bitmap@,
            match r {
                Ok(_) => offset + data@.len() <= old(self).device@.len() && final(self).device@
                    == splice(old(self).device@, offset as int, data@),
                Err(e) => e == ExFatError::Io && (D::infallible() ==> offset + data@.len() > old(
                    self,
                ).device@.len() && final(self).device@ == old(self).device@),
            },
    {
        self.device.write_at(offset, data)
    }

    /// Makes earlier writes durable.
    pub fn flush(&mut self) -> (r: Result<(), ExFatError>)
        requires
            old(self).wf(),
        ensures
            final(self).wf(),
            final(self).same_volume(old(self)),
            final(self).state() == old(self).state(),
            r matches Err(e) ==> e == ExFatError::Io && !D::infallible(),
    {
        self.device.flush()
    }

    /// Whether two names differ in case only.
    pub fn names_equal(&self, name1: &str, name2: &str) -> (r: bool)
        ensures
            r == self.upcase.same_name(name1@, name2@),
    {
        self.upcase.names_equal(name1, name2)
    }

    /// The hash of a name.
    pub fn name_hash(&self, name: &str) -> (r: u16)
        ensures
            r == self.upcase.hash_of(name@),
    {
        self.upcase.name_hash(name)
    }

    /// How many clusters are free.
    pub fn free_cluster_count(&self) -> (r: u32)
        requires
            self.wf(),
        ensures
            r == free_count(self.bitmap@),
    {
        self.bitmap.free_cluster_count()
    }

    /// Whether a cluster is in use.
    pub fn is_cluster_allocated(&self, cluster: u32) -> (r: Result<bool, ExFatError>)
        requires
            self.wf(),
        ensures
            r == (if self.info.has(cluster) {
                Ok::<bool, ExFatError>(self.bitmap@[cluster - 2])
            } else {
                Err(ExFatError::InvalidCluster(cluster))
            }),
    {
        self.bitmap.is_allocated(cluster)
    }

    /// The serial number.
    pub fn volume_serial(&self) -> (r: u32)
        ensures
            r == self.info.volume_serial,
    {
        self.info.volume_serial
    }

    /// Takes a free cluster into use: the first at or behind the hint, or else the first of
    /// all. In the FAT it ends a chain.
    pub fn allocate_cluster(&mut self, hint: u32) -> (r: Result<u32, ExFatError>)
        requires
            old(self).wf(),
        ensures
            final(self).wf(),
            final(self).same_volume(old(self)),
            r matches Err(e) ==> e == ExFatError::NoFreeSpace || e == ExFatError::Io,
            r == Err::<u32, ExFatError>(ExFatError::NoFreeSpace) <==> free_cluster(
                old(self).bitmap@,
                hint,
            ) is None,
            r is Ok || free_cluster(old(self).bitmap@, hint) is None || (D::infallible() && old(
                self,
            ).complete()) ==> (r, final(self).state()) == allocated_one(
                old(self).info,
                old(self).state(),
                hint,
            ),
            r matches Ok(c) ==> old(self).info.has(c) && !old(self).bitmap@[c - 2],
            r == Err::<u32, ExFatError>(ExFatError::Io) ==> {
                let c = free_cluster(old(self).bitmap@, hint)->Some_0;
                &&& final(self).bitmap@ == old(self).bitmap@.update(c - 2, true)
                &&& D::infallible() ==> entry_at(old(self).info, c as int) + 4 > old(
                    self,
                ).device@.len() && final(self).device@ == old(self).device@
            },
    {
        let cluster: u32 = match self.bitmap.find_free_cluster(hint) {
            Some(c) => c,
            None => {
                return Err(ExFatError::NoFreeSpace);
            },
        };
        let _marked: Result<(), ExFatError> = self.bitmap.set_allocated(cluster, true);
        proof {
            complete_holds_fat(self.info);
        }
        match write_entry(&mut self.device, &self.info, cluster, END_OF_CHAIN) {
            Ok(_) => Ok(cluster),
            Err(e) => Err(e),
        }
    }

    /// Writes an entry of the FAT.
    pub fn set_fat_entry(&mut self, cluster: u32, value: u32) -> (r: Result<(), ExFatError>)
        requires
            old(self).wf(),
        ensures
            final(self).wf(),
            final(self).same_volume(old(self)),
            final(self).bitmap@ == old(self).bitmap@,
            match r {
                Ok(_) => old(self).info.has(cluster) && final(self).device@ == with_entry(
                    old(self).info,
                    old(self).device@,
                    cluster,
                    value,
                ),
                Err(ExFatError::Io) => old(self).info.has(cluster) && (D::infallible() ==> entry_at(
                    old(self).info,
                    cluster as int,
                ) + 4 > old(self).device@.len() && !old(self).complete() && final(self).device@
                    == old(self).device@),
                Err(e) => !old(self).info.has(cluster) && e == ExFatError::InvalidCluster(cluster)
                    && final(self).device@ == old(self).device@,
            },
    {
        proof {
            complete_holds_fat(self.info);
        }
        write_entry(&mut self.device, &self.info, cluster, value)
    }

    /// Takes `count` clusters into use. A run at or behind the hint, or else the first of
    /// all, needs no chain in the FAT; without a run, single clusters are taken and linked.
    /// Where there are not enough, nothing changes.
    pub fn allocate_clusters(&mut self, count: u32, hint: u32) -> (r: Result<
        (u32, bool),
        ExFatError,
    >)
        requires
            old(self).wf(),
        ensures
            final(self).wf(),
            final(self).same_volume(old(self)),
            r is Ok || (D::infallible() && old(self).complete()) ==> (r, final(self).state())
                == allocated_many(old(self).info, old(self).state(), count, hint),
            r == Err::<(u32, bool), ExFatError>(ExFatError::NoFreeSpace) <==> allocated_many(
                old(self).info,
                old(self).state(),
                count,
                hint,
            ).0 == Err::<(u32, bool), ExFatError>(ExFatError::NoFreeSpace),
            r == Err::<(u32, bool), ExFatError>(ExFatError::NoFreeSpace) ==> final(self).state()
                == old(self).state(),
            r matches Err(e) ==> final(self).bitmap@ == old(self).bitmap@ && (e
                == ExFatError::NoFreeSpace || e == ExFatError::Io),
            r == Err::<(u32, bool), ExFatError>(ExFatError::Io) ==> count > 0 && run_pick(
                old(self).bitmap@,
                count as int,
                hint,
            ) is None,
    {
        if count == 0 {
            return Ok((0, true));
        }
        let ghost bits0 = self.bitmap@;
        let ghost info = self.info;
        let ghost content0 = self.device@;
        let ghost pick = run_pick(bits0, count as int, hint);
        match self.bitmap.find_contiguous_free(count, hint) {
            Some(first) => {
                proof {
                    pick_is_unique(bits0, count as int, hint, Some(first), pick);
                }
                self.mark_run(first, count);
                return Ok((first, true));
            },
            None => {
                proof {
                    pick_is_unique(bits0, count as int, hint, None, pick);
                }
            },
        }
        let mut allocated: Vec<u32> = Vec::new();
        let mut next_hint: u32 = hint;
        let mut i: u32 = 0;
        let ghost goal = picked(bits0, hint, count as int);
        proof {
            assert(bits0 == marked(bits0, allocated@, true));
            assert(allocated@ + Seq::<u32>::empty() =~= Seq::<u32>::empty());
        }
        while i < count
            invariant
                i <= count,
                self.wf(),
                self.same_volume(old(self)),
                self.info == info,
                self.device@ == content0,
                old(self).bitmap@ == bits0,
                old(self).state() == (VolState { content: content0, bits: bits0 }),
                old(self).info == info,
                bits0.len() == info.cluster_count,
                count > 0,
                run_pick(bits0, count as int, hint) is None,
                goal == picked(bits0, hint, count as int),
                allocated@.len() == i,
                self.bitmap@ == marked(bits0, allocated@, true),
                all_free(info, bits0, allocated@),
                match picked(self.bitmap@, next_hint, count - i) {
                    Some(rest) => goal == Some(allocated@ + rest),
                    None => goal is None,
                },
            decreases count - i,
        {
            match self.bitmap.find_free_cluster(next_hint) {
                Some(c) => {
                    let ghost before = allocated@;
                    let ghost bits = self.bitmap@;
                    let _marked: Result<(), ExFatError> = self.bitmap.set_allocated(c, true);
                    allocated.push(c);
                    proof {
                        assert(allocated@.drop_last() =~= before);
                        assert(self.bitmap@ =~= marked(bits0, allocated@, true));
                        free_in_marked(info, bits0, before, c);
                        match picked(self.bitmap@, (if c == u32::MAX { c } else { (c + 1) as u32 }), count - i - 1) {
                            Some(rest) => {
                                assert(before + (seq![c] + rest) =~= allocated@ + rest);
                            },
                            None => {},
                        }
                    }
                    next_hint = c.saturating_add(1);
                    i += 1;
                },
                None => {
                    self.unmark(&allocated, Ghost(bits0));
                    return Err(ExFatError::NoFreeSpace);
                },
            }
        }
        assert(goal == Some(allocated@)) by {
            assert(allocated@ + Seq::<u32>::empty() =~= allocated@);
        }
        match self.link_chain(&allocated) {
            Ok(_) => {},
            Err(e) => {
                self.unmark(&allocated, Ghost(bits0));
                return Err(e);
            },
        }
        Ok((allocated[0], false))
    }

    /// Marks a run of clusters as in use.
    fn mark_run(&mut self, first: u32, count: u32)
        requires
            old(self).wf(),
            first >= 2,
            is_run(old(self).bitmap@, first - 2, count as int),
        ensures
            final(self).wf(),
            final(self).same_volume(old(self)),
            final(self).state() == (VolState {
                bits: marked_run(old(self).bitmap@, first - 2, count as int, true),
                ..old(self).state()
            }),
    {
        let ghost bits = self.bitmap@;
        let mut i: u32 = 0;
        assert(bits =~= marked_run(bits, first - 2, 0, true));
        while i < count
            invariant
                i <= count,
                self.wf(),
                self.same_volume(old(self)),
                self.device@ == old(self).device@,
                bits == old(self).bitmap@,
                first >= 2,
                first - 2 + count <= bits.len(),
                self.bitmap@ == marked_run(bits, first - 2, i as int, true),
            decreases count - i,
        {
            let _marked: Result<(), ExFatError> = self.bitmap.set_allocated(first + i, true);
            i += 1;
            assert(self.bitmap@ =~= marked_run(bits, first - 2, i as int, true));
        }
    }

    /// Marks clusters that were free before as free again.
    fn unmark(&mut self, clusters: &Vec<u32>, Ghost(bits): Ghost<Seq<bool>>)
        requires
            old(self).wf(),
            bits.len() == old(self).bitmap@.len(),
            old(self).bitmap@ == marked(bits, clusters@, true),
            all_free(old(self).info, bits, clusters@),
        ensures
            final(self).wf(),
            final(self).same_volume(old(self)),
            final(self).device@ == old(self).device@,
            final(self).bitmap@ == bits,
    {
        let ghost start = self.bitmap@;
        let mut i: usize = 0;
        assert(clusters@.take(0) =~= Seq::empty());
        while i < clusters.len()
            invariant
                i <= clusters@.len(),
                self.wf(),
                self.same_volume(old(self)),
                self.device@ == old(self).device@,
                start == marked(bits, clusters@, true),
                all_free(self.info, bits, clusters@),
                bits.len() == self.info.cluster_count,
                self.bitmap@ == marked(start, clusters@.take(i as int), false),
            decreases clusters.len() - i,
        {
            let c: u32 = clusters[i];
            assert(self.info.has(clusters@[i as int]));
            let _marked: Result<(), ExFatError> = self.bitmap.set_allocated(c, false);
            assert(clusters@.take(i + 1).drop_last() =~= clusters@.take(i as int));
            i += 1;
        }
        proof {
            assert(clusters@.take(i as int) =~= clusters@);
            unmarked(self.info, bits, clusters@);
        }
    }

    /// Links clusters to a chain.
    fn link_chain(&mut self, clusters: &Vec<u32>) -> (r: Result<(), ExFatError>)
        requires
            old(self).wf(),
            clusters@.len() > 0,
            forall|i: int|
                0 <= i < clusters@.len() ==> old(self).info.has(#[trigger] clusters@[i]),
        ensures
            final(self).wf(),
            final(self).same_volume(old(self)),
            final(self).bitmap@ == old(self).bitmap@,
            r is Ok ==> final(self).device@ == linked(
                old(self).info,
                old(self).device@,
                clusters@,
                clusters@.len() as int,
            ),
            r matches Err(e) ==> e == ExFatError::Io && !(D::infallible() && old(
                self,
            ).complete()),
    {
        let ghost content = self.device@;
        let n: usize = clusters.len();
        let mut i: usize = 0;
        while i < n
            invariant
                i <= n,
                n == clusters@.len(),
                n > 0,
                self.wf(),
                self.same_volume(old(self)),
                self.bitmap@ == old(self).bitmap@,
                self.info == old(self).info,
                content == old(self).device@,
                forall|k: int|
                    0 <= k < clusters@.len() ==> old(self).info.has(#[trigger] clusters@[k]),
                self.device@ == linked(self.info, content, clusters@, i as int),
            decreases n - i,
        {
            let value: u32 = if i + 1 < n {
                clusters[i + 1]
            } else {
                END_OF_CHAIN
            };
            assert(self.info.has(clusters@[i as int]));
            match self.set_fat_entry(clusters[i], value) {
                Ok(_) => {},
                Err(e) => {
                    return Err(e);
                },
            }
            i += 1;
        }
        Ok(())
    }

    /// Frees clusters: `count` that follow each other, or those of a chain, whose entries
    /// in the FAT are freed too. Nothing is allocated below the first cluster's number.
    pub fn free_clusters(&mut self, first: u32, count: u32, is_contiguous: bool) -> (r: Result<
        (),
        ExFatError,
    >)
        requires
            old(self).wf(),
        ensures
            final(self).wf(),
            final(self).same_volume(old(self)),
            r != Err::<(), ExFatError>(ExFatError::Io) || (D::infallible() && old(self).complete())
                ==> (r, final(self).state()) == freed(
                old(self).info,
                old(self).state(),
                first,
                count,
                is_contiguous,
            ),
            r matches Err(e) ==> e == ExFatError::Io || e is InvalidCluster,
            r == Err::<(), ExFatError>(ExFatError::Io) ==> first >= 2 && !is_contiguous,
    {
        if first < 2 {
            return Ok(());
        }
        let ghost info = self.info;
        let ghost bits0 = self.bitmap@;
        if is_contiguous {
            let mut i: u32 = 0;
            assert(bits0 =~= marked_run(bits0, first - 2, 0, false));
            while i < count
                invariant
                    i <= count,
                    is_contiguous,
                    first >= 2,
                    first + i <= info.cluster_count + 2 || i == 0,
                    self.wf(),
                    self.same_volume(old(self)),
                    self.info == info,
                    old(self).info == info,
                    self.device@ == old(self).device@,
                    bits0 == old(self).bitmap@,
                    bits0.len() == info.cluster_count,
                    i > 0 ==> first - 2 + i <= bits0.len(),
                    self.bitmap@ == marked_run(bits0, first - 2, i as int, false),
                decreases count - i,
            {
                match self.bitmap.set_allocated(first + i, false) {
                    Ok(_) => {},
                    Err(e) => {
                        proof {
                            let there = if first - 2 >= bits0.len() {
                                0int
                            } else {
                                bits0.len() - (first - 2)
                            };
                            assert(there == i);
                        }
                        return Err(e);
                    },
                }
                i += 1;
                assert(self.bitmap@ =~= marked_run(bits0, first - 2, i as int, false));
            }
            return Ok(());
        }
        let ghost table0 = fat_table(self.device@, info);
        let ghost complete = self.complete();
        let mut current: u32 = first;
        proof {
            complete_holds_fat(info);
        }
        let ghost mut left: int = chain_measure(info, table0, first);
        let ghost mut table = table0;
        loop
            invariant
                self.wf(),
                self.same_volume(old(self)),
                self.info == info,
                old(self).info == info,
                info.wf(),
                first >= 2,
                !is_contiguous,
                complete == old(self).complete(),
                complete ==> holds_fat(old(self).device@, info),
                old(self).state() == (VolState { content: old(self).device@, bits: bits0 }),
                table0 == fat_table(old(self).device@, info),
                table.len() == info.cluster_count + 2,
                left == chain_measure(info, table, current),
                table == fat_table(self.device@, info),
                same_but_fat(old(self).device@, self.device@, info),
                same_cut_entry(old(self).device@, self.device@, info),
                freed_chain(info, table0, bits0, first) == freed_chain(
                    info,
                    table,
                    self.bitmap@,
                    current,
                ),
            decreases left,
        {
            let ghost bits = self.bitmap@;
            match self.bitmap.set_allocated(current, false) {
                Ok(_) => {},
                Err(e) => {
                    proof {
                        with_table_is(info, old(self).device@, self.device@);
                    }
                    return Err(e);
                },
            }
            let next: u32 = match read_entry(&self.device, &self.info, current) {
                Ok(next) => next,
                Err(e) => {
                    return Err(e);
                },
            };
            let ghost content = self.device@;
            match write_entry(&mut self.device, &self.info, current, FREE_CLUSTER) {
                Ok(_) => {
                    proof {
                        entry_write_keeps_cut_entry(
                            old(self).device@,
                            content,
                            info,
                            current,
                            FREE_CLUSTER,
                        );
                    }
                },
                Err(e) => {
                    return Err(e);
                },
            }
            proof {
                chain_measure_drops(info, table, current, next);
                table = table.update(current as int, 0);
                left = chain_measure(info, table, next);
            }
            if next >= MEDIA_DESCRIPTOR {
                proof {
                    with_table_is(info, old(self).device@, self.device@);
                }
                return Ok(());
            }
            current = next;
        }
    }

    /// Writes the bitmap to the device.
    pub fn sync_bitmap(&mut self) -> (r: Result<(), ExFatError>)
        requires
            old(self).wf(),
        ensures
            final(self).wf(),
            final(self).same_volume(old(self)),
            final(self).bitmap@ == old(self).bitmap@,
            match r {
                Ok(_) => {
                    &&& final(self).device@ == flushed(
                        old(self).bitmap,
                        old(self).device@,
                        old(self).info,
                    )
                    &&& old(self).bitmap.first_cluster >= 2 ==> old(self).info.offset(
                        old(self).bitmap.first_cluster,
                    ) + bytes_for(old(self).bitmap@.len() as int) <= old(self).device@.len()
                },
                Err(e) => e == ExFatError::Io && old(self).bitmap.first_cluster >= 2 && (
                D::infallible() ==> old(self).info.offset(old(self).bitmap.first_cluster)
                    + bytes_for(old(self).bitmap@.len() as int) > old(self).device@.len()
                    && final(self).device@ == old(self).device@),
            },
    {
        self.bitmap.flush(&mut self.device, &self.info)
    }
}

/// A device that holds the whole volume holds its FAT.
pub proof fn complete_holds_fat(info: ExFatInfo)
    requires
        info.wf(),
    ensures
        forall|content: Seq<u8>|
            content.len() >= info.end() ==> #[trigger] holds_fat(content, info),
{
    let n = info.cluster_count as int;
    let b = info.bytes_per_cluster as int;
    assert(n * b >= 0) by (nonlinear_arith)
        requires
            n >= 0,
            b >= 0,
    ;
}

/// The content with an entry of the FAT replaced.
pub open spec fn with_entry(info: ExFatInfo, content: Seq<u8>, cluster: u32, value: u32) -> Seq<u8> {
    splice(content, entry_at(info, cluster as int), le32(value))
}

/// What taking one cluster into use comes to.
pub open spec fn allocated_one(info: ExFatInfo, s: VolState, hint: u32) -> (
    Result<u32, ExFatError>,
    VolState,
) {
    match free_cluster(s.bits, hint) {
        Some(c) => (
            Ok(c),
            VolState {
                content: with_entry(info, s.content, c, END_OF_CHAIN),
                bits: s.bits.update(c - 2, true),
            },
        ),
        None => (Err(ExFatError::NoFreeSpace), s),
    }
}

/// The bits with the given clusters marked.
pub open spec fn marked(bits: Seq<bool>, clusters: Seq<u32>, value: bool) -> Seq<bool>
    decreases clusters.len(),
{
    if clusters.len() == 0 {
        bits
    } else {
        marked(bits, clusters.drop_last(), value).update(clusters.last() - 2, value)
    }
}

/// The bits with a run marked.
pub open spec fn marked_run(bits: Seq<bool>, from: int, n: int, value: bool) -> Seq<bool> {
    Seq::new(
        bits.len(),
        |i: int|
            if from <= i < from + n {
                value
            } else {
                bits[i]
            },
    )
}

/// The clusters that are taken one by one, each at or behind the one before; nothing where
/// there are not enough.
pub open spec fn picked(bits: Seq<bool>, hint: u32, n: int) -> Option<Seq<u32>>
    decreases n,
{
    if n <= 0 {
        Some(Seq::empty())
    } else {
        match free_cluster(bits, hint) {
            None => None,
            Some(c) => match picked(
                bits.update(c - 2, true),
                if c == u32::MAX {
                    c
                } else {
                    (c + 1) as u32
                },
                n - 1,
            ) {
                None => None,
                Some(rest) => Some(seq![c] + rest),
            },
        }
    }
}

/// The content with the first `k` clusters of a chain linked, each to the next and the last
/// to the end.
pub open spec fn linked(info: ExFatInfo, content: Seq<u8>, clusters: Seq<u32>, k: int) -> Seq<u8>
    decreases k,
{
    if k <= 0 {
        content
    } else {
        with_entry(
            info,
            linked(info, content, clusters, k - 1),
            clusters[k - 1],
            if k < clusters.len() {
                clusters[k]
            } else {
                END_OF_CHAIN
            },
        )
    }
}

/// The run of free clusters that is taken, if there is one.
pub open spec fn run_pick(bits: Seq<bool>, n: int, hint: u32) -> Option<u32> {
    choose|p: Option<u32>| contiguous_pick(bits, n, hint, p)
}

/// What taking several clusters into use comes to.
pub open spec fn allocated_many(info: ExFatInfo, s: VolState, count: u32, hint: u32) -> (
    Result<(u32, bool), ExFatError>,
    VolState,
) {
    if count == 0 {
        (Ok((0, true)), s)
    } else {
        match run_pick(s.bits, count as int, hint) {
            Some(first) => (
                Ok((first, true)),
                VolState { bits: marked_run(s.bits, first - 2, count as int, true), ..s },
            ),
            None => match picked(s.bits, hint, count as int) {
                None => (Err(ExFatError::NoFreeSpace), s),
                Some(list) => (
                    Ok((list[0], false)),
                    VolState {
                        content: linked(info, s.content, list, list.len() as int),
                        bits: marked(s.bits, list, true),
                    },
                ),
            },
        }
    }
}

/// Whether the clusters are of the volume and free.
pub open spec fn all_free(info: ExFatInfo, bits: Seq<bool>, clusters: Seq<u32>) -> bool {
    forall|i: int|
        0 <= i < clusters.len() ==> info.has(#[trigger] clusters[i]) && !bits[clusters[i] - 2]
}

proof fn first_run_is_unique(bits: Seq<bool>, from: int, n: int, a: int, b: int)
    requires
        first_run(bits, from, n, a),
        first_run(bits, from, n, b),
    ensures
        a == b,
{
    if a < b {
        assert(!is_run(bits, a, n));
    } else if b < a {
        assert(!is_run(bits, b, n));
    }
}

proof fn pick_is_unique(bits: Seq<bool>, n: int, hint: u32, p: Option<u32>, q: Option<u32>)
    requires
        contiguous_pick(bits, n, hint, p),
        q == run_pick(bits, n, hint),
    ensures
        p == q,
{
    let s = crate::exfat::bitmap::search_start(bits.len() as int, hint);
    assert(contiguous_pick(bits, n, hint, q));
    match (p, q) {
        (Some(a), Some(b)) => {
            if first_run(bits, s, n, a - 2) {
                if first_run(bits, s, n, b - 2) {
                    first_run_is_unique(bits, s, n, a - 2, b - 2);
                } else {
                    assert(!is_run(bits, a - 2, n));
                }
            } else {
                if first_run(bits, s, n, b - 2) {
                    assert(!is_run(bits, b - 2, n));
                } else {
                    first_run_is_unique(bits, 0, n, a - 2, b - 2);
                }
            }
        },
        (Some(a), None) => {
            assert(is_run(bits, a - 2, n));
            if first_run(bits, s, n, a - 2) {
                assert(!is_run(bits, a - 2, n));
            } else {
                assert(!is_run(bits, a - 2, n));
            }
        },
        (None, Some(b)) => {
            assert(is_run(bits, b - 2, n));
            if first_run(bits, s, n, b - 2) {
                assert(!is_run(bits, b - 2, n));
            } else {
                assert(!is_run(bits, b - 2, n));
            }
        },
        (None, None) => {},
    }
}

proof fn marked_at(bits: Seq<bool>, clusters: Seq<u32>, value: bool, k: int)
    requires
        0 <= k < bits.len(),
        forall|i: int| 0 <= i < clusters.len() ==> 2 <= #[trigger] clusters[i] < bits.len() + 2,
    ensures
        marked(bits, clusters, value).len() == bits.len(),
        marked(bits, clusters, value)[k] == (if exists|i: int|
            0 <= i < clusters.len() && #[trigger] clusters[i] == k + 2 {
            value
        } else {
            bits[k]
        }),
    decreases clusters.len(),
{
    if clusters.len() > 0 {
        let init = clusters.drop_last();
        assert forall|i: int| 0 <= i < init.len() implies 2 <= #[trigger] init[i] < bits.len()
            + 2 by {
            assert(init[i] == clusters[i]);
        }
        marked_at(bits, init, value, k);
        if exists|i: int| 0 <= i < clusters.len() && #[trigger] clusters[i] == k + 2 {
            let i = choose|i: int| 0 <= i < clusters.len() && #[trigger] clusters[i] == k + 2;
            if clusters.last() != k + 2 {
                assert(init[i] == k + 2);
            }
        } else {
            assert(clusters[clusters.len() - 1] != k + 2);
            if exists|i: int| 0 <= i < init.len() && #[trigger] init[i] == k + 2 {
                let i = choose|i: int| 0 <= i < init.len() && #[trigger] init[i] == k + 2;
                assert(clusters[i] == k + 2);
            }
        }
    }
}

proof fn free_in_marked(info: ExFatInfo, bits: Seq<bool>, clusters: Seq<u32>, c: u32)
    requires
        bits.len() == info.cluster_count,
        all_free(info, bits, clusters),
        info.has(c),
        !marked(bits, clusters, true)[c - 2],
    ensures
        all_free(info, bits, clusters.push(c)),
{
    assert forall|i: int| 0 <= i < clusters.len() implies 2 <= #[trigger] clusters[i] < bits.len()
        + 2 by {
        assert(info.has(clusters[i]));
    }
    marked_at(bits, clusters, true, c - 2);
}

/// Marking clusters that were free and unmarking them leaves the bits as they were.
pub proof fn unmarked(info: ExFatInfo, bits: Seq<bool>, clusters: Seq<u32>)
    requires
        bits.len() == info.cluster_count,
        all_free(info, bits, clusters),
    ensures
        marked(marked(bits, clusters, true), clusters, false) == bits,
{
    let a = marked(bits, clusters, true);
    let b = marked(a, clusters, false);
    assert forall|i: int| 0 <= i < clusters.len() implies 2 <= #[trigger] clusters[i] < bits.len()
        + 2 by {
        assert(info.has(clusters[i]));
    }
    if bits.len() > 0 {
        marked_at(bits, clusters, true, 0);
        marked_at(a, clusters, false, 0);
    }
    assert(b.len() == bits.len()) by {
        if bits.len() == 0 {
            if clusters.len() > 0 {
                assert(info.has(clusters[0]));
            }
        }
    }
    assert forall|k: int| 0 <= k < bits.len() implies b[k] == bits[k] by {
        marked_at(bits, clusters, true, k);
        marked_at(a, clusters, false, k);
        if exists|i: int| 0 <= i < clusters.len() && #[trigger] clusters[i] == k + 2 {
            let i = choose|i: int| 0 <= i < clusters.len() && #[trigger] clusters[i] == k + 2;
            assert(!bits[clusters[i] - 2]);
        }
    }
    assert(b =~= bits);
}

/// How many entries of the table are not free.
pub open spec fn used_entries(table: Seq<u32>) -> int
    decreases table.len(),
{
    if table.len() == 0 {
        0
    } else {
        used_entries(table.drop_last()) + (if table.last() == 0 {
            0int
        } else {
            1int
        })
    }
}

/// Decreases with every cluster of a chain that is freed.
pub open spec fn chain_measure(info: ExFatInfo, table: Seq<u32>, current: u32) -> int {
    2 * used_entries(table) + (if info.has(current) {
        1int
    } else {
        0int
    })
}

proof fn used_entries_update(table: Seq<u32>, i: int)
    requires
        0 <= i < table.len(),
    ensures
        used_entries(table) >= 0,
        used_entries(table.update(i, 0)) == used_entries(table) - (if table[i] == 0 {
            0int
        } else {
            1int
        }),
        used_entries(table.update(i, 0)) >= 0,
    decreases table.len(),
{
    let init = table.drop_last();
    if i == table.len() - 1 {
        assert(table.update(i, 0).drop_last() =~= init);
        if init.len() > 0 {
            used_entries_update(init, 0);
        }
    } else {
        used_entries_update(init, i);
        assert(table.update(i, 0).drop_last() =~= init.update(i, 0));
    }
}

/// The measure of what is left to free drops with each cluster.
pub proof fn chain_measure_drops(info: ExFatInfo, table: Seq<u32>, current: u32, next: u32)
    requires
        info.wf(),
        info.has(current),
        table.len() == info.cluster_count + 2,
        next == table[current as int],
    ensures
        0 <= chain_measure(info, table.update(current as int, 0), next) < chain_measure(
            info,
            table,
            current,
        ),
{
    used_entries_update(table, current as int);
}

/// What freeing the chain from `current` on comes to: each cluster is marked as free and its
/// entry cleared, up to the end of the chain or a number that is no cluster.
pub open spec fn freed_chain(info: ExFatInfo, table: Seq<u32>, bits: Seq<bool>, current: u32) -> (
    Result<(), ExFatError>,
    Seq<u32>,
    Seq<bool>,
)
    decreases chain_measure(info, table, current),
    via freed_chain_decreases
{
    if !(info.wf() && info.has(current) && table.len() == info.cluster_count + 2) {
        (Err(ExFatError::InvalidCluster(current)), table, bits)
    } else {
        let next = table[current as int];
        let table1 = table.update(current as int, 0);
        let bits1 = bits.update(current - 2, false);
        if next >= MEDIA_DESCRIPTOR {
            (Ok(()), table1, bits1)
        } else {
            freed_chain(info, table1, bits1, next)
        }
    }
}

#[via_fn]
proof fn freed_chain_decreases(info: ExFatInfo, table: Seq<u32>, bits: Seq<bool>, current: u32) {
    if info.wf() && info.has(current) && table.len() == info.cluster_count + 2 {
        chain_measure_drops(info, table, current, table[current as int]);
    }
}

/// The content with the entries of clusters replaced by those of a table.
pub open spec fn with_table(info: ExFatInfo, content: Seq<u8>, table: Seq<u32>) -> Seq<u8> {
    Seq::new(
        content.len(),
        |i: int|
            if in_entries(info, i, content.len() as int) {
                le32(table[(i - info.fat_offset) / 4])[(i - info.fat_offset) % 4]
            } else {
                content[i]
            },
    )
}

/// A content that differs in the FAT at most is the other with its table.
pub proof fn with_table_is(info: ExFatInfo, a: Seq<u8>, b: Seq<u8>)
    requires
        info.wf(),
        same_but_fat(a, b, info),
        same_cut_entry(a, b, info),
    ensures
        b == with_table(info, a, fat_table(b, info)),
{
    let t = fat_table(b, info);
    let w = with_table(info, a, t);
    assert forall|i: int| 0 <= i < b.len() implies b[i] == w[i] by {
        if in_entries(info, i, a.len() as int) {
            let c = (i - info.fat_offset) / 4;
            let k = (i - info.fat_offset) % 4;
            let e = entry_at(info, c);
            assert(e + k == i);
            let s = b.subrange(e, e + 4);
            assert(t[c] == from_le32(s));
            crate::bytes::le32_of_from_le32(s);
            assert(s[k] == b[i]);
        } else {
            assert(a[i] == b[i]);
        }
    }
    assert(b =~= w);
}

/// What freeing clusters comes to.
pub open spec fn freed(
    info: ExFatInfo,
    s: VolState,
    first: u32,
    count: u32,
    contiguous: bool,
) -> (Result<(), ExFatError>, VolState) {
    if first < 2 {
        (Ok(()), s)
    } else if contiguous {
        let there = if first - 2 >= s.bits.len() {
            0int
        } else {
            s.bits.len() - (first - 2)
        };
        if count <= there {
            (Ok(()), VolState { bits: marked_run(s.bits, first - 2, count as int, false), ..s })
        } else {
            (
                Err(ExFatError::InvalidCluster((first + there) as u32)),
                VolState { bits: marked_run(s.bits, first - 2, there, false), ..s },
            )
        }
    } else {
        let (r, table, bits) = freed_chain(
            info,
            fat_table(s.content, info),
            s.bits,
            first,
        );
        (r, VolState { content: with_table(info, s.content, table), bits })
    }
}

/// Freeing a run that was taken into use restores the volume.
pub proof fn run_allocation_is_undone(
    info: ExFatInfo,
    s: VolState,
    count: u32,
    hint: u32,
    first: u32,
    after: VolState,
)
    requires
        info.wf(),
        s.bits.len() == info.cluster_count,
        count > 0,
        contiguous_pick(s.bits, count as int, hint, Some(first)),
        (Ok::<(u32, bool), ExFatError>((first, true)), after) == allocated_many(
            info,
            s,
            count,
            hint,
        ),
    ensures
        freed(info, after, first, count, true) == (Ok::<(), ExFatError>(()), s),
{
    pick_is_unique(
        s.bits,
        count as int,
        hint,
        Some(first),
        run_pick(s.bits, count as int, hint),
    );
    assert(is_run(s.bits, first - 2, count as int));
    assert(marked_run(after.bits, first - 2, count as int, false) =~= s.bits);
}

/// A cluster that was taken into use was free before and is in use after, and no other
/// cluster's state changes.
pub proof fn allocation_takes_one_free_cluster(info: ExFatInfo, s: VolState, hint: u32)
    requires
        info.wf(),
        s.bits.len() == info.cluster_count,
    ensures
        ({
            let (r, after) = allocated_one(info, s, hint);
            match r {
                Ok(c) => {
                    &&& info.has(c)
                    &&& !s.bits[c - 2]
                    &&& after.bits[c - 2]
                    &&& forall|k: int|
                        0 <= k < s.bits.len() && k != c - 2 ==> #[trigger] after.bits[k]
                            == s.bits[k]
                },
                Err(_) => after == s && forall|k: int|
                    0 <= k < s.bits.len() ==> #[trigger] s.bits[k],
            }
        }),
{
    free_cluster_found(s.bits, hint);
}

proof fn taking_one_counts(bits: Seq<bool>, i: int)
    requires
        0 <= i < bits.len(),
        !bits[i],
    ensures
        free_count(bits.update(i, true)) == free_count(bits) - 1,
    decreases bits.len(),
{
    let after = bits.update(i, true);
    if i == bits.len() - 1 {
        assert(after.drop_last() =~= bits.drop_last());
    } else {
        taking_one_counts(bits.drop_last(), i);
        assert(after.drop_last() =~= bits.drop_last().update(i, true));
    }
}

proof fn none_free_counts(bits: Seq<bool>)
    requires
        forall|k: int| 0 <= k < bits.len() ==> #[trigger] bits[k],
    ensures
        free_count(bits) == 0,
    decreases bits.len(),
{
    if bits.len() > 0 {
        let init = bits.drop_last();
        assert forall|k: int| 0 <= k < init.len() implies #[trigger] init[k] by {
            assert(bits[k]);
        }
        none_free_counts(init);
        assert(bits[bits.len() - 1]);
    }
}

proof fn some_are_free(bits: Seq<bool>)
    ensures
        free_count(bits) >= 0,
    decreases bits.len(),
{
    if bits.len() > 0 {
        some_are_free(bits.drop_last());
    }
}

proof fn picking_counts(bits: Seq<bool>, hint: u32, n: int)
    requires
        bits.len() <= 0xFFFFFFF5,
    ensures
        picked(bits, hint, n) is None <==> n > 0 && free_count(bits) < n,
    decreases n,
{
    some_are_free(bits);
    if n > 0 {
        free_cluster_found(bits, hint);
        match free_cluster(bits, hint) {
            None => {
                none_free_counts(bits);
            },
            Some(c) => {
                taking_one_counts(bits, c - 2);
                let next = if c == u32::MAX {
                    c
                } else {
                    (c + 1) as u32
                };
                picking_counts(bits.update(c - 2, true), next, n - 1);
                some_are_free(bits.update(c - 2, true));
            },
        }
    }
}

proof fn run_counts(bits: Seq<bool>, i: int, n: int)
    requires
        0 <= i,
        0 <= n,
        is_run(bits, i, n),
    ensures
        free_count(bits) >= n,
    decreases bits.len(),
{
    some_are_free(bits);
    if n > 0 {
        let init = bits.drop_last();
        if i + n < bits.len() {
            assert forall|k: int| i <= k < i + n implies !#[trigger] init[k] by {
                assert(!bits[k]);
            }
            run_counts(init, i, n);
        } else {
            assert(!bits[i + n - 1]);
            assert forall|k: int| i <= k < i + n - 1 implies !#[trigger] init[k] by {
                assert(!bits[k]);
            }
            run_counts(init, i, n - 1);
        }
    }
}

proof fn first_run_exists(bits: Seq<bool>, from: int, at: int, n: int)
    requires
        from <= at,
        n > 0,
        forall|j: int| from <= j < at ==> !#[trigger] is_run(bits, j, n),
    ensures
        no_run(bits, from, n) || exists|i: int| #[trigger] first_run(bits, from, n, i),
    decreases bits.len() - at,
{
    if is_run(bits, at, n) {
        assert(first_run(bits, from, n, at));
    } else if at + n > bits.len() {
        assert forall|j: int| from <= j implies !#[trigger] is_run(bits, j, n) by {}
    } else {
        first_run_exists(bits, from, at + 1, n);
    }
}

proof fn run_pick_is_run(bits: Seq<bool>, n: int, hint: u32)
    requires
        n > 0,
        bits.len() <= 0xFFFFFFF5,
    ensures
        contiguous_pick(bits, n, hint, run_pick(bits, n, hint)),
{
    let s = crate::exfat::bitmap::search_start(bits.len() as int, hint);
    first_run_exists(bits, s, s, n);
    first_run_exists(bits, 0, 0, n);
    if !no_run(bits, s, n) {
        let i = choose|i: int| #[trigger] first_run(bits, s, n, i);
        assert(contiguous_pick(bits, n, hint, Some((i + 2) as u32)));
    } else if !no_run(bits, 0, n) {
        let i = choose|i: int| #[trigger] first_run(bits, 0, n, i);
        assert(contiguous_pick(bits, n, hint, Some((i + 2) as u32)));
    } else {
        assert(contiguous_pick(bits, n, hint, None));
    }
}

/// Clusters cannot be had exactly where fewer are free than asked for.
pub proof fn allocation_fails_for_want_of_clusters(
    info: ExFatInfo,
    s: VolState,
    count: u32,
    hint: u32,
)
    requires
        info.wf(),
        s.bits.len() == info.cluster_count,
    ensures
        ({
            let (r, after) = allocated_many(info, s, count, hint);
            &&& r is Err <==> free_count(s.bits) < count
            &&& r matches Err(e) ==> e == ExFatError::NoFreeSpace && after == s
        }),
{
    some_are_free(s.bits);
    picking_counts(s.bits, hint, count as int);
    if count > 0 {
        match run_pick(s.bits, count as int, hint) {
            Some(first) => {
                run_pick_is_run(s.bits, count as int, hint);
                run_counts(s.bits, first - 2, count as int);
            },
            None => {},
        }
    }
}

} // verus!
