//! Directories: finding entries, and finding room for new ones.

use crate::exfat::device::Device;
use crate::exfat::entry::{
    decode_utf16, parse_entry_set, END_OF_DIRECTORY, ExFatFileEntry, FILE_DIRECTORY, ParsedEntrySet,
    RawDirectoryEntry,
};
#[allow(unused_imports)]
use crate::exfat::entry::{decode_units, is_entry_set, name_units, parsed_from};
use crate::exfat::entry::entries_of;
use crate::exfat::error::ExFatError;
#[allow(unused_imports)]
use crate::exfat::fat::{fat_table, holds_fat, next_of};
use crate::exfat::file_reader::ExFatFileReader;
#[allow(unused_imports)]
use crate::exfat::info::clusters_are_apart;
use crate::exfat::info::ExFatInfo;
use crate::exfat::upcase::UpcaseTable;
use crate::exfat::volume::ExFatVolume;
use crate::bytes::{copy_range, push_all};
use crate::text::{chars_of, encode_utf16, split_path};
#[allow(unused_imports)]
use crate::text::{name_parts, string_views, utf16};
use vstd::prelude::*;

verus! {

/// A directory.
#[derive(Debug, Clone, Copy, PartialEq, Eq, Structural)]
pub struct ExFatDir {
    /// First cluster.
    pub first_cluster: u32,
    /// Whether the clusters follow each other without the FAT.
    pub is_contiguous: bool,
    /// Size; 0 where it is not known.
    pub size: u64,
}

/// How many clusters a directory has whose clusters follow each other: as many as its size
/// takes, and one where the size is not known.
pub open spec fn run_len(info: ExFatInfo, dir: ExFatDir) -> int {
    let cs = info.bytes_per_cluster as int;
    if dir.size == 0 {
        1
    } else {
        (dir.size + cs - 1) / cs
    }
}

/// The clusters of a chain from `current` on. A chain with more than `fuel` links leads in a
/// circle.
pub open spec fn chain_from(info: ExFatInfo, table: Seq<u32>, current: u32, fuel: int) -> Result<
    Seq<u32>,
    ExFatError,
>
    decreases fuel,
{
    if !info.has(current) {
        Err(ExFatError::InvalidCluster(current))
    } else {
        match next_of(info, table[current as int]) {
            Err(e) => Err(e),
            Ok(None) => Ok(seq![current]),
            Ok(Some(next)) => if fuel <= 0 {
                Err(ExFatError::ChainLoop)
            } else {
                match chain_from(info, table, next, fuel - 1) {
                    Err(e) => Err(e),
                    Ok(rest) => Ok(seq![current] + rest),
                }
            },
        }
    }
}

/// The clusters of a directory.
pub open spec fn dir_clusters(info: ExFatInfo, table: Seq<u32>, dir: ExFatDir) -> Result<
    Seq<u32>,
    ExFatError,
> {
    if dir.is_contiguous {
        let n = run_len(info, dir);
        if !info.has(dir.first_cluster) {
            Err(ExFatError::InvalidCluster(dir.first_cluster))
        } else if dir.first_cluster + n > info.cluster_count + 2 {
            Err(ExFatError::InvalidCluster((info.cluster_count + 2) as u32))
        } else {
            Ok(Seq::new(n as nat, |j: int| (dir.first_cluster + j) as u32))
        }
    } else {
        chain_from(info, table, dir.first_cluster, info.cluster_count as int)
    }
}

/// The clusters of a chain from `current` on, as far as it can be followed.
pub open spec fn chain_reach(info: ExFatInfo, table: Seq<u32>, current: u32, fuel: int) -> Seq<u32>
    decreases fuel,
{
    if !info.has(current) {
        Seq::empty()
    } else {
        match next_of(info, table[current as int]) {
            Ok(Some(next)) if fuel > 0 => seq![current] + chain_reach(info, table, next, fuel - 1),
            _ => seq![current],
        }
    }
}

/// The clusters of a directory, as far as they can be followed. Where all can, they are its
/// clusters.
pub open spec fn dir_reach(info: ExFatInfo, table: Seq<u32>, dir: ExFatDir) -> Seq<u32> {
    if dir.is_contiguous {
        let n = run_len(info, dir);
        let room = info.cluster_count + 2 - dir.first_cluster;
        if !info.has(dir.first_cluster) {
            Seq::empty()
        } else {
            Seq::new(
                (if n < room {
                    n
                } else {
                    room
                }) as nat,
                |j: int| (dir.first_cluster + j) as u32,
            )
        }
    } else {
        chain_reach(info, table, dir.first_cluster, info.cluster_count as int)
    }
}

/// Where the clusters of a directory can be listed, all are reached.
pub proof fn listed_clusters_are_reached(info: ExFatInfo, table: Seq<u32>, dir: ExFatDir)
    ensures
        dir_clusters(info, table, dir) matches Ok(clusters) ==> dir_reach(info, table, dir)
            == clusters,
{
    if dir.is_contiguous {
        if dir_clusters(info, table, dir) is Ok {
            assert(dir_reach(info, table, dir) =~= dir_clusters(info, table, dir)->Ok_0);
        }
    } else {
        listed_chain_is_reached(info, table, dir.first_cluster, info.cluster_count as int);
    }
}

proof fn listed_chain_is_reached(info: ExFatInfo, table: Seq<u32>, current: u32, fuel: int)
    ensures
        chain_from(info, table, current, fuel) matches Ok(clusters) ==> chain_reach(
            info,
            table,
            current,
            fuel,
        ) == clusters,
    decreases fuel,
{
    if info.has(current) {
        match next_of(info, table[current as int]) {
            Ok(Some(next)) => {
                if fuel > 0 {
                    listed_chain_is_reached(info, table, next, fuel - 1);
                }
            },
            _ => {},
        }
    }
}

/// The clusters of a directory that are reached are clusters of the volume.
pub proof fn reached_clusters_exist(info: ExFatInfo, table: Seq<u32>, dir: ExFatDir)
    requires
        info.wf(),
    ensures
        forall|i: int|
            0 <= i < dir_reach(info, table, dir).len() ==> info.has(
                #[trigger] dir_reach(info, table, dir)[i],
            ),
{
    let all = dir_reach(info, table, dir);
    if !dir.is_contiguous {
        assert forall|i: int| 0 <= i < all.len() implies info.has(#[trigger] all[i]) by {
            chain_link(info, table, dir.first_cluster, info.cluster_count as int, i + 1);
        }
    }
}

/// One link of a chain: to the next cluster that is reached, or to where the chain ends or
/// breaks.
proof fn chain_link(info: ExFatInfo, table: Seq<u32>, current: u32, fuel: int, k: int)
    requires
        0 <= fuel,
        0 < k <= chain_reach(info, table, current, fuel).len(),
    ensures
        ({
            let all = chain_reach(info, table, current, fuel);
            let next = next_of(info, table[all[k - 1] as int]);
            &&& all[0] == current
            &&& info.has(all[k - 1])
            &&& all.len() <= fuel + 1
            &&& k < all.len() ==> next == Ok::<Option<u32>, ExFatError>(Some(all[k]))
            &&& k == all.len() ==> match next {
                Ok(None) => chain_from(info, table, current, fuel) is Ok,
                Ok(Some(_)) => k == fuel + 1 && chain_from(info, table, current, fuel) == Err::<
                    Seq<u32>,
                    ExFatError,
                >(ExFatError::ChainLoop),
                Err(e) => chain_from(info, table, current, fuel) == Err::<Seq<u32>, ExFatError>(e),
            }
        }),
    decreases fuel,
{
    let all = chain_reach(info, table, current, fuel);
    match next_of(info, table[current as int]) {
        Ok(Some(next)) => {
            if fuel > 0 {
                let rest = chain_reach(info, table, next, fuel - 1);
                assert(all == seq![current] + rest);
                assert(info.has(next));
                assert(rest.len() > 0);
                if k > 1 {
                    chain_link(info, table, next, fuel - 1, k - 1);
                    assert(all[k - 1] == rest[k - 2]);
                    if k < all.len() {
                        assert(all[k] == rest[k - 1]);
                    }
                } else {
                    chain_link(info, table, next, fuel - 1, 1);
                    assert(all[1] == rest[0]);
                }
            }
        },
        _ => {},
    }
}

/// Whether an error tells of a broken chain.
pub open spec fn is_chain_error(e: ExFatError) -> bool {
    e is InvalidCluster || e == ExFatError::ChainLoop
}

/// Where the clusters of a directory cannot be listed, a chain is broken.
pub proof fn listing_fails_by_chain(info: ExFatInfo, table: Seq<u32>, dir: ExFatDir)
    ensures
        dir_clusters(info, table, dir) matches Err(e) ==> is_chain_error(e),
{
    chain_fails_by_chain(info, table, dir.first_cluster, info.cluster_count as int);
}

proof fn chain_fails_by_chain(info: ExFatInfo, table: Seq<u32>, current: u32, fuel: int)
    ensures
        chain_from(info, table, current, fuel) matches Err(e) ==> is_chain_error(e),
    decreases fuel,
{
    if info.has(current) {
        match next_of(info, table[current as int]) {
            Ok(Some(next)) => {
                if fuel > 0 {
                    chain_fails_by_chain(info, table, next, fuel - 1);
                }
            },
            _ => {},
        }
    }
}

/// What clusters hold, one after the other.
pub open spec fn clusters_data(content: Seq<u8>, info: ExFatInfo, clusters: Seq<u32>) -> Seq<u8>
    decreases clusters.len(),
{
    if clusters.len() == 0 {
        Seq::empty()
    } else {
        let at = info.offset(clusters.last());
        clusters_data(content, info, clusters.drop_last()) + content.subrange(
            at,
            at + info.bytes_per_cluster,
        )
    }
}

/// The entry sets of a directory from entry `i` on, each by the number of its first entry.
/// An empty entry ends the directory; what is no entry set is passed over.
pub open spec fn sets_from(bytes: Seq<u8>, i: int) -> Seq<int>
    decreases bytes.len() - 32 * i,
{
    if i < 0 || 32 * i + 32 > bytes.len() || bytes[32 * i] == END_OF_DIRECTORY {
        Seq::empty()
    } else if stands_set(bytes, i) {
        seq![i] + sets_from(bytes, i + 1 + bytes[32 * i + 1])
    } else {
        sets_from(bytes, i + 1)
    }
}

/// The bytes of the set that starts at entry `i`.
pub open spec fn set_at(bytes: Seq<u8>, i: int) -> Seq<u8> {
    bytes.subrange(32 * i, 32 * (i + 1 + bytes[32 * i + 1]))
}

/// Whether an entry set starts at entry `i`.
pub open spec fn stands_set(bytes: Seq<u8>, i: int) -> bool {
    &&& bytes[32 * i] == FILE_DIRECTORY
    &&& 32 * (i + 1 + bytes[32 * i + 1]) <= bytes.len()
    &&& is_entry_set(set_at(bytes, i))
}

/// The name in an entry set.
pub open spec fn set_name(set: Seq<u8>) -> Seq<u16> {
    name_units(set, set[35] as int)
}

/// Whether the set at entry `i` has the given name, but for case.
pub open spec fn named(bytes: Seq<u8>, i: int, upcase: UpcaseTable, name: Seq<char>) -> bool {
    upcase.upper_all(set_name(set_at(bytes, i))) == upcase.upper_all(utf16(name))
}

/// The first of the given sets with the given name.
pub open spec fn first_named(
    bytes: Seq<u8>,
    sets: Seq<int>,
    upcase: UpcaseTable,
    name: Seq<char>,
) -> Option<int>
    decreases sets.len(),
{
    if sets.len() == 0 {
        None
    } else if named(bytes, sets[0], upcase, name) {
        Some(sets[0])
    } else {
        first_named(bytes, sets.drop_first(), upcase, name)
    }
}

/// Whether the search for a name from entry `i` on ends within the given bytes: at a set with
/// the name or at the end of the directory, and no set on the way needs more bytes.
pub open spec fn settled(bytes: Seq<u8>, i: int, upcase: UpcaseTable, name: Seq<char>) -> bool
    decreases bytes.len() - 32 * i,
{
    if i < 0 || needs_more(bytes, i) {
        false
    } else if bytes[32 * i] == END_OF_DIRECTORY {
        true
    } else if stands_set(bytes, i) {
        named(bytes, i, upcase, name) || settled(bytes, i + 1 + bytes[32 * i + 1], upcase, name)
    } else {
        settled(bytes, i + 1, upcase, name)
    }
}

/// Whether the search for any set from entry `i` on ends within the given bytes.
pub open spec fn settled_any(bytes: Seq<u8>, i: int) -> bool
    decreases bytes.len() - 32 * i,
{
    if i < 0 || needs_more(bytes, i) {
        false
    } else {
        bytes[32 * i] == END_OF_DIRECTORY || stands_set(bytes, i) || settled_any(bytes, i + 1)
    }
}

/// Whether entry `i`, or the set that starts there, reaches beyond the given bytes.
pub open spec fn needs_more(bytes: Seq<u8>, i: int) -> bool {
    ||| 32 * i + 32 > bytes.len()
    ||| bytes[32 * i] == FILE_DIRECTORY && 32 * (i + 1 + bytes[32 * i + 1]) > bytes.len()
}

/// Whether `a` is how `b` starts.
pub open spec fn starts_with(b: Seq<u8>, a: Seq<u8>) -> bool {
    a.len() <= b.len() && b.take(a.len() as int) == a
}

/// What the first clusters hold is how what all hold starts.
proof fn data_starts(content: Seq<u8>, info: ExFatInfo, clusters: Seq<u32>, k: int)
    requires
        0 <= k <= clusters.len(),
    ensures
        starts_with(
            clusters_data(content, info, clusters),
            clusters_data(content, info, clusters.take(k)),
        ),
    decreases clusters.len(),
{
    let all = clusters_data(content, info, clusters);
    if k == clusters.len() {
        assert(clusters.take(k) =~= clusters);
        assert(all.take(all.len() as int) =~= all);
    } else {
        let init = clusters.drop_last();
        data_starts(content, info, init, k);
        assert(init.take(k) =~= clusters.take(k));
        let a = clusters_data(content, info, clusters.take(k));
        let m = clusters_data(content, info, init);
        assert(all.take(a.len() as int) =~= m.take(a.len() as int));
    }
}

/// An entry that lies within the first bytes is the same within all, and so is the set that
/// starts there.
proof fn same_entry(a: Seq<u8>, b: Seq<u8>, i: int)
    requires
        starts_with(b, a),
        0 <= i,
        !needs_more(a, i),
    ensures
        !needs_more(b, i),
        b[32 * i] == a[32 * i],
        b[32 * i + 1] == a[32 * i + 1],
        stands_set(b, i) == stands_set(a, i),
        stands_set(a, i) ==> set_at(b, i) == set_at(a, i),
{
    assert(b.take(a.len() as int)[32 * i] == b[32 * i]);
    assert(b.take(a.len() as int)[32 * i + 1] == b[32 * i + 1]);
    if a[32 * i] == FILE_DIRECTORY {
        assert(set_at(b, i) =~= set_at(b.take(a.len() as int), i));
    }
}

/// Whether an entry was read from the set at entry `i` of a directory with the given
/// clusters.
pub open spec fn entry_from(
    e: ExFatFileEntry,
    info: ExFatInfo,
    clusters: Seq<u32>,
    bytes: Seq<u8>,
    i: int,
) -> bool {
    let per = info.bytes_per_cluster as int / 32;
    let set = set_at(bytes, i);
    &&& exists|p: ParsedEntrySet|
        #![trigger parsed_from(p, set)]
        parsed_from(p, set) && same_values(e, p)
    &&& e.parent_cluster == clusters[i / per]
    &&& e.entry_offset == info.offset(clusters[i / per]) + 32 * (i % per)
}

/// Whether an entry has the values of a set.
pub open spec fn same_values(e: ExFatFileEntry, p: ParsedEntrySet) -> bool {
    &&& e.name@ == decode_units(p.name@)
    &&& e.attributes == p.attributes
    &&& e.first_cluster == p.first_cluster
    &&& e.data_length == p.data_length
    &&& e.valid_data_length == p.valid_data_length
    &&& e.no_fat_chain == p.no_fat_chain
    &&& e.name_hash == p.name_hash
    &&& e.created == p.created
    &&& e.modified == p.modified
    &&& e.accessed == p.accessed
}

impl<D: Device> ExFatVolume<D> {
    /// The root directory.
    pub fn root_dir(&self) -> (r: ExFatDir)
        ensures
            r == self.root(),
    {
        ExFatDir {
            first_cluster: self.root_cluster,
            is_contiguous: self.root_contiguous,
            size: self.root_size,
        }
    }

    /// The root directory.
    pub open spec fn root(&self) -> ExFatDir {
        ExFatDir {
            first_cluster: self.root_cluster,
            is_contiguous: self.root_contiguous,
            size: self.root_size,
        }
    }

    /// The clusters of a directory.
    pub open spec fn clusters_of(&self, dir: ExFatDir) -> Result<Seq<u32>, ExFatError> {
        dir_clusters(self.info, fat_table(self.device@, self.info), dir)
    }

    /// What a directory holds.
    pub open spec fn data_of(&self, clusters: Seq<u32>) -> Seq<u8> {
        clusters_data(self.device@, self.info, clusters)
    }

    /// The clusters of a directory, as far as they can be followed.
    pub open spec fn reach(&self, dir: ExFatDir) -> Seq<u32> {
        dir_reach(self.info, fat_table(self.device@, self.info), dir)
    }

    /// What looking up a name in a directory gives: the number of the entry where the first set
    /// with the name starts. A chain that breaks is an error only where the search gets there.
    pub open spec fn lookup(&self, dir: ExFatDir, name: Seq<char>) -> Result<
        Option<int>,
        ExFatError,
    > {
        let bytes = self.data_of(self.reach(dir));
        match self.clusters_of(dir) {
            Err(e) if !settled(bytes, 0, self.upcase, name) => Err(e),
            _ => Ok(first_named(bytes, sets_from(bytes, 0), self.upcase, name)),
        }
    }

    /// Whether a directory has entries. A chain that breaks is an error only where the search
    /// gets there.
    pub open spec fn nonempty(&self, dir: ExFatDir) -> Result<bool, ExFatError> {
        let bytes = self.data_of(self.reach(dir));
        match self.clusters_of(dir) {
            Err(e) if !settled_any(bytes, 0) => Err(e),
            _ => Ok(sets_from(bytes, 0).len() > 0),
        }
    }

    /// Whether the device holds a directory: its clusters, and where the FAT links them the
    /// FAT.
    pub open spec fn holds_dir(&self, dir: ExFatDir) -> bool {
        &&& dir.is_contiguous || holds_fat(self.device@, self.info)
        &&& forall|i: int|
            0 <= i < self.reach(dir).len() ==> self.info.offset(#[trigger] self.reach(dir)[i])
                + self.info.bytes_per_cluster <= self.device@.len()
    }

    /// The cluster of a directory behind those that were reached so far; none behind its last.
    pub(crate) fn next_of_dir(&self, dir: ExFatDir, clusters: &Vec<u32>) -> (r: Result<
        Option<u32>,
        ExFatError,
    >)
        requires
            self.wf(),
            clusters@.len() <= self.reach(dir).len(),
            clusters@ == self.reach(dir).take(clusters@.len() as int),
        ensures
            match r {
                Ok(Some(c)) => {
                    &&& clusters@.len() < self.reach(dir).len()
                    &&& c == self.reach(dir)[clusters@.len() as int]
                    &&& self.info.has(c)
                },
                Ok(None) => clusters@.len() == self.reach(dir).len() && self.clusters_of(
                    dir,
                ) is Ok,
                Err(ExFatError::Io) => D::infallible() ==> !self.complete() && !dir.is_contiguous
                    && !holds_fat(self.device@, self.info),
                Err(e) => clusters@.len() == self.reach(dir).len() && self.clusters_of(dir)
                    == Err::<Seq<u32>, ExFatError>(e),
            },
    {
        let info: &ExFatInfo = &self.info;
        let k: usize = clusters.len();
        let ghost all = self.reach(dir);
        let ghost table = fat_table(self.device@, *info);
        if !info.is_valid_cluster(dir.first_cluster) {
            return Err(ExFatError::InvalidCluster(dir.first_cluster));
        }
        if dir.is_contiguous {
            let cs: u64 = info.bytes_per_cluster as u64;
            proof {
                ceil_parts(dir.size as int, cs as int);
            }
            let n: u64 = if dir.size == 0 {
                1
            } else if dir.size % cs == 0 {
                dir.size / cs
            } else {
                dir.size / cs + 1
            };
            assert(n == run_len(*info, dir));
            let room: u64 = info.cluster_count as u64 + 2 - dir.first_cluster as u64;
            if k as u64 == n {
                return Ok(None);
            }
            if k as u64 >= room {
                return Err(ExFatError::InvalidCluster(info.cluster_count + 2));
            }
            return Ok(Some(dir.first_cluster + k as u32));
        }
        if k == 0 {
            proof {
                chain_link(*info, table, dir.first_cluster, info.cluster_count as int, 1);
            }
            return Ok(Some(dir.first_cluster));
        }
        let last: u32 = clusters[k - 1];
        proof {
            chain_link(*info, table, dir.first_cluster, info.cluster_count as int, k as int);
            assert(last == all.take(k as int)[k - 1]);
        }
        match self.next_cluster(last) {
            Ok(Some(c)) => {
                if k as u64 > info.cluster_count as u64 {
                    return Err(ExFatError::ChainLoop);
                }
                Ok(Some(c))
            },
            Ok(None) => Ok(None),
            Err(e) => Err(e),
        }
    }

    /// Reads the cluster of a directory behind those that were read so far; says whether there
    /// was one.
    fn read_more(&self, dir: ExFatDir, clusters: &mut Vec<u32>, bytes: &mut Vec<u8>) -> (r: Result<
        bool,
        ExFatError,
    >)
        requires
            self.wf(),
            old(clusters)@.len() <= self.reach(dir).len(),
            old(clusters)@ == self.reach(dir).take(old(clusters)@.len() as int),
            old(bytes)@ == self.data_of(old(clusters)@),
            old(bytes)@.len() == old(clusters)@.len() * self.info.bytes_per_cluster,
        ensures
            match r {
                Ok(true) => {
                    &&& final(clusters)@.len() == old(clusters)@.len() + 1
                    &&& final(clusters)@.len() <= self.reach(dir).len()
                    &&& final(clusters)@ == self.reach(dir).take(final(clusters)@.len() as int)
                    &&& final(bytes)@ == self.data_of(final(clusters)@)
                    &&& final(bytes)@.len() == final(clusters)@.len() * self.info.bytes_per_cluster
                },
                Ok(false) => {
                    &&& *final(clusters) == *old(clusters)
                    &&& *final(bytes) == *old(bytes)
                    &&& old(clusters)@ == self.reach(dir)
                    &&& self.clusters_of(dir) is Ok
                },
                Err(ExFatError::Io) => D::infallible() ==> !self.complete() && !self.holds_dir(dir),
                Err(e) => old(clusters)@ == self.reach(dir) && self.clusters_of(dir) == Err::<
                    Seq<u32>,
                    ExFatError,
                >(e),
            },
    {
        let ghost all = self.reach(dir);
        let ghost k = clusters@.len() as int;
        proof {
            assert(all.take(all.len() as int) =~= all);
        }
        let c: u32 = match self.next_of_dir(dir, clusters) {
            Ok(Some(c)) => c,
            Ok(None) => {
                return Ok(false);
            },
            Err(e) => {
                return Err(e);
            },
        };
        let cs: usize = self.info.bytes_per_cluster;
        let offset: u64 = self.info.cluster_to_offset(c);
        proof {
            clusters_are_apart(self.info, c, c);
            assert((k + 1) * cs == k * cs + cs) by (nonlinear_arith);
        }
        let data: Vec<u8> = match self.device.read_at(offset, cs) {
            Ok(data) => data,
            Err(e) => {
                assert(self.info.offset(self.reach(dir)[k]) == offset);
                return Err(e);
            },
        };
        push_all(bytes, data.as_slice());
        clusters.push(c);
        proof {
            assert(clusters@ =~= all.take(k + 1));
            assert(clusters@.drop_last() =~= all.take(k));
        }
        Ok(true)
    }

    /// Reads a directory on until entry `i`, and the set that starts there, lie within what was
    /// read; says whether they do.
    fn read_through(
        &self,
        dir: ExFatDir,
        clusters: &mut Vec<u32>,
        bytes: &mut Vec<u8>,
        i: usize,
    ) -> (r: Result<bool, ExFatError>)
        requires
            self.wf(),
            self.was_read(dir, old(clusters)@, old(bytes)@),
        ensures
            match r {
                Ok(true) => {
                    &&& self.was_read(dir, final(clusters)@, final(bytes)@)
                    &&& old(bytes)@.len() <= final(bytes)@.len()
                    &&& !needs_more(final(bytes)@, i as int)
                },
                Ok(false) => {
                    &&& self.was_read(dir, final(clusters)@, final(bytes)@)
                    &&& old(bytes)@.len() <= final(bytes)@.len()
                    &&& needs_more(final(bytes)@, i as int)
                    &&& final(bytes)@ == self.data_of(self.reach(dir))
                    &&& self.clusters_of(dir) is Ok
                },
                Err(ExFatError::Io) => D::infallible() ==> !self.complete() && !self.holds_dir(dir),
                Err(e) => {
                    &&& needs_more(self.data_of(self.reach(dir)), i as int)
                    &&& self.clusters_of(dir) == Err::<Seq<u32>, ExFatError>(e)
                },
            },
    {
        let cs: usize = self.info.bytes_per_cluster;
        loop
            invariant
                self.wf(),
                cs == self.info.bytes_per_cluster,
                self.was_read(dir, clusters@, bytes@),
                old(bytes)@.len() <= bytes@.len(),
            decreases self.reach(dir).len() - clusters@.len(),
        {
            let len: usize = bytes.len();
            proof {
                whole_entries(clusters@.len() as int, cs as int);
            }
            let within: bool = if i >= len / 32 {
                false
            } else if bytes[32 * i] == FILE_DIRECTORY {
                (bytes[32 * i + 1] as usize) < len / 32 - i
            } else {
                true
            };
            assert(within == !needs_more(bytes@, i as int));
            if within {
                return Ok(true);
            }
            let ghost before = clusters@.len();
            match self.read_more(dir, clusters, bytes) {
                Ok(some) => {
                    if !some {
                        return Ok(false);
                    }
                    proof {
                        let n = clusters@.len() as int;
                        assert(n * cs >= (n - 1) * cs) by (nonlinear_arith)
                            requires
                                cs >= 0,
                        ;
                    }
                },
                Err(e) => {
                    return Err(e);
                },
            }
        }
    }

    /// Whether the given clusters are the first of a directory, and the bytes what they hold.
    spec fn was_read(&self, dir: ExFatDir, clusters: Seq<u32>, bytes: Seq<u8>) -> bool {
        &&& clusters.len() <= self.reach(dir).len()
        &&& clusters == self.reach(dir).take(clusters.len() as int)
        &&& bytes == self.data_of(clusters)
        &&& bytes.len() == clusters.len() * self.info.bytes_per_cluster
    }

    /// The entry of the given name in a directory.
    pub fn find(&self, dir: ExFatDir, name: &str) -> (r: Result<Option<ExFatFileEntry>, ExFatError>)
        requires
            self.wf(),
        ensures
            match r {
                Ok(found) => match (found, self.lookup(dir, name@)) {
                    (Some(e), Ok(Some(i))) => entry_from(
                        e,
                        self.info,
                        self.reach(dir),
                        self.data_of(self.reach(dir)),
                        i,
                    ),
                    (None, Ok(None)) => true,
                    _ => false,
                },
                Err(ExFatError::Io) => D::infallible() ==> !self.complete() && !self.holds_dir(dir),
                Err(e) => self.lookup(dir, name@) == Err::<Option<int>, ExFatError>(e),
            },
    {
        let wanted: Vec<u16> = encode_utf16(name);
        let ghost reach = self.reach(dir);
        let ghost all = self.data_of(reach);
        let ghost goal = first_named(all, sets_from(all, 0), self.upcase, name@);
        let ghost decided = settled(all, 0, self.upcase, name@);
        let mut clusters: Vec<u32> = Vec::new();
        let mut bytes: Vec<u8> = Vec::new();
        let cs: usize = self.info.bytes_per_cluster;
        let per: usize = cs / 32;
        let mut i: usize = 0;
        proof {
            assert(clusters@ =~= reach.take(0));
            assert(bytes@ =~= self.data_of(clusters@));
            assert(0 * cs == 0);
        }
        loop
            invariant
                self.wf(),
                cs == self.info.bytes_per_cluster,
                per == cs / 32,
                wanted@ == utf16(name@),
                reach == self.reach(dir),
                all == self.data_of(reach),
                goal == first_named(all, sets_from(all, 0), self.upcase, name@),
                goal == first_named(all, sets_from(all, i as int), self.upcase, name@),
                decided == settled(all, 0, self.upcase, name@),
                decided == settled(all, i as int, self.upcase, name@) || self.clusters_of(
                    dir,
                ) is Ok,
                self.was_read(dir, clusters@, bytes@),
                32 * i <= bytes@.len() + 32,
                bytes@.len() <= all.len(),
            decreases all.len() + 32 - 32 * i,
        {
            let within: bool = match self.read_through(dir, &mut clusters, &mut bytes, i) {
                Ok(within) => within,
                Err(e) => {
                    return Err(e);
                },
            };
            let len: usize = bytes.len();
            proof {
                data_starts(self.device@, self.info, reach, clusters@.len() as int);
                whole_entries(clusters@.len() as int, cs as int);
                if within {
                    same_entry(bytes@, all, i as int);
                }
            }
            if i >= len / 32 {
                assert(sets_from(all, i as int) =~= Seq::empty());
                return Ok(None);
            }
            if bytes[32 * i] == END_OF_DIRECTORY {
                assert(sets_from(all, i as int) =~= Seq::empty());
                return Ok(None);
            }
            let extra: usize = bytes[32 * i + 1] as usize;
            let ghost sets = sets_from(all, i as int);
            let mut step: usize = 1;
            if within && bytes[32 * i] == FILE_DIRECTORY {
                let raw: Vec<u8> = copy_range(bytes.as_slice(), 32 * i, 32 * (i + 1 + extra));
                assert(raw@ == set_at(bytes@, i as int));
                let set: Vec<RawDirectoryEntry> = entries_of(raw.as_slice());
                match parse_entry_set(&set) {
                    Some(parsed) => {
                        assert(stands_set(all, i as int));
                        assert(sets[0] == i);
                        assert(sets.drop_first() =~= sets_from(all, i + 1 + extra));
                        if self.upcase.units_equal(&parsed.name, &wanted) {
                            proof {
                                slot_cluster(i as int, clusters@.len() as int, cs as int);
                                let j = i as int / per as int;
                                assert(clusters@[j] == reach[j]);
                                assert(goal == Some(i as int));
                            }
                            let c: u32 = clusters[i / per];
                            let at: u64 = self.info.cluster_to_offset(c) + 32 * (i % per) as u64;
                            let e: ExFatFileEntry = ExFatFileEntry {
                                name: decode_utf16(&parsed.name),
                                attributes: parsed.attributes,
                                first_cluster: parsed.first_cluster,
                                data_length: parsed.data_length,
                                valid_data_length: parsed.valid_data_length,
                                no_fat_chain: parsed.no_fat_chain,
                                name_hash: parsed.name_hash,
                                created: parsed.created,
                                modified: parsed.modified,
                                accessed: parsed.accessed,
                                parent_cluster: c,
                                entry_offset: at,
                            };
                            assert(parsed_from(parsed, raw@) && same_values(e, parsed));
                            assert(set_at(all, i as int) == raw@);
                            return Ok(Some(e));
                        }
                        step = 1 + extra;
                    },
                    None => {
                        assert(!stands_set(all, i as int));
                    },
                }
            } else {
                assert(!stands_set(all, i as int));
            }
            i = i + step;
        }
    }

    /// Whether a directory has entries.
    pub fn has_entries(&self, dir: ExFatDir) -> (r: Result<bool, ExFatError>)
        requires
            self.wf(),
        ensures
            match r {
                Ok(some) => self.nonempty(dir) == Ok::<bool, ExFatError>(some),
                Err(ExFatError::Io) => D::infallible() ==> !self.complete() && !self.holds_dir(dir),
                Err(e) => self.nonempty(dir) == Err::<bool, ExFatError>(e),
            },
    {
        let ghost reach = self.reach(dir);
        let ghost all = self.data_of(reach);
        let ghost goal = sets_from(all, 0).len() > 0;
        let ghost decided = settled_any(all, 0);
        let mut clusters: Vec<u32> = Vec::new();
        let mut bytes: Vec<u8> = Vec::new();
        let cs: usize = self.info.bytes_per_cluster;
        let mut i: usize = 0;
        proof {
            assert(clusters@ =~= reach.take(0));
            assert(bytes@ =~= self.data_of(clusters@));
            assert(0 * cs == 0);
        }
        loop
            invariant
                self.wf(),
                cs == self.info.bytes_per_cluster,
                reach == self.reach(dir),
                all == self.data_of(reach),
                goal == (sets_from(all, 0).len() > 0),
                goal == (sets_from(all, i as int).len() > 0),
                decided == settled_any(all, 0),
                decided == settled_any(all, i as int) || self.clusters_of(dir) is Ok,
                self.was_read(dir, clusters@, bytes@),
                32 * i <= bytes@.len() + 32,
                bytes@.len() <= all.len(),
            decreases all.len() + 32 - 32 * i,
        {
            let within: bool = match self.read_through(dir, &mut clusters, &mut bytes, i) {
                Ok(within) => within,
                Err(e) => {
                    return Err(e);
                },
            };
            let len: usize = bytes.len();
            proof {
                data_starts(self.device@, self.info, reach, clusters@.len() as int);
                whole_entries(clusters@.len() as int, cs as int);
                if within {
                    same_entry(bytes@, all, i as int);
                }
            }
            if i >= len / 32 {
                return Ok(false);
            }
            if bytes[32 * i] == END_OF_DIRECTORY {
                return Ok(false);
            }
            if within && bytes[32 * i] == FILE_DIRECTORY {
                let extra: usize = bytes[32 * i + 1] as usize;
                let raw: Vec<u8> = copy_range(bytes.as_slice(), 32 * i, 32 * (i + 1 + extra));
                assert(raw@ == set_at(bytes@, i as int));
                let set: Vec<RawDirectoryEntry> = entries_of(raw.as_slice());
                if parse_entry_set(&set).is_some() {
                    assert(stands_set(all, i as int));
                    return Ok(true);
                }
            }
            assert(!stands_set(all, i as int));
            i = i + 1;
        }
    }
}

/// Clusters are made of whole entries.
proof fn whole_entries(n: int, cs: int)
    requires
        n >= 0,
        cs % 512 == 0,
    ensures
        (n * cs) % 32 == 0,
{
    let q = cs / 32;
    assert(n * cs == 32 * (n * q)) by (nonlinear_arith)
        requires
            cs == 32 * q,
    ;
}

/// The directory that an entry names.
pub open spec fn dir_of_entry(e: ExFatFileEntry) -> ExFatDir {
    ExFatDir { first_cluster: e.first_cluster, is_contiguous: e.no_fat_chain, size: e.data_length }
}

proof fn ceil_parts(len: int, cs: int)
    requires
        len >= 0,
        cs > 0,
    ensures
        (len + cs - 1) / cs == len / cs + (if len % cs == 0 {
            0int
        } else {
            1int
        }),
        0 <= len / cs <= len,
        cs >= 2 ==> len / cs <= len / 2,
{
    vstd::arithmetic::div_mod::lemma_fundamental_div_mod(len, cs);
    vstd::arithmetic::div_mod::lemma_mod_bound(len, cs);
    vstd::arithmetic::div_mod::lemma_div_pos_is_pos(len, cs);
    vstd::arithmetic::div_mod::lemma_div_is_ordered_by_denominator(len, 1, cs);
    if cs >= 2 {
        vstd::arithmetic::div_mod::lemma_div_is_ordered_by_denominator(len, 2, cs);
    }
    let q = len / cs;
    assert(q * cs == cs * q) by (nonlinear_arith);
    assert((q + 1) * cs == cs * q + cs) by (nonlinear_arith);
    if len % cs == 0 {
        vstd::arithmetic::div_mod::lemma_fundamental_div_mod_converse(
            len + cs - 1,
            cs,
            q,
            cs - 1,
        );
    } else {
        vstd::arithmetic::div_mod::lemma_fundamental_div_mod_converse(
            len + cs - 1,
            cs,
            q + 1,
            len % cs - 1,
        );
    }
}

/// The entry with number `i` lies in one of the clusters.
proof fn slot_cluster(i: int, n: int, cs: int)
    requires
        cs >= 512,
        cs % 512 == 0,
        0 <= i,
        32 * i + 32 <= n * cs,
    ensures
        0 <= i / (cs / 32) < n,
        0 <= i % (cs / 32) < cs / 32,
{
    let per = cs / 32;
    assert(cs == 32 * per);
    vstd::arithmetic::div_mod::lemma_fundamental_div_mod(i, per);
    vstd::arithmetic::div_mod::lemma_mod_bound(i, per);
    vstd::arithmetic::div_mod::lemma_div_pos_is_pos(i, per);
    let k = i / per;
    if k >= n {
        assert(per * k >= per * n) by (nonlinear_arith)
            requires
                k >= n,
                per > 0,
        ;
        assert(n * (32 * per) == 32 * (per * n)) by (nonlinear_arith);
    }
}

/// What a path leads to: each component but the last names a directory. The way starts at
/// `dir` and never leads upward.
pub open spec fn resolves<D: Device>(
    fs: &ExFatVolume<D>,
    dir: ExFatDir,
    parts: Seq<Seq<char>>,
    r: Result<ExFatFileEntry, ExFatError>,
) -> bool
    decreases parts.len(),
{
    if parts.len() == 0 {
        r == Err::<ExFatFileEntry, ExFatError>(ExFatError::EntryNotFound)
    } else if parts[0] == seq!['.', '.'] {
        r == Err::<ExFatFileEntry, ExFatError>(ExFatError::InvalidPath)
    } else {
        let clusters = fs.reach(dir);
        let bytes = fs.data_of(clusters);
        match fs.lookup(dir, parts[0]) {
            Err(e) => r == Err::<ExFatFileEntry, ExFatError>(e),
            Ok(None) => r == Err::<ExFatFileEntry, ExFatError>(ExFatError::EntryNotFound),
            Ok(Some(i)) => if parts.len() == 1 {
                r matches Ok(e) && entry_from(e, fs.info, clusters, bytes, i)
            } else {
                exists|e: ExFatFileEntry|
                    #![trigger entry_from(e, fs.info, clusters, bytes, i)]
                    entry_from(e, fs.info, clusters, bytes, i) && if e.attributes.is_dir() {
                        resolves(fs, dir_of_entry(e), parts.drop_first(), r)
                    } else {
                        r == Err::<ExFatFileEntry, ExFatError>(ExFatError::NotADirectory)
                    }
            },
        }
    }
}

impl<D: Device> ExFatVolume<D> {
    /// The entry that a path leads to from the root.
    pub fn open_path(&self, path: &str) -> (r: Result<ExFatFileEntry, ExFatError>)
        requires
            self.wf(),
        ensures
            name_parts(path@).len() == 0 ==> r == Err::<ExFatFileEntry, ExFatError>(
                ExFatError::InvalidPath,
            ),
            name_parts(path@).len() > 0 ==> resolves(self, self.root(), name_parts(path@), r) || (r
                == Err::<ExFatFileEntry, ExFatError>(ExFatError::Io) && !(D::infallible()
                && self.complete())),
    {
        let parts: Vec<String> = split_path(path);
        let ghost all = name_parts(path@);
        if parts.len() == 0 {
            return Err(ExFatError::InvalidPath);
        }
        assert(all.skip(0) =~= all);
        self.open_parts(self.root_dir(), &parts, 0)
    }

    fn open_parts(&self, dir: ExFatDir, parts: &Vec<String>, at: usize) -> (r: Result<
        ExFatFileEntry,
        ExFatError,
    >)
        requires
            self.wf(),
            at <= parts@.len(),
        ensures
            resolves(self, dir, string_views(parts@).skip(at as int), r) || (r == Err::<
                ExFatFileEntry,
                ExFatError,
            >(ExFatError::Io) && !(D::infallible() && self.complete())),
        decreases parts@.len() - at,
    {
        let ghost rest = string_views(parts@).skip(at as int);
        if at == parts.len() {
            return Err(ExFatError::EntryNotFound);
        }
        assert(rest[0] == parts@[at as int]@);
        assert(rest.drop_first() =~= string_views(parts@).skip(at + 1));
        let chars: Vec<char> = chars_of(parts[at].as_str());
        if chars.len() == 2 && chars[0] == '.' && chars[1] == '.' {
            assert(rest[0] =~= seq!['.', '.']);
            return Err(ExFatError::InvalidPath);
        }
        assert(rest[0] != seq!['.', '.']);
        let entry: ExFatFileEntry = match self.find(dir, parts[at].as_str()) {
            Ok(Some(e)) => e,
            Ok(None) => {
                return Err(ExFatError::EntryNotFound);
            },
            Err(e) => {
                return Err(e);
            },
        };
        if at + 1 == parts.len() {
            return Ok(entry);
        }
        if !entry.is_directory() {
            return Err(ExFatError::NotADirectory);
        }
        let next: ExFatDir = ExFatDir {
            first_cluster: entry.first_cluster,
            is_contiguous: entry.no_fat_chain,
            size: entry.data_length,
        };
        assert(next == dir_of_entry(entry));
        self.open_parts(next, parts, at + 1)
    }

    /// A reader for the file that a path leads to.
    pub fn open_file<'a>(&'a self, path: &str) -> (r: Result<ExFatFileReader<'a, D>, ExFatError>)
        requires
            self.wf(),
        ensures
            match r {
                Ok(reader) => {
                    &&& reader.wf()
                    &&& reader.fs == self
                    &&& reader.position == 0
                    &&& exists|e: ExFatFileEntry|
                        #![trigger resolves(self, self.root(), name_parts(path@), Ok(e))]
                        {
                            &&& resolves(self, self.root(), name_parts(path@), Ok(e))
                            &&& !e.attributes.is_dir()
                            &&& reader.first_cluster == e.first_cluster
                            &&& reader.valid_length == e.valid_data_length
                            &&& reader.is_contiguous == e.no_fat_chain
                        }
                },
                Err(e) => {
                    ||| e == ExFatError::InvalidPath && name_parts(path@).len() == 0
                    ||| resolves(self, self.root(), name_parts(path@), Err(e))
                    ||| e == ExFatError::NotAFile && exists|f: ExFatFileEntry|
                        #![trigger resolves(self, self.root(), name_parts(path@), Ok(f))]
                        resolves(self, self.root(), name_parts(path@), Ok(f))
                            && f.attributes.is_dir()
                    ||| e == ExFatError::Io && !(D::infallible() && self.complete())
                },
            },
    {
        let entry: ExFatFileEntry = match self.open_path(path) {
            Ok(e) => e,
            Err(e) => {
                return Err(e);
            },
        };
        ExFatFileReader::new(self, &entry)
    }

    /// The directory that a path leads to.
    pub fn open_dir(&self, path: &str) -> (r: Result<ExFatDir, ExFatError>)
        requires
            self.wf(),
        ensures
            match r {
                Ok(dir) => exists|e: ExFatFileEntry|
                    #![trigger resolves(self, self.root(), name_parts(path@), Ok(e))]
                    resolves(self, self.root(), name_parts(path@), Ok(e)) && e.attributes.is_dir()
                        && dir == dir_of_entry(e),
                Err(e) => {
                    ||| e == ExFatError::InvalidPath && name_parts(path@).len() == 0
                    ||| resolves(self, self.root(), name_parts(path@), Err(e))
                    ||| e == ExFatError::NotADirectory && exists|f: ExFatFileEntry|
                        #![trigger resolves(self, self.root(), name_parts(path@), Ok(f))]
                        resolves(self, self.root(), name_parts(path@), Ok(f))
                            && !f.attributes.is_dir()
                    ||| e == ExFatError::Io && !(D::infallible() && self.complete())
                },
            },
    {
        let entry: ExFatFileEntry = match self.open_path(path) {
            Ok(e) => e,
            Err(e) => {
                return Err(e);
            },
        };
        if !entry.is_directory() {
            return Err(ExFatError::NotADirectory);
        }
        Ok(
            ExFatDir {
                first_cluster: entry.first_cluster,
                is_contiguous: entry.no_fat_chain,
                size: entry.data_length,
            },
        )
    }
}

} // verus!
