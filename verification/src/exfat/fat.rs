//! The file allocation table.

use crate::bytes::get_le32;
#[allow(unused_imports)]
use crate::bytes::{from_le32, le32, le32_round_trip};
use crate::exfat::device::Device;
#[allow(unused_imports)]
use crate::exfat::device::splice;
use crate::exfat::error::ExFatError;
use crate::exfat::info::ExFatInfo;
use vstd::prelude::*;

verus! {

/// The last cluster of a chain.
pub const END_OF_CHAIN: u32 = 0xFFFFFFFF;

/// Entries from here on end a chain.
pub const MEDIA_DESCRIPTOR: u32 = 0xFFFFFFF8;

/// A cluster that belongs to no chain.
pub const FREE_CLUSTER: u32 = 0;

/// The number of the first cluster.
pub const FIRST_DATA_CLUSTER: u32 = 2;

/// Byte where the entry of a cluster stands.
pub open spec fn entry_at(info: ExFatInfo, cluster: int) -> int {
    info.fat_offset + 4 * cluster
}

/// The entries of the table; 0 for those that the content does not reach.
pub open spec fn fat_table(content: Seq<u8>, info: ExFatInfo) -> Seq<u32> {
    Seq::new(
        (info.cluster_count + 2) as nat,
        |c: int|
            if entry_at(info, c) + 4 <= content.len() {
                from_le32(content.subrange(entry_at(info, c), entry_at(info, c) + 4))
            } else {
                0
            },
    )
}

/// Whether a byte belongs to the entry of a cluster that lies wholly within `len` bytes.
pub open spec fn in_entries(info: ExFatInfo, i: int, len: int) -> bool {
    &&& entry_at(info, 2) <= i < entry_at(info, info.cluster_count + 2)
    &&& entry_at(info, (i - info.fat_offset) / 4) + 4 <= len
}

/// Whether two contents differ in the entries of clusters at most.
pub open spec fn same_but_fat(a: Seq<u8>, b: Seq<u8>, info: ExFatInfo) -> bool {
    &&& a.len() == b.len()
    &&& forall|i: int|
        0 <= i < a.len() && !(entry_at(info, 2) <= i < entry_at(info, info.cluster_count + 2))
            ==> #[trigger] a[i] == b[i]
}

/// Whether an entry that the end of the device cuts off is the same in both contents.
pub open spec fn same_cut_entry(a: Seq<u8>, b: Seq<u8>, info: ExFatInfo) -> bool {
    forall|i: int|
        0 <= i < a.len() && !in_entries(info, i, a.len() as int) && entry_at(info, 2) <= i
            ==> #[trigger] a[i] == b[i]
}

/// Writing an entry leaves an entry alone that is cut off.
pub proof fn entry_write_keeps_cut_entry(
    a: Seq<u8>,
    b: Seq<u8>,
    info: ExFatInfo,
    cluster: u32,
    value: u32,
)
    requires
        info.wf(),
        info.has(cluster),
        entry_at(info, cluster as int) + 4 <= b.len(),
        a.len() == b.len(),
        same_cut_entry(a, b, info),
    ensures
        same_cut_entry(a, splice(b, entry_at(info, cluster as int), le32(value)), info),
{
    let at = entry_at(info, cluster as int);
    le32_round_trip(value);
    let after = splice(b, at, le32(value));
    assert forall|i: int|
        0 <= i < a.len() && !in_entries(info, i, a.len() as int) && entry_at(info, 2)
            <= i implies #[trigger] a[i] == after[i] by {
        assert(a[i] == b[i]);
        if at <= i < at + 4 {
            assert((i - info.fat_offset) / 4 == cluster);
        }
    }
}

/// Whether the table lies within the content.
pub open spec fn holds_fat(content: Seq<u8>, info: ExFatInfo) -> bool {
    entry_at(info, info.cluster_count + 2) <= content.len()
}

/// Writing an entry changes this entry of the table and nothing else.
pub proof fn entry_write(content: Seq<u8>, info: ExFatInfo, cluster: u32, value: u32)
    requires
        info.wf(),
        info.has(cluster),
        entry_at(info, cluster as int) + 4 <= content.len(),
    ensures
        ({
            let after = splice(content, entry_at(info, cluster as int), le32(value));
            &&& after.len() == content.len()
            &&& fat_table(after, info) == fat_table(content, info).update(cluster as int, value)
            &&& same_but_fat(content, after, info)
        }),
{
    let at = entry_at(info, cluster as int);
    le32_round_trip(value);
    let after = splice(content, at, le32(value));
    let old_table = fat_table(content, info);
    let new_table = fat_table(after, info);
    assert forall|c: int| 0 <= c < info.cluster_count + 2 implies new_table[c] == old_table.update(
        cluster as int,
        value,
    )[c] by {
        let e = entry_at(info, c);
        if c == cluster {
            assert(after.subrange(e, e + 4) =~= le32(value));
        } else if e + 4 <= content.len() {
            assert(after.subrange(e, e + 4) =~= content.subrange(e, e + 4));
        }
    }
    assert(new_table =~= old_table.update(cluster as int, value));
}

/// What does not touch the table leaves it as it is.
pub proof fn table_unchanged(a: Seq<u8>, b: Seq<u8>, info: ExFatInfo)
    requires
        info.wf(),
        a.len() == b.len(),
        forall|i: int|
            entry_at(info, 0) <= i < entry_at(info, info.cluster_count + 2) && i < a.len()
                ==> #[trigger] a[i] == b[i],
    ensures
        fat_table(a, info) == fat_table(b, info),
{
    assert forall|c: int| 0 <= c < info.cluster_count + 2 implies fat_table(a, info)[c]
        == fat_table(b, info)[c] by {
        let e = entry_at(info, c);
        if e + 4 <= a.len() {
            assert(a.subrange(e, e + 4) =~= b.subrange(e, e + 4));
        }
    }
    assert(fat_table(a, info) =~= fat_table(b, info));
}

/// What an entry says of the next cluster: none at the end of a chain, another cluster of
/// the volume, or an error.
pub open spec fn next_of(info: ExFatInfo, value: u32) -> Result<Option<u32>, ExFatError> {
    if value >= MEDIA_DESCRIPTOR {
        Ok(None)
    } else if info.has(value) {
        Ok(Some(value))
    } else {
        Err(ExFatError::InvalidCluster(value))
    }
}

/// Reads the entry of a cluster.
pub fn read_entry<D: Device>(device: &D, info: &ExFatInfo, cluster: u32) -> (r: Result<
    u32,
    ExFatError,
>)
    requires
        info.wf(),
    ensures
        match r {
            Ok(value) => {
                &&& info.has(cluster)
                &&& value == fat_table(device@, *info)[cluster as int]
            },
            Err(ExFatError::Io) => {
                &&& info.has(cluster)
                &&& D::infallible() ==> entry_at(*info, cluster as int) + 4 > device@.len()
            },
            Err(e) => !info.has(cluster) && e == ExFatError::InvalidCluster(cluster),
        },
{
    if !info.is_valid_cluster(cluster) {
        return Err(ExFatError::InvalidCluster(cluster));
    }
    let at: u64 = info.fat_offset + 4 * cluster as u64;
    match device.read_at(at, 4) {
        Ok(data) => {
            assert(data@.subrange(0, 4) =~= data@);
            Ok(get_le32(data.as_slice(), 0))
        },
        Err(e) => Err(e),
    }
}

/// Writes the entry of a cluster.
pub fn write_entry<D: Device>(device: &mut D, info: &ExFatInfo, cluster: u32, value: u32) -> (r:
    Result<(), ExFatError>)
    requires
        info.wf(),
    ensures
        final(device)@.len() == old(device)@.len(),
        match r {
            Ok(_) => {
                &&& info.has(cluster)
                &&& entry_at(*info, cluster as int) + 4 <= old(device)@.len()
                &&& final(device)@ == splice(
                    old(device)@,
                    entry_at(*info, cluster as int),
                    le32(value),
                )
                &&& fat_table(final(device)@, *info) == fat_table(old(device)@, *info).update(
                    cluster as int,
                    value,
                )
                &&& same_but_fat(old(device)@, final(device)@, *info)
            },
            Err(ExFatError::Io) => {
                &&& info.has(cluster)
                &&& D::infallible() ==> entry_at(*info, cluster as int) + 4 > old(device)@.len()
                    && final(device)@ == old(device)@
            },
            Err(e) => {
                &&& !info.has(cluster)
                &&& e == ExFatError::InvalidCluster(cluster)
                &&& final(device)@ == old(device)@
            },
        },
{
    if !info.is_valid_cluster(cluster) {
        return Err(ExFatError::InvalidCluster(cluster));
    }
    let at: u64 = info.fat_offset + 4 * cluster as u64;
    let mut data: Vec<u8> = Vec::new();
    crate::bytes::push_le32(&mut data, value);
    assert(data@ =~= le32(value));
    proof {
        if at + 4 <= device@.len() {
            entry_write(device@, *info, cluster, value);
        }
    }
    device.write_at(at, data.as_slice())
}

/// The cluster that follows in a chain.
pub fn next_cluster<D: Device>(device: &D, info: &ExFatInfo, cluster: u32) -> (r: Result<
    Option<u32>,
    ExFatError,
>)
    requires
        info.wf(),
    ensures
        match r {
            Ok(next) => {
                &&& info.has(cluster)
                &&& next_of(*info, fat_table(device@, *info)[cluster as int]) == Ok::<
                    Option<u32>,
                    ExFatError,
                >(next)
            },
            Err(ExFatError::Io) => {
                &&& info.has(cluster)
                &&& D::infallible() ==> entry_at(*info, cluster as int) + 4 > device@.len()
            },
            Err(e) => {
                ||| !info.has(cluster) && e == ExFatError::InvalidCluster(cluster)
                ||| info.has(cluster) && next_of(
                    *info,
                    fat_table(device@, *info)[cluster as int],
                ) == Err::<Option<u32>, ExFatError>(e)
            },
        },
{
    let value: u32 = match read_entry(device, info, cluster) {
        Ok(value) => value,
        Err(e) => {
            return Err(e);
        },
    };
    if value >= MEDIA_DESCRIPTOR {
        Ok(None)
    } else if info.is_valid_cluster(value) {
        Ok(Some(value))
    } else {
        Err(ExFatError::InvalidCluster(value))
    }
}

} // verus!
