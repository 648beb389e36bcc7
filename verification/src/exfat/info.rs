//! The boot region and the numbers of a volume.

use crate::bytes::{bytes_equal, get_le32};
#[allow(unused_imports)]
use crate::bytes::from_le32;
use crate::exfat::device::Device;
use crate::exfat::error::ExFatError;
use vstd::prelude::*;

verus! {

/// The numbers of a volume.
#[derive(Debug, Clone, Copy, PartialEq, Eq, Structural)]
pub struct ExFatInfo {
    /// Bytes of a sector.
    pub bytes_per_sector: usize,
    /// Bytes of a cluster.
    pub bytes_per_cluster: usize,
    /// Byte where the FAT starts.
    pub fat_offset: u64,
    /// Byte where the clusters start.
    pub heap_offset: u64,
    /// Number of clusters.
    pub cluster_count: u32,
    /// First cluster of the root directory.
    pub root_cluster: u32,
    /// Serial number.
    pub volume_serial: u32,
}

impl ExFatInfo {
    /// Whether the numbers are possible: a cluster is made of whole directory entries, the
    /// FAT lies before the clusters, the clusters can be numbered, and the root directory
    /// is one of them.
    pub open spec fn wf(&self) -> bool {
        &&& 512 <= self.bytes_per_sector <= 4096
        &&& 512 <= self.bytes_per_cluster <= 33554432
        &&& self.bytes_per_cluster % 512 == 0
        &&& 1 <= self.cluster_count <= 0xFFFFFFF5
        &&& self.fat_offset + 4 * (self.cluster_count + 2) <= self.heap_offset
        &&& self.heap_offset <= 0xFFFFFFFF * 4096
        &&& self.has(self.root_cluster)
    }

    /// Whether a number is that of a cluster.
    pub open spec fn has(&self, cluster: u32) -> bool {
        2 <= cluster < self.cluster_count + 2
    }

    /// Byte where a cluster starts.
    pub open spec fn offset(&self, cluster: u32) -> int {
        if cluster < 2 {
            self.heap_offset as int
        } else {
            self.heap_offset + (cluster - 2) * self.bytes_per_cluster
        }
    }

    /// Byte where the volume ends.
    pub open spec fn end(&self) -> int {
        self.heap_offset + self.cluster_count * self.bytes_per_cluster
    }

    /// Byte where a cluster starts. Numbers below the first cluster's stand for it.
    pub fn cluster_to_offset(&self, cluster: u32) -> (r: u64)
        requires
            self.wf(),
        ensures
            r == self.offset(cluster),
            r <= 0xFFFFFFFF * 4096 + 0xFFFFFFFF * 33554432,
    {
        let index: u32 = cluster.saturating_sub(2);
        proof {
            let b = self.bytes_per_cluster as int;
            assert(index * b <= 0xFFFFFFFF * 33554432) by (nonlinear_arith)
                requires
                    0 <= index <= 0xFFFFFFFF,
                    0 <= b <= 33554432,
            ;
            assert(0 <= index * b) by (nonlinear_arith)
                requires
                    0 <= index,
                    0 <= b,
            ;
        }
        self.heap_offset + index as u64 * self.bytes_per_cluster as u64
    }

    /// Whether a number is that of a cluster.
    pub fn is_valid_cluster(&self, cluster: u32) -> (r: bool)
        requires
            self.wf(),
        ensures
            r == self.has(cluster),
    {
        cluster >= 2 && cluster - 2 < self.cluster_count
    }

    /// The largest cluster number.
    pub fn max_cluster(&self) -> (r: u32)
        requires
            self.wf(),
        ensures
            r == self.cluster_count + 1,
    {
        self.cluster_count + 1
    }
}

/// A cluster lies within the volume, and different clusters do not overlap.
pub proof fn clusters_are_apart(info: ExFatInfo, a: u32, b: u32)
    requires
        info.wf(),
        info.has(a),
        info.has(b),
    ensures
        info.heap_offset <= info.offset(a),
        info.offset(a) + info.bytes_per_cluster <= info.end(),
        a < b ==> info.offset(a) + info.bytes_per_cluster <= info.offset(b),
        a + 1 == b ==> info.offset(a) + info.bytes_per_cluster == info.offset(b),
{
    let s = info.bytes_per_cluster as int;
    let n = info.cluster_count as int;
    assert((a - 2) * s >= 0 && (a - 2) * s + s <= n * s) by (nonlinear_arith)
        requires
            0 <= a - 2 < n,
            s > 0,
    ;
    if a < b {
        assert((a - 2) * s + s <= (b - 2) * s) by (nonlinear_arith)
            requires
                a < b,
                s > 0,
        ;
    }
    if a + 1 == b {
        assert((a - 2) * s + s == (b - 2) * s) by (nonlinear_arith)
            requires
                a + 1 == b,
        ;
    }
}

/// Two to the power of `n`, for a sector or cluster shift.
pub open spec fn shift_value(n: int) -> int
    decreases n,
{
    if n <= 0 {
        1
    } else {
        2 * shift_value(n - 1)
    }
}

fn power_of_two(n: u8) -> (r: u64)
    requires
        n <= 25,
    ensures
        r == shift_value(n as int),
        1 <= r <= 33554432,
{
    reveal_with_fuel(shift_value, 27);
    let mut r: u64 = 1;
    let mut i: u8 = 0;
    while i < n
        invariant
            i <= n <= 25,
            r == shift_value(i as int),
            1 <= r,
        decreases n - i,
    {
        proof {
            shift_grows(i as int);
        }
        r = r * 2;
        i += 1;
    }
    proof {
        shift_grows(n as int);
    }
    r
}

proof fn shift_grows(n: int)
    requires
        0 <= n <= 25,
    ensures
        1 <= shift_value(n) <= 33554432,
        9 <= n ==> shift_value(n) % 512 == 0 && shift_value(n) >= 512,
        n <= 12 ==> shift_value(n) <= 4096,
{
    reveal_with_fuel(shift_value, 27);
}

/// `EXFAT` and three blanks.
pub open spec fn file_system_name() -> Seq<u8> {
    seq![0x45u8, 0x58u8, 0x46u8, 0x41u8, 0x54u8, 0x20u8, 0x20u8, 0x20u8]
}

/// The numbers in a boot sector.
pub open spec fn boot_numbers(s: Seq<u8>) -> ExFatInfo {
    let sector = shift_value(s[108] as int);
    ExFatInfo {
        bytes_per_sector: sector as usize,
        bytes_per_cluster: shift_value(s[108] + s[109]) as usize,
        fat_offset: (from_le32(s.subrange(80, 84)) * sector) as u64,
        heap_offset: (from_le32(s.subrange(88, 92)) * sector) as u64,
        cluster_count: from_le32(s.subrange(92, 96)),
        root_cluster: from_le32(s.subrange(96, 100)),
        volume_serial: from_le32(s.subrange(100, 104)),
    }
}

/// Whether a boot sector is one of exFAT and its numbers are possible: name and signature
/// are right, a sector has 512 to 4096 bytes, a cluster at most 32 MiB.
pub open spec fn boot_ok(s: Seq<u8>) -> bool {
    &&& s.subrange(3, 11) == file_system_name()
    &&& s[510] == 0x55 && s[511] == 0xAA
    &&& 9 <= s[108] <= 12
    &&& s[108] + s[109] <= 25
    &&& boot_numbers(s).wf()
}

/// The numbers of the volume with this boot sector.
pub fn parse_boot_sector(s: &[u8]) -> (r: Result<ExFatInfo, ExFatError>)
    requires
        s@.len() >= 512,
    ensures
        r == (if boot_ok(s@) {
            Ok::<ExFatInfo, ExFatError>(boot_numbers(s@))
        } else {
            Err(ExFatError::InvalidBootSector)
        }),
{
    let name: [u8; 8] = [0x45, 0x58, 0x46, 0x41, 0x54, 0x20, 0x20, 0x20];
    let own: Vec<u8> = crate::bytes::copy_range(s, 3, 11);
    proof {
        assert(name@ =~= file_system_name());
    }
    if !bytes_equal(own.as_slice(), &name) {
        return Err(ExFatError::InvalidBootSector);
    }
    if s[510] != 0x55 || s[511] != 0xAA {
        return Err(ExFatError::InvalidBootSector);
    }
    let sector_shift: u8 = s[108];
    let cluster_shift: u8 = s[109];
    if sector_shift < 9 || sector_shift > 12 || cluster_shift > 25 - sector_shift {
        return Err(ExFatError::InvalidBootSector);
    }
    let sector: u64 = power_of_two(sector_shift);
    let cluster: u64 = power_of_two(sector_shift + cluster_shift);
    proof {
        shift_grows(sector_shift as int);
        shift_grows(sector_shift + cluster_shift);
    }
    let fat: u32 = get_le32(s, 80);
    let heap: u32 = get_le32(s, 88);
    let count: u32 = get_le32(s, 92);
    let root: u32 = get_le32(s, 96);
    let serial: u32 = get_le32(s, 100);
    proof {
        let t = sector as int;
        assert(fat * t <= 0xFFFFFFFF * 4096 && heap * t <= 0xFFFFFFFF * 4096 && 0 <= fat * t && 0
            <= heap * t) by (nonlinear_arith)
            requires
                0 <= fat <= 0xFFFFFFFF,
                0 <= heap <= 0xFFFFFFFF,
                0 <= t <= 4096,
        ;
    }
    let fat_offset: u64 = fat as u64 * sector;
    let heap_offset: u64 = heap as u64 * sector;
    if count < 1 || count > 0xFFFFFFF5 {
        return Err(ExFatError::InvalidBootSector);
    }
    if fat_offset + 4 * (count as u64 + 2) > heap_offset {
        return Err(ExFatError::InvalidBootSector);
    }
    if root < 2 || root - 2 >= count {
        return Err(ExFatError::InvalidBootSector);
    }
    Ok(
        ExFatInfo {
            bytes_per_sector: sector as usize,
            bytes_per_cluster: cluster as usize,
            fat_offset,
            heap_offset,
            cluster_count: count,
            root_cluster: root,
            volume_serial: serial,
        },
    )
}

/// `x` rotated right by one bit.
pub open spec fn rotr32(x: u32) -> u32 {
    (x / 2 + (x % 2) * 2147483648) as u32
}

/// The rolling checksum of bytes: rotate right, add the byte.
pub open spec fn roll32(s: Seq<u8>) -> u32
    decreases s.len(),
{
    if s.len() == 0 {
        0
    } else {
        ((rotr32(roll32(s.drop_last())) + s.last()) % 4294967296) as u32
    }
}

/// One step of the rolling checksum.
pub fn roll32_step(sum: u32, byte: u8) -> (r: u32)
    ensures
        r == (rotr32(sum) + byte) % 4294967296,
{
    let turned: u32 = sum / 2 + (sum % 2) * 2147483648;
    turned.wrapping_add(byte as u32)
}

/// The bytes of the first eleven sectors that the checksum covers: all but the volume
/// flags and the percentage in use.
pub open spec fn covered_by_checksum(s: Seq<u8>) -> Seq<u8> {
    s.take(106) + s.subrange(108, 112) + s.skip(113)
}

/// The checksum of the first eleven sectors.
pub fn boot_checksum(s: &[u8]) -> (r: u32)
    requires
        s@.len() >= 113,
    ensures
        r == roll32(covered_by_checksum(s@)),
{
    let mut sum: u32 = 0;
    let mut i: usize = 0;
    let ghost all = covered_by_checksum(s@);
    while i < s.len()
        invariant
            i <= s@.len(),
            s@.len() >= 113,
            all == covered_by_checksum(s@),
            sum == roll32(all.take(covered_before(i as int))),
        decreases s.len() - i,
    {
        if i != 106 && i != 107 && i != 112 {
            proof {
                let k = covered_before(i as int);
                assert(all[k] == s@[i as int]);
                assert(all.take(k + 1).drop_last() =~= all.take(k));
            }
            sum = roll32_step(sum, s[i]);
        }
        i += 1;
    }
    assert(all.take(covered_before(i as int)) =~= all);
    sum
}

spec fn covered_before(i: int) -> int {
    if i <= 106 {
        i
    } else if i <= 108 {
        106
    } else if i <= 112 {
        i - 2
    } else {
        i - 3
    }
}

/// The numbers of the volume that a device holds, or what is wrong with its boot region:
/// it reaches beyond the device, or the boot sector is wrong, or the checksum in the first
/// word of the twelfth sector.
pub open spec fn volume_numbers(content: Seq<u8>) -> Result<ExFatInfo, ExFatError> {
    let boot = content.subrange(0, 512);
    let size = boot_numbers(boot).bytes_per_sector as int;
    if content.len() < 512 {
        Err(ExFatError::Io)
    } else if !boot_ok(boot) {
        Err(ExFatError::InvalidBootSector)
    } else if content.len() < 11 * size + 4 {
        Err(ExFatError::Io)
    } else {
        let found = roll32(covered_by_checksum(content.subrange(0, 11 * size)));
        let expected = from_le32(content.subrange(11 * size, 11 * size + 4));
        if found == expected {
            Ok(boot_numbers(boot))
        } else {
            Err(ExFatError::InvalidChecksum { expected, found })
        }
    }
}

/// Reads the boot region of a device.
pub fn read_boot_region<D: Device>(device: &D) -> (r: Result<ExFatInfo, ExFatError>)
    ensures
        match r {
            Ok(info) => info.wf() && volume_numbers(device@) == Ok::<ExFatInfo, ExFatError>(info),
            Err(e) => {
                ||| volume_numbers(device@) == Err::<ExFatInfo, ExFatError>(e)
                ||| e == ExFatError::Io && !D::infallible()
            },
        },
{
    let boot: Vec<u8> = match device.read_at(0, 512) {
        Ok(data) => data,
        Err(e) => {
            return Err(e);
        },
    };
    let info: ExFatInfo = match parse_boot_sector(boot.as_slice()) {
        Ok(info) => info,
        Err(e) => {
            return Err(e);
        },
    };
    let size: usize = info.bytes_per_sector;
    let region: Vec<u8> = match device.read_at(0, 11 * size) {
        Ok(data) => data,
        Err(e) => {
            return Err(e);
        },
    };
    let word: Vec<u8> = match device.read_at(11 * size as u64, 4) {
        Ok(data) => data,
        Err(e) => {
            return Err(e);
        },
    };
    let found: u32 = boot_checksum(region.as_slice());
    let expected: u32 = get_le32(word.as_slice(), 0);
    assert(word@.subrange(0, 4) =~= word@);
    if found != expected {
        return Err(ExFatError::InvalidChecksum { expected, found });
    }
    Ok(info)
}

} // verus!
