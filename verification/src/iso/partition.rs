//! Partition tables: which partitions an image has, and the MBR and GPT that say so.

use crate::bytes::{push_all, push_le32, push_le64, push_zeros};
#[allow(unused_imports)]
use crate::bytes::{le32, le64};
use crate::iso::boot::{BootOptions, PlatformId};
use crate::iso::boot_image::overwrite;
#[allow(unused_imports)]
use crate::iso::boot_image::overwritten;
#[allow(unused_imports)]
use crate::iso::emit::zeros;
use crate::iso::error::IsoCreationError;
use crate::iso::options::{CreationFeatures, IsoFormatOptions, PartitionScheme};
use crate::iso::types::DirectoryRef;
use crate::iso::written::WrittenFiles;
#[allow(unused_imports)]
use crate::iso::written::{find_parts, lookup_parts, DirView};
use vstd::prelude::*;
#[allow(unused_imports)]
use vstd::utf8::encode_utf8;

verus! {

/// One step of the FNV-1a hash.
pub open spec fn fnv_step(hash: u64, byte: u8, factor: u64) -> u64 {
    (((hash ^ (byte as u64)) * factor) % 0x1_0000_0000_0000_0000) as u64
}

/// The FNV-1a hash of bytes.
pub open spec fn fnv(bytes: Seq<u8>, start: u64, factor: u64) -> u64
    decreases bytes.len(),
{
    if bytes.len() == 0 {
        start
    } else {
        fnv_step(fnv(bytes.drop_last(), start, factor), bytes.last(), factor)
    }
}

/// A GUID made of bytes: two hashes, with the bits set that mark a random GUID.
pub open spec fn guid_of(bytes: Seq<u8>) -> Seq<u8> {
    let raw = le64(fnv(bytes, 0xcbf29ce484222325, 0x100000001b3)) + le64(
        fnv(bytes, 0x100000001b3, 0xcbf29ce484222325),
    );
    raw.update(6, (raw[6] % 16 + 0x40) as u8).update(8, (raw[8] % 64 + 0x80) as u8)
}

fn guid_from_bytes(bytes: &[u8]) -> (r: Vec<u8>)
    ensures
        r@ == guid_of(bytes@),
        r@.len() == 16,
{
    let mut hash1: u64 = 0xcbf29ce484222325;
    let mut hash2: u64 = 0x100000001b3;
    let mut i: usize = 0;
    assert(bytes@.take(0) =~= Seq::empty());
    while i < bytes.len()
        invariant
            i <= bytes@.len(),
            hash1 == fnv(bytes@.take(i as int), 0xcbf29ce484222325, 0x100000001b3),
            hash2 == fnv(bytes@.take(i as int), 0x100000001b3, 0xcbf29ce484222325),
        decreases bytes.len() - i,
    {
        assert(bytes@.take(i + 1).drop_last() =~= bytes@.take(i as int));
        let byte: u64 = bytes[i] as u64;
        hash1 = (hash1 ^ byte).wrapping_mul(0x100000001b3);
        hash2 = (hash2 ^ byte).wrapping_mul(0xcbf29ce484222325);
        i += 1;
    }
    assert(bytes@.take(i as int) =~= bytes@);
    let mut r: Vec<u8> = Vec::new();
    push_le64(&mut r, hash1);
    push_le64(&mut r, hash2);
    let version: u8 = r[6] % 16 + 0x40;
    let variant: u8 = r[8] % 64 + 0x80;
    r[6] = version;
    r[8] = variant;
    assert(r@ =~= guid_of(bytes@));
    r
}

/// A GUID made of a string.
pub fn generate_guid_from_string(s: &str) -> (r: Vec<u8>)
    ensures
        r@ == guid_of(encode_utf8(s@)),
        r@.len() == 16,
{
    guid_from_bytes(s.as_bytes())
}

/// A GUID made of a prefix and a volume's name.
pub open spec fn named_guid(prefix: Seq<u8>, name: Seq<char>) -> Seq<u8> {
    guid_of(prefix + encode_utf8(name))
}

fn make_named_guid(prefix: &[u8], name: &str) -> (r: Vec<u8>)
    ensures
        r@ == named_guid(prefix@, name@),
        r@.len() == 16,
{
    let mut bytes: Vec<u8> = Vec::new();
    push_all(&mut bytes, prefix);
    push_all(&mut bytes, name.as_bytes());
    assert(bytes@ =~= prefix@ + encode_utf8(name@));
    guid_from_bytes(bytes.as_slice())
}

/// `disk-`
pub open spec fn disk_prefix() -> Seq<u8> {
    seq![0x64u8, 0x69u8, 0x73u8, 0x6Bu8, 0x2Du8]
}

/// `esp-`
pub open spec fn esp_prefix() -> Seq<u8> {
    seq![0x65u8, 0x73u8, 0x70u8, 0x2Du8]
}

/// `data-`
pub open spec fn data_prefix() -> Seq<u8> {
    seq![0x64u8, 0x61u8, 0x74u8, 0x61u8, 0x2Du8]
}

/// The type of a partition with data.
pub open spec fn basic_data_guid() -> Seq<u8> {
    seq![
        0xA2u8, 0xA0u8, 0xD0u8, 0xEBu8, 0xE5u8, 0xB9u8, 0x33u8, 0x44u8, 0x87u8, 0xC0u8, 0x68u8,
        0xB6u8, 0xB7u8, 0x26u8, 0x99u8, 0xC7u8,
    ]
}

/// The type of an EFI System Partition.
pub open spec fn efi_system_guid() -> Seq<u8> {
    seq![
        0x28u8, 0x73u8, 0x2Au8, 0xC1u8, 0x1Fu8, 0xF8u8, 0xD2u8, 0x11u8, 0xBAu8, 0x4Bu8, 0x00u8,
        0xA0u8, 0xC9u8, 0x3Eu8, 0xC9u8, 0x3Bu8,
    ]
}

/// A partition.
#[derive(Debug)]
pub struct Partition {
    /// Whether it is the EFI System Partition.
    pub esp: bool,
    /// Its GUID.
    pub guid: Vec<u8>,
    /// Its first 512-byte sector.
    pub first: u64,
    /// Its last 512-byte sector.
    pub last: u64,
}

/// The mathematical value of a [`Partition`].
pub struct PartitionView {
    /// Whether it is the EFI System Partition.
    pub esp: bool,
    /// Its GUID.
    pub guid: Seq<u8>,
    /// Its first 512-byte sector.
    pub first: u64,
    /// Its last 512-byte sector.
    pub last: u64,
}

impl Partition {
    /// The mathematical value.
    pub open spec fn view(&self) -> PartitionView {
        PartitionView { esp: self.esp, guid: self.guid@, first: self.first, last: self.last }
    }
}

/// The values of partitions.
pub open spec fn partition_views(parts: Seq<Partition>) -> Seq<PartitionView> {
    Seq::new(parts.len(), |i: int| parts[i]@)
}

/// The 512-byte sectors of an image with a GPT: the data and 33 sectors for the backup, in
/// whole logical sectors.
pub open spec fn total_512(end_sector: int) -> int {
    (end_sector * 4 + 33 + 3) / 4 * 4
}

/// The 512-byte sectors of an image with a GPT whose data ends before `end_sector`.
pub fn gpt_total_512(end_sector: u64) -> (r: u64)
    requires
        end_sector <= 0x3FFF_FFFF_FFFF_FF00,
    ensures
        r == total_512(end_sector as int),
{
    (end_sector * 4 + 33 + 3) / 4 * 4
}

/// The logical sectors that the volume descriptors declare: with a GPT, all of the image.
pub open spec fn volume_space(features: CreationFeatures, end_sector: int) -> u32 {
    if crate::iso::options::has_gpt(features) {
        (total_512(end_sector) / 4) as u32
    } else {
        end_sector as u32
    }
}

/// The logical sectors that the volume descriptors declare.
pub fn volume_space_sectors(ops: &IsoFormatOptions, end_sector: u64) -> (r: u32)
    requires
        end_sector <= 0x3FFF_FFFF_FFFF_FF00,
    ensures
        r == volume_space(ops.features, end_sector as int),
{
    match ops.partition_scheme() {
        Some(PartitionScheme::Gpt) => (gpt_total_512(end_sector) / 4) as u32,
        Some(PartitionScheme::Hybrid) => (gpt_total_512(end_sector) / 4) as u32,
        _ => end_sector as u32,
    }
}

/// The paths of the UEFI boot images among the first `n` sections.
pub open spec fn uefi_paths(boot: BootOptions, n: int) -> Seq<Seq<char>>
    decreases n,
{
    if n <= 0 {
        Seq::empty()
    } else if boot.entries@[n - 1].0.platform == PlatformId::UEFI {
        uefi_paths(boot, n - 1).push(boot.entries@[n - 1].1.boot_image_path@)
    } else {
        uefi_paths(boot, n - 1)
    }
}

/// The path of the image that becomes the EFI System Partition: the one that is named,
/// else that of the only UEFI section.
pub open spec fn efi_path(features: CreationFeatures) -> Option<Seq<char>> {
    match features.hybrid_boot {
        None => None,
        Some(h) => match h.efi_boot_partition {
            Some(path) => Some(path@),
            None => match features.el_torito {
                None => None,
                Some(boot) => {
                    let paths = uefi_paths(boot, boot.entries@.len() as int);
                    if paths.len() == 1 {
                        Some(paths[0])
                    } else {
                        None
                    }
                },
            },
        },
    }
}

/// The path of the image that becomes the EFI System Partition.
pub fn efi_boot_partition_path(features: &CreationFeatures) -> (r: Option<String>)
    ensures
        match efi_path(*features) {
            Some(path) => r matches Some(s) && s@ == path,
            None => r is None,
        },
{
    let named: Option<String> = match &features.hybrid_boot {
        None => {
            return None;
        },
        Some(h) => match &h.efi_boot_partition {
            Some(path) => {
                return Some(path.clone());
            },
            None => None,
        },
    };
    assert(named is None);
    let boot: &BootOptions = match &features.el_torito {
        None => {
            return None;
        },
        Some(boot) => boot,
    };
    let mut found: usize = 0;
    let mut at: usize = 0;
    let mut i: usize = 0;
    while i < boot.entries.len()
        invariant
            i <= boot.entries@.len(),
            found <= i,
            found == uefi_paths(*boot, i as int).len(),
            found == 1 ==> at < boot.entries@.len() && uefi_paths(*boot, i as int)[0]
                == boot.entries@[at as int].1.boot_image_path@,
        decreases boot.entries.len() - i,
    {
        let uefi: bool = match boot.entries[i].0.platform {
            PlatformId::UEFI => true,
            _ => false,
        };
        if uefi {
            found += 1;
            at = i;
        }
        i += 1;
    }
    if found == 1 {
        Some(boot.entries[at].1.boot_image_path.clone())
    } else {
        None
    }
}

/// The 512-byte sectors of the EFI System Partition, which lies between 64 and `iso_end`.
pub open spec fn esp_range(root: DirView, features: CreationFeatures, iso_end: int) -> Result<
    Option<(u64, u64)>,
    IsoCreationError,
> {
    match efi_path(features) {
        None => Ok(None),
        Some(path) => match find_parts(root, lookup_parts(path)) {
            None => Err(IsoCreationError::EfiImageNotFound),
            Some(image) => {
                let start = image.extent.0 * 4;
                let sectors = if image.size == 0 {
                    1
                } else {
                    (image.size + 511) / 512
                };
                if start < 64 || start + sectors - 1 > iso_end {
                    Err(IsoCreationError::EfiImageOutside)
                } else {
                    Ok(Some((start as u64, (start + sectors - 1) as u64)))
                }
            },
        },
    }
}

/// The 512-byte sectors of the EFI System Partition.
pub fn find_esp_partition(files: &WrittenFiles, ops: &IsoFormatOptions, iso_end: u64) -> (r: Result<
    Option<(u64, u64)>,
    IsoCreationError,
>)
    ensures
        r == esp_range(files@, ops.features, iso_end as int),
{
    let path: String = match efi_boot_partition_path(&ops.features) {
        None => {
            return Ok(None);
        },
        Some(path) => path,
    };
    let image: DirectoryRef = match files.find_file(path.as_str(), ops.path_separator) {
        None => {
            return Err(IsoCreationError::EfiImageNotFound);
        },
        Some(image) => image,
    };
    let start: u128 = image.extent.0 as u128 * 4;
    let sectors: u128 = if image.size == 0 {
        1
    } else {
        (image.size as u128 + 511) / 512
    };
    if start < 64 || start + sectors - 1 > iso_end as u128 {
        return Err(IsoCreationError::EfiImageOutside);
    }
    Ok(Some((start as u64, (start + sectors - 1) as u64)))
}

/// The partitions of an image whose data ends with 512-byte sector `iso_end`: the data
/// before the EFI System Partition, that partition, and the data behind it.
pub open spec fn partitions(esp: Option<(u64, u64)>, iso_end: u64, name: Seq<char>) -> Seq<
    PartitionView,
> {
    match esp {
        None => seq![
            PartitionView {
                esp: false,
                guid: guid_of(encode_utf8(name)),
                first: 64,
                last: iso_end,
            },
        ],
        Some((first, last)) => (if first > 64 {
            seq![
                PartitionView {
                    esp: false,
                    guid: guid_of(encode_utf8(name)),
                    first: 64,
                    last: (first - 1) as u64,
                },
            ]
        } else {
            Seq::empty()
        }) + seq![
            PartitionView { esp: true, guid: named_guid(esp_prefix(), name), first, last },
        ] + (if last < iso_end {
            seq![
                PartitionView {
                    esp: false,
                    guid: named_guid(data_prefix(), name),
                    first: (last + 1) as u64,
                    last: iso_end,
                },
            ]
        } else {
            Seq::empty()
        }),
    }
}

/// The partitions of an image.
pub fn add_gpt_partitions(esp: Option<(u64, u64)>, iso_end: u64, name: &str) -> (r: Vec<Partition>)
    requires
        esp matches Some((first, last)) ==> 64 <= first <= last <= iso_end,
    ensures
        partition_views(r@) == partitions(esp, iso_end, name@),
        r@.len() <= 3,
        forall|i: int| 0 <= i < r@.len() ==> (#[trigger] r@[i]).guid@.len() == 16,
{
    let mut parts: Vec<Partition> = Vec::new();
    match esp {
        None => {
            parts.push(
                Partition { esp: false, guid: generate_guid_from_string(name), first: 64, last: iso_end },
            );
        },
        Some((first, last)) => {
            if first > 64 {
                parts.push(
                    Partition {
                        esp: false,
                        guid: generate_guid_from_string(name),
                        first: 64,
                        last: first - 1,
                    },
                );
            }
            let esp_name: [u8; 4] = [0x65, 0x73, 0x70, 0x2D];
            assert(esp_name@ =~= esp_prefix());
            parts.push(
                Partition { esp: true, guid: make_named_guid(&esp_name, name), first, last },
            );
            if last < iso_end {
                let data_name: [u8; 5] = [0x64, 0x61, 0x74, 0x61, 0x2D];
                assert(data_name@ =~= data_prefix());
                parts.push(
                    Partition {
                        esp: false,
                        guid: make_named_guid(&data_name, name),
                        first: last + 1,
                        last: iso_end,
                    },
                );
            }
        },
    }
    assert(partition_views(parts@) =~= partitions(esp, iso_end, name@));
    parts
}

/// The partitions of an image lie side by side, from 512-byte sector 64 to the end of its
/// data, and the EFI System Partition is where its image lies.
pub proof fn partitions_tile_the_data(esp: Option<(u64, u64)>, iso_end: u64, name: Seq<char>)
    requires
        64 < iso_end,
        esp matches Some((first, last)) ==> 64 <= first <= last <= iso_end,
    ensures
        ({
            let all = partitions(esp, iso_end, name);
            &&& 1 <= all.len() <= 3
            &&& all[0].first == 64
            &&& all.last().last == iso_end
            &&& forall|i: int|
                0 <= i < all.len() ==> (#[trigger] all[i]).first <= all[i].last
            &&& forall|i: int|
                0 < i < all.len() ==> (#[trigger] all[i]).first == all[i - 1].last + 1
            &&& forall|i: int|
                0 <= i < all.len() && (#[trigger] all[i]).esp ==> esp == Some(
                    (all[i].first, all[i].last),
                )
            &&& esp is Some ==> exists|i: int| 0 <= i < all.len() && (#[trigger] all[i]).esp
        }),
{
    let all = partitions(esp, iso_end, name);
    match esp {
        None => {},
        Some((first, last)) => {
            let k = if first > 64 {
                1int
            } else {
                0int
            };
            assert(all[k].esp);
        },
    }
}

/// The address of a sector by cylinder, head and sector, on 255 heads of 63 sectors. What
/// lies behind the last cylinder gets the last address.
pub open spec fn chs(lba: u32) -> Seq<u8> {
    let cylinder = lba / 16065;
    if cylinder > 1023 {
        seq![0xFEu8, 0xFFu8, 0xFFu8]
    } else {
        let rest = lba % 16065;
        seq![
            (rest / 63) as u8,
            (rest % 63 + 1 + cylinder / 256 * 64) as u8,
            (cylinder % 256) as u8,
        ]
    }
}

/// An entry of an MBR: whether it is active, first sector, type, last sector, first sector
/// and number of sectors.
#[verifier::opaque]
pub open spec fn mbr_entry(active: bool, kind: u8, first: u32, count: u32) -> Seq<u8> {
    let last = if first + count - 1 > u32::MAX || count == 0 {
        u32::MAX
    } else {
        (first + count - 1) as u32
    };
    seq![
        if active {
            0x80u8
        } else {
            0u8
        },
    ] + chs(first) + seq![kind] + chs(last) + le32(first) + le32(count)
}

fn push_chs(out: &mut Vec<u8>, lba: u32)
    ensures
        final(out)@ == old(out)@ + chs(lba),
{
    let cylinder: u32 = lba / 16065;
    if cylinder > 1023 {
        out.push(0xFE);
        out.push(0xFF);
        out.push(0xFF);
    } else {
        let rest: u32 = lba % 16065;
        out.push((rest / 63) as u8);
        out.push((rest % 63 + 1 + cylinder / 256 * 64) as u8);
        out.push((cylinder % 256) as u8);
    }
    assert(out@ =~= old(out)@ + chs(lba));
}

fn push_mbr_entry(out: &mut Vec<u8>, active: bool, kind: u8, first: u32, count: u32)
    ensures
        final(out)@ == old(out)@ + mbr_entry(active, kind, first, count),
        mbr_entry(active, kind, first, count).len() == 16,
{
    reveal(mbr_entry);
    let end: u64 = first as u64 + count as u64;
    let last: u32 = if count == 0 || end - 1 > 0xFFFF_FFFF {
        0xFFFF_FFFF
    } else {
        (end - 1) as u32
    };
    out.push(
        if active {
            0x80
        } else {
            0
        },
    );
    push_chs(out, first);
    out.push(kind);
    push_chs(out, last);
    push_le32(out, first);
    push_le32(out, count);
    assert(out@ =~= old(out)@ + mbr_entry(active, kind, first, count));
}

/// The boot code of an MBR: at most 446 bytes of what is given, filled up with zeros.
pub open spec fn boot_code(bootstrap: Option<Vec<u8>>) -> Seq<u8> {
    match bootstrap {
        None => zeros(446),
        Some(code) => if code@.len() > 446 {
            code@.take(446)
        } else {
            code@ + zeros(446 - code@.len())
        },
    }
}

/// An MBR: boot code, entries filled up to four, signature.
pub open spec fn mbr_bytes(code: Seq<u8>, entries: Seq<u8>) -> Seq<u8> {
    code + entries + zeros(64 - entries.len()) + seq![0x55u8, 0xAAu8]
}

fn make_mbr(bootstrap: &Option<Vec<u8>>, entries: &[u8]) -> (r: Vec<u8>)
    requires
        entries@.len() <= 64,
    ensures
        r@ == mbr_bytes(boot_code(*bootstrap), entries@),
        r@.len() == 512,
{
    let mut mbr: Vec<u8> = Vec::new();
    match bootstrap {
        None => {
            push_zeros(&mut mbr, 446);
        },
        Some(code) => {
            if code.len() > 446 {
                let head: Vec<u8> = crate::bytes::copy_range(code.as_slice(), 0, 446);
                push_all(&mut mbr, head.as_slice());
            } else {
                push_all(&mut mbr, code.as_slice());
                push_zeros(&mut mbr, 446 - code.len());
            }
        },
    }
    assert(mbr@ =~= boot_code(*bootstrap));
    push_all(&mut mbr, entries);
    push_zeros(&mut mbr, 64 - entries.len());
    let ghost before = mbr@;
    mbr.push(0x55);
    mbr.push(0xAA);
    assert(mbr@ =~= before + seq![0x55u8, 0xAAu8]);
    mbr
}

/// One bit of the CRC-32 of Ethernet.
pub open spec fn crc_bit(c: u32) -> u32 {
    if c % 2 == 1 {
        (c / 2) ^ 0xEDB88320u32
    } else {
        c / 2
    }
}

/// One byte of the CRC-32.
pub open spec fn crc_byte(c: u32, byte: u8) -> u32 {
    crc_bit(crc_bit(crc_bit(crc_bit(crc_bit(crc_bit(crc_bit(crc_bit(c ^ (byte as u32)))))))))
}

/// The CRC-32 register behind bytes.
pub open spec fn crc_register(bytes: Seq<u8>) -> u32
    decreases bytes.len(),
{
    if bytes.len() == 0 {
        0xFFFF_FFFF
    } else {
        crc_byte(crc_register(bytes.drop_last()), bytes.last())
    }
}

/// The CRC-32 of bytes.
pub open spec fn crc_of(bytes: Seq<u8>) -> u32 {
    crc_register(bytes) ^ 0xFFFF_FFFFu32
}

fn next_crc_bit(c: u32) -> (r: u32)
    ensures
        r == crc_bit(c),
{
    if c % 2 == 1 {
        (c / 2) ^ 0xEDB88320
    } else {
        c / 2
    }
}

/// The CRC-32 of bytes.
pub fn crc32(bytes: &[u8]) -> (r: u32)
    ensures
        r == crc_of(bytes@),
{
    let mut c: u32 = 0xFFFF_FFFF;
    let mut i: usize = 0;
    assert(bytes@.take(0) =~= Seq::empty());
    while i < bytes.len()
        invariant
            i <= bytes@.len(),
            c == crc_register(bytes@.take(i as int)),
        decreases bytes.len() - i,
    {
        assert(bytes@.take(i + 1).drop_last() =~= bytes@.take(i as int));
        let mut x: u32 = c ^ (bytes[i] as u32);
        x = next_crc_bit(next_crc_bit(next_crc_bit(next_crc_bit(x))));
        x = next_crc_bit(next_crc_bit(next_crc_bit(next_crc_bit(x))));
        c = x;
        i += 1;
    }
    assert(bytes@.take(i as int) =~= bytes@);
    c ^ 0xFFFF_FFFF
}

/// A partition's name: ASCII characters as UTF-16, least significant byte first, filled up
/// to 72 bytes.
pub open spec fn gpt_name(name: Seq<u8>) -> Seq<u8> {
    Seq::new(
        72,
        |i: int|
            if i % 2 == 0 && i / 2 < name.len() {
                name[i / 2]
            } else {
                0u8
            },
    )
}

/// `ISO9660` or `EFI System Partition`.
pub open spec fn partition_name(esp: bool) -> Seq<u8> {
    if esp {
        encode_utf8("EFI System Partition"@)
    } else {
        encode_utf8("ISO9660"@)
    }
}

/// An entry of a GPT: type, GUID, first and last sector, no attributes, name.
pub open spec fn gpt_entry(p: PartitionView) -> Seq<u8> {
    (if p.esp {
        efi_system_guid()
    } else {
        basic_data_guid()
    }) + p.guid + le64(p.first) + le64(p.last) + zeros(8) + gpt_name(partition_name(p.esp))
}

/// Entries one behind the other.
pub open spec fn gpt_entries(parts: Seq<PartitionView>) -> Seq<u8>
    decreases parts.len(),
{
    if parts.len() == 0 {
        Seq::empty()
    } else {
        gpt_entries(parts.drop_last()) + gpt_entry(parts.last())
    }
}

/// The array of 128 entries.
pub open spec fn gpt_array(parts: Seq<PartitionView>) -> Seq<u8> {
    gpt_entries(parts) + zeros(16384 - gpt_entries(parts).len())
}

/// A GPT header before the given sum is known: signature, revision, size, sum, its own
/// sector and that of the other header, the sectors for partitions, the disk's GUID, where
/// the entries are, how many there are, how long each is, their sum.
pub open spec fn gpt_head(
    sum: u32,
    own: u64,
    other: u64,
    last_usable: u64,
    disk: Seq<u8>,
    array: u64,
    array_sum: u32,
) -> Seq<u8> {
    seq![0x45u8, 0x46u8, 0x49u8, 0x20u8, 0x50u8, 0x41u8, 0x52u8, 0x54u8] + le32(0x00010000)
        + le32(92) + le32(sum) + zeros(4) + le64(own) + le64(other) + le64(34) + le64(last_usable)
        + disk + le64(array) + le32(128) + le32(128) + le32(array_sum)
}

/// The sector of a GPT header, with its sum.
pub open spec fn gpt_header(
    own: u64,
    other: u64,
    last_usable: u64,
    disk: Seq<u8>,
    array: u64,
    array_sum: u32,
) -> Seq<u8> {
    let sum = crc_of(gpt_head(0, own, other, last_usable, disk, array, array_sum));
    gpt_head(sum, own, other, last_usable, disk, array, array_sum) + zeros(420)
}

fn make_gpt_head(
    sum: u32,
    own: u64,
    other: u64,
    last_usable: u64,
    disk: &[u8],
    array: u64,
    array_sum: u32,
) -> (r: Vec<u8>)
    requires
        disk@.len() == 16,
    ensures
        r@ == gpt_head(sum, own, other, last_usable, disk@, array, array_sum),
        r@.len() == 92,
{
    let mut r: Vec<u8> = Vec::new();
    r.push(0x45);
    r.push(0x46);
    r.push(0x49);
    r.push(0x20);
    r.push(0x50);
    r.push(0x41);
    r.push(0x52);
    r.push(0x54);
    assert(r@ =~= seq![0x45u8, 0x46u8, 0x49u8, 0x20u8, 0x50u8, 0x41u8, 0x52u8, 0x54u8]);
    push_le32(&mut r, 0x00010000);
    push_le32(&mut r, 92);
    push_le32(&mut r, sum);
    push_zeros(&mut r, 4);
    push_le64(&mut r, own);
    push_le64(&mut r, other);
    push_le64(&mut r, 34);
    push_le64(&mut r, last_usable);
    push_all(&mut r, disk);
    push_le64(&mut r, array);
    push_le32(&mut r, 128);
    push_le32(&mut r, 128);
    push_le32(&mut r, array_sum);
    r
}

fn make_gpt_header(
    own: u64,
    other: u64,
    last_usable: u64,
    disk: &[u8],
    array: u64,
    array_sum: u32,
) -> (r: Vec<u8>)
    requires
        disk@.len() == 16,
    ensures
        r@ == gpt_header(own, other, last_usable, disk@, array, array_sum),
        r@.len() == 512,
{
    let blank: Vec<u8> = make_gpt_head(0, own, other, last_usable, disk, array, array_sum);
    let sum: u32 = crc32(blank.as_slice());
    let mut r: Vec<u8> = make_gpt_head(sum, own, other, last_usable, disk, array, array_sum);
    push_zeros(&mut r, 420);
    r
}

fn push_gpt_name(out: &mut Vec<u8>, name: &[u8])
    requires
        name@.len() <= 36,
    ensures
        final(out)@ == old(out)@ + gpt_name(name@),
{
    let ghost all = gpt_name(name@);
    let mut i: usize = 0;
    while i < 72
        invariant
            i <= 72,
            all == gpt_name(name@),
            out@ == old(out)@ + all.take(i as int),
        decreases 72 - i,
    {
        let byte: u8 = if i % 2 == 0 && i / 2 < name.len() {
            name[i / 2]
        } else {
            0
        };
        out.push(byte);
        i += 1;
        assert(out@ =~= old(out)@ + all.take(i as int));
    }
    assert(all.take(72) =~= all);
}

fn push_gpt_entry(out: &mut Vec<u8>, p: &Partition)
    ensures
        final(out)@ == old(out)@ + gpt_entry(p@),
{
    let ghost before = out@;
    if p.esp {
        let kind: [u8; 16] = [
            0x28, 0x73, 0x2A, 0xC1, 0x1F, 0xF8, 0xD2, 0x11, 0xBA, 0x4B, 0x00, 0xA0, 0xC9, 0x3E,
            0xC9, 0x3B,
        ];
        assert(kind@ =~= efi_system_guid());
        push_all(out, &kind);
    } else {
        let kind: [u8; 16] = [
            0xA2, 0xA0, 0xD0, 0xEB, 0xE5, 0xB9, 0x33, 0x44, 0x87, 0xC0, 0x68, 0xB6, 0xB7, 0x26,
            0x99, 0xC7,
        ];
        assert(kind@ =~= basic_data_guid());
        push_all(out, &kind);
    }
    push_all(out, p.guid.as_slice());
    push_le64(out, p.first);
    push_le64(out, p.last);
    push_zeros(out, 8);
    proof {
        reveal_strlit("EFI System Partition");
        reveal_strlit("ISO9660");
        vstd::utf8::is_ascii_chars_encode_utf8("EFI System Partition"@);
        vstd::utf8::is_ascii_chars_encode_utf8("ISO9660"@);
    }
    if p.esp {
        push_gpt_name(out, "EFI System Partition".as_bytes());
    } else {
        push_gpt_name(out, "ISO9660".as_bytes());
    }
    assert(out@ =~= before + gpt_entry(p@));
}

/// Every entry of a GPT has 128 bytes.
pub proof fn gpt_entries_len(parts: Seq<PartitionView>)
    requires
        forall|i: int| 0 <= i < parts.len() ==> (#[trigger] parts[i]).guid.len() == 16,
    ensures
        gpt_entries(parts).len() == 128 * parts.len(),
    decreases parts.len(),
{
    if parts.len() > 0 {
        gpt_entries_len(parts.drop_last());
        assert(parts[parts.len() - 1].guid.len() == 16);
    }
}

fn make_gpt_array(parts: &Vec<Partition>) -> (r: Vec<u8>)
    requires
        parts@.len() <= 128,
        forall|i: int| 0 <= i < parts@.len() ==> (#[trigger] parts@[i]).guid@.len() == 16,
    ensures
        r@ == gpt_array(partition_views(parts@)),
        r@.len() == 16384,
{
    let ghost all = partition_views(parts@);
    let mut r: Vec<u8> = Vec::new();
    let mut i: usize = 0;
    assert(all.take(0) =~= Seq::empty());
    while i < parts.len()
        invariant
            i <= parts@.len(),
            all == partition_views(parts@),
            r@ == gpt_entries(all.take(i as int)),
        decreases parts.len() - i,
    {
        assert(all.take(i + 1).drop_last() =~= all.take(i as int));
        assert(all[i as int] == parts@[i as int]@);
        push_gpt_entry(&mut r, &parts[i]);
        i += 1;
    }
    proof {
        assert(all.take(i as int) =~= all);
        assert forall|k: int| 0 <= k < all.len() implies (#[trigger] all[k]).guid.len() == 16 by {
            assert(parts@[k].guid@.len() == 16);
        }
        gpt_entries_len(all);
    }
    let rest: usize = 16384 - r.len();
    push_zeros(&mut r, rest);
    r
}

/// The number of 512-byte sectors of a partition that an MBR mirrors, or nothing where a
/// number does not fit 32 bits.
pub open spec fn mirror_fits(p: PartitionView) -> bool {
    p.last <= u32::MAX
}

/// The mirror of a partition in a hybrid MBR: data as type 0x17, the EFI System Partition
/// as type 0xEF.
pub open spec fn mirror_entry(p: PartitionView, bootable: bool) -> Seq<u8> {
    mbr_entry(
        !p.esp && bootable,
        if p.esp {
            0xEF
        } else {
            0x17
        },
        p.first as u32,
        (p.last - p.first + 1) as u32,
    )
}

/// The partitions that a hybrid MBR mirrors: the data before the EFI System Partition, and
/// that partition.
pub open spec fn mirrored(parts: Seq<PartitionView>) -> Seq<PartitionView> {
    if parts.len() > 0 && !parts[0].esp && parts.len() > 1 && parts[1].esp {
        parts.take(2)
    } else {
        parts.take(1)
    }
}

/// The entries that mirror partitions.
pub open spec fn mirror_entries(parts: Seq<PartitionView>, bootable: bool) -> Seq<u8>
    decreases parts.len(),
{
    if parts.len() == 0 {
        Seq::empty()
    } else {
        mirror_entries(parts.drop_last(), bootable) + mirror_entry(parts.last(), bootable)
    }
}

/// The entries of a hybrid MBR: one that covers the sectors before the first partition, and
/// the mirrored partitions.
pub open spec fn hybrid_entries(parts: Seq<PartitionView>, bootable: bool) -> Result<
    Seq<u8>,
    IsoCreationError,
> {
    let shown = mirrored(parts);
    if forall|i: int| 0 <= i < shown.len() ==> mirror_fits(#[trigger] shown[i]) {
        Ok(
            mbr_entry(false, 0xEE, 1, (shown[0].first - 1) as u32) + mirror_entries(
                shown,
                bootable,
            ),
        )
    } else {
        Err(IsoCreationError::HybridMbr)
    }
}

fn push_mirror(out: &mut Vec<u8>, p: &Partition, bootable: bool)
    requires
        p.first <= p.last <= u32::MAX,
        p.first > 0,
    ensures
        final(out)@ == old(out)@ + mirror_entry(p@, bootable),
        mirror_entry(p@, bootable).len() == 16,
{
    let kind: u8 = if p.esp {
        0xEF
    } else {
        0x17
    };
    push_mbr_entry(
        out,
        !p.esp && bootable,
        kind,
        p.first as u32,
        (p.last - p.first + 1) as u32,
    );
}

fn make_hybrid_entries(parts: &Vec<Partition>, bootable: bool) -> (r: Result<
    Vec<u8>,
    IsoCreationError,
>)
    requires
        1 <= parts@.len() <= 3,
        forall|i: int|
            0 <= i < parts@.len() ==> 64 <= (#[trigger] parts@[i]).first <= parts@[i].last,
    ensures
        match hybrid_entries(partition_views(parts@), bootable) {
            Ok(entries) => r matches Ok(v) && v@ == entries && v@.len() <= 64,
            Err(e) => r == Err::<Vec<u8>, IsoCreationError>(e),
        },
{
    let ghost all = partition_views(parts@);
    let ghost shown = mirrored(all);
    let two: bool = !parts[0].esp && parts.len() > 1 && parts[1].esp;
    assert(all[0] == parts@[0]@);
    proof {
        if parts@.len() > 1 {
            assert(all[1] == parts@[1]@);
        }
        assert(shown =~= if two {
            all.take(2)
        } else {
            all.take(1)
        });
        assert(shown[0] == all[0]);
        if two {
            assert(shown[1] == all[1]);
        }
    }
    if parts[0].last > 0xFFFF_FFFF || (two && parts[1].last > 0xFFFF_FFFF) {
        assert(!mirror_fits(shown[0]) || (two && !mirror_fits(shown[1])));
        return Err(IsoCreationError::HybridMbr);
    }
    assert(forall|i: int| 0 <= i < shown.len() ==> mirror_fits(#[trigger] shown[i]));
    let mut out: Vec<u8> = Vec::new();
    push_mbr_entry(&mut out, false, 0xEE, 1, (parts[0].first - 1) as u32);
    let ghost guard = mbr_entry(false, 0xEE, 1, (shown[0].first - 1) as u32);
    assert(out@ =~= guard);
    push_mirror(&mut out, &parts[0], bootable);
    if two {
        push_mirror(&mut out, &parts[1], bootable);
    }
    proof {
        let one = shown.take(1);
        assert(one.drop_last() =~= Seq::empty());
        assert(mirror_entries(one.drop_last(), bootable) == Seq::<u8>::empty());
        assert(one.last() == shown[0]);
        assert(mirror_entries(one, bootable) =~= mirror_entry(shown[0], bootable));
        if two {
            assert(shown.drop_last() =~= one);
        } else {
            assert(shown =~= one);
        }
        assert(out@ =~= guard + mirror_entries(shown, bootable));
    }
    Ok(out)
}

/// The GPT of an image: its partitions, or why there is none.
pub open spec fn gpt_parts(
    root: DirView,
    ops: IsoFormatOptions,
    end_sector: int,
) -> Result<Seq<PartitionView>, IsoCreationError> {
    let iso_end = end_sector * 4 - 1;
    if iso_end <= 64 {
        Err(IsoCreationError::GptTooSmall)
    } else {
        match esp_range(root, ops.features, iso_end) {
            Err(e) => Err(e),
            Ok(esp) => Ok(partitions(esp, iso_end as u64, ops.volume_name@)),
        }
    }
}

/// The partitions of an image with a GPT.
pub fn build_gpt_partitions(files: &WrittenFiles, ops: &IsoFormatOptions, end_sector: u64) -> (r:
    Result<Vec<Partition>, IsoCreationError>)
    requires
        end_sector <= 0x3FFF_FFFF_FFFF_FF00,
    ensures
        match gpt_parts(files@, *ops, end_sector as int) {
            Ok(parts) => r matches Ok(v) && partition_views(v@) == parts && 1 <= v@.len() <= 3
                && (forall|i: int|
                0 <= i < v@.len() ==> 64 <= (#[trigger] v@[i]).first <= v@[i].last
                    && v@[i].guid@.len() == 16),
            Err(e) => r == Err::<Vec<Partition>, IsoCreationError>(e),
        },
{
    if end_sector * 4 <= 65 {
        return Err(IsoCreationError::GptTooSmall);
    }
    let iso_end: u64 = end_sector * 4 - 1;
    match find_esp_partition(files, ops, iso_end) {
        Err(e) => Err(e),
        Ok(esp) => {
            let parts: Vec<Partition> = add_gpt_partitions(
                esp,
                iso_end,
                ops.volume_name.as_str(),
            );
            proof {
                let all = partitions(esp, iso_end, ops.volume_name@);
                partitions_tile_the_data(esp, iso_end, ops.volume_name@);
                assert forall|i: int| 0 <= i < parts@.len() implies 64 <= (
                #[trigger] parts@[i]).first <= parts@[i].last && parts@[i].guid@.len() == 16 by {
                    assert(all[i] == parts@[i]@);
                    assert(all[i].first <= all[i].last);
                    if i >= 1 {
                        assert(all[i].first == all[i - 1].last + 1);
                    }
                    if i == 2 {
                        assert(all[1].first == all[0].last + 1);
                    }
                }
            }
            Ok(parts)
        },
    }
}

/// The image with an MBR and a GPT: MBR, header and entries in the first 34 sectors of 512
/// bytes, entries and header again in the last 33.
#[verifier::opaque]
pub open spec fn with_gpt(
    data: Seq<u8>,
    mbr: Seq<u8>,
    parts: Seq<PartitionView>,
    name: Seq<char>,
) -> Seq<u8> {
    let total = total_512((data.len() / 2048) as int);
    let array = gpt_array(parts);
    let disk = named_guid(disk_prefix(), name);
    let own = gpt_header(
        1,
        (total - 1) as u64,
        (total - 34) as u64,
        disk,
        2,
        crc_of(array),
    );
    let backup = gpt_header(
        (total - 1) as u64,
        1,
        (total - 34) as u64,
        disk,
        (total - 33) as u64,
        crc_of(array),
    );
    overwritten(data, 0, mbr + own + array) + zeros(total * 512 - 33 * 512 - data.len()) + array
        + backup
}

fn write_gpt(data: &mut Vec<u8>, mbr: &Vec<u8>, parts: &Vec<Partition>, name: &str)
    requires
        mbr@.len() == 512,
        old(data)@.len() >= 32768,
        old(data)@.len() % 2048 == 0,
        old(data)@.len() <= 0x3FFF_FFFF_FFFF_FFFF,
        parts@.len() <= 3,
        forall|i: int| 0 <= i < parts@.len() ==> (#[trigger] parts@[i]).guid@.len() == 16,
    ensures
        final(data)@ == with_gpt(old(data)@, mbr@, partition_views(parts@), name@),
{
    reveal(with_gpt);
    let ghost start = data@;
    let len: usize = data.len();
    let total: u64 = gpt_total_512((len / 2048) as u64);
    let array: Vec<u8> = make_gpt_array(parts);
    let array_sum: u32 = crc32(array.as_slice());
    let disk_name: [u8; 5] = [0x64, 0x69, 0x73, 0x6B, 0x2D];
    assert(disk_name@ =~= disk_prefix());
    let disk: Vec<u8> = make_named_guid(&disk_name, name);
    let own: Vec<u8> = make_gpt_header(
        1,
        total - 1,
        total - 34,
        disk.as_slice(),
        2,
        array_sum,
    );
    let backup: Vec<u8> = make_gpt_header(
        total - 1,
        1,
        total - 34,
        disk.as_slice(),
        total - 33,
        array_sum,
    );
    let mut head: Vec<u8> = Vec::new();
    push_all(&mut head, mbr.as_slice());
    push_all(&mut head, own.as_slice());
    push_all(&mut head, array.as_slice());
    assert(head@ =~= mbr@ + own@ + array@);
    overwrite(data, 0, head.as_slice());
    let gap: u64 = total * 512 - 33 * 512 - len as u64;
    assert(gap <= 2048);
    push_zeros(data, gap as usize);
    push_all(data, array.as_slice());
    push_all(data, backup.as_slice());
}

/// The image with its partition table.
pub open spec fn with_tables(root: DirView, ops: IsoFormatOptions, data: Seq<u8>) -> Result<
    Seq<u8>,
    IsoCreationError,
> {
    let end_sector = (data.len() / 2048) as int;
    let total = total_512(end_sector);
    match ops.features.hybrid_boot {
        None => Ok(data),
        Some(h) => match h.partition_scheme {
            PartitionScheme::NoTable => Ok(data),
            PartitionScheme::Mbr => Ok(
                overwritten(
                    data,
                    0,
                    mbr_bytes(
                        boot_code(h.mbr_bootstrap),
                        mbr_entry(h.bootable, 0x17, 0, (end_sector * 4) as u32),
                    ),
                ),
            ),
            PartitionScheme::Gpt => match gpt_parts(root, ops, end_sector) {
                Err(e) => Err(e),
                Ok(parts) => Ok(
                    with_gpt(
                        data,
                        mbr_bytes(
                            zeros(446),
                            mbr_entry(
                                false,
                                0xEE,
                                1,
                                if total - 1 > u32::MAX {
                                    u32::MAX
                                } else {
                                    (total - 1) as u32
                                },
                            ),
                        ),
                        parts,
                        ops.volume_name@,
                    ),
                ),
            },
            PartitionScheme::Hybrid => match gpt_parts(root, ops, end_sector) {
                Err(e) => Err(e),
                Ok(parts) => match hybrid_entries(parts, h.bootable) {
                    Err(e) => Err(e),
                    Ok(entries) => Ok(
                        with_gpt(
                            data,
                            mbr_bytes(boot_code(h.mbr_bootstrap), entries),
                            parts,
                            ops.volume_name@,
                        ),
                    ),
                },
            },
        },
    }
}

/// Adds the partition table that is asked for. A GPT makes the image longer.
pub fn write_partition_tables(data: &mut Vec<u8>, files: &WrittenFiles, ops: &IsoFormatOptions) -> (r:
    Result<(), IsoCreationError>)
    requires
        old(data)@.len() >= 32768,
        old(data)@.len() % 2048 == 0,
        old(data)@.len() <= 0x3FFF_FFFF_FFFF_FFFF,
    ensures
        match with_tables(files@, *ops, old(data)@) {
            Ok(after) => r == Ok::<(), IsoCreationError>(()) && final(data)@ == after,
            Err(e) => r == Err::<(), IsoCreationError>(e),
        },
{
    let end_sector: u64 = (data.len() / 2048) as u64;
    let none: Option<Vec<u8>> = None;
    match &ops.features.hybrid_boot {
        None => Ok(()),
        Some(h) => match h.partition_scheme {
            PartitionScheme::NoTable => Ok(()),
            PartitionScheme::Mbr => {
                let mut entry: Vec<u8> = Vec::new();
                push_mbr_entry(&mut entry, h.bootable, 0x17, 0, (end_sector * 4) as u32);
                assert(entry@ =~= mbr_entry(h.bootable, 0x17, 0, (end_sector * 4) as u32));
                let mbr: Vec<u8> = make_mbr(&h.mbr_bootstrap, entry.as_slice());
                overwrite(data, 0, mbr.as_slice());
                Ok(())
            },
            PartitionScheme::Gpt => match build_gpt_partitions(files, ops, end_sector) {
                Err(e) => Err(e),
                Ok(parts) => {
                    let total: u64 = gpt_total_512(end_sector);
                    let count: u32 = if total - 1 > 0xFFFF_FFFF {
                        0xFFFF_FFFF
                    } else {
                        (total - 1) as u32
                    };
                    let mut entry: Vec<u8> = Vec::new();
                    push_mbr_entry(&mut entry, false, 0xEE, 1, count);
                    assert(entry@ =~= mbr_entry(false, 0xEE, 1, count));
                    let mbr: Vec<u8> = make_mbr(&none, entry.as_slice());
                    write_gpt(data, &mbr, &parts, ops.volume_name.as_str());
                    Ok(())
                },
            },
            PartitionScheme::Hybrid => match build_gpt_partitions(files, ops, end_sector) {
                Err(e) => Err(e),
                Ok(parts) => match make_hybrid_entries(&parts, h.bootable) {
                    Err(e) => Err(e),
                    Ok(entries) => {
                        let mbr: Vec<u8> = make_mbr(&h.mbr_bootstrap, entries.as_slice());
                        write_gpt(data, &mbr, &parts, ops.volume_name.as_str());
                        Ok(())
                    },
                },
            },
        },
    }
}

} // verus!
