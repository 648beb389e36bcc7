//! Boot images of an image: their catalog entries and boot information tables.

use crate::bytes::get_le32;
#[allow(unused_imports)]
use crate::bytes::{from_le32, le32};
use crate::iso::boot::{
    BootCatalog, BootEntryOptions, BootInfoTable, BootOptions, BootSectionEntry, BootSectionOptions,
    Grub2BootInfoTable,
};
#[allow(unused_imports)]
use crate::iso::boot::{
    boot_entry_bytes, catalog_file_name, header_bytes, sections_bytes, terminator, with_section,
    x86_validation, EmulationType, SectionView,
};
#[allow(unused_imports)]
use crate::iso::emit::{padded, zeros};
use crate::iso::emit::pad_align_sector;
use crate::iso::error::IsoCreationError;
use crate::iso::types::{DirectoryRef, PathSeparator};
use crate::iso::written::WrittenFiles;
#[allow(unused_imports)]
use crate::iso::written::{find_parts, lookup_parts, DirView};
use vstd::prelude::*;

verus! {

/// The data with some bytes replaced.
pub open spec fn overwritten(data: Seq<u8>, at: int, bytes: Seq<u8>) -> Seq<u8> {
    data.take(at) + bytes + data.skip(at + bytes.len())
}

/// Replaces bytes of the data.
pub fn overwrite(data: &mut Vec<u8>, at: usize, bytes: &[u8])
    requires
        at + bytes@.len() <= old(data)@.len(),
    ensures
        final(data)@ == overwritten(old(data)@, at as int, bytes@),
{
    let ghost before = data@;
    let mut i: usize = 0;
    assert(overwritten(before, at as int, bytes@.take(0)) =~= before);
    let len: usize = data.len();
    while i < bytes.len()
        invariant
            i <= bytes@.len(),
            at + bytes@.len() <= len,
            len == before.len(),
            data@.len() == before.len(),
            data@ == overwritten(before, at as int, bytes@.take(i as int)),
        decreases bytes.len() - i,
    {
        data[at + i] = bytes[i];
        i += 1;
        assert(data@ =~= overwritten(before, at as int, bytes@.take(i as int)));
    }
    assert(bytes@.take(i as int) =~= bytes@);
}

/// How many 512-byte sectors of a boot image are loaded: what the options say, else one
/// for an emulated medium and all for any other.
pub open spec fn load_size_of(entry: BootEntryOptions, size: usize) -> u16 {
    match entry.load_size {
        Some(n) => n,
        None => if entry.emulation.emulates() {
            1
        } else {
            ((size + 511) / 512) as u16
        },
    }
}

/// How many 512-byte sectors of a boot image are loaded.
pub fn calculate_load_size(entry: &BootEntryOptions, dir_ref: &DirectoryRef) -> (r: u16)
    ensures
        r == load_size_of(*entry, dir_ref.size),
{
    match entry.load_size {
        Some(n) => n,
        None => if entry.emulation.is_emulated() {
            1
        } else {
            let size: u128 = dir_ref.size as u128;
            ((size + 511) / 512) as u16
        },
    }
}

/// The sum of the 32-bit words of the data, least significant byte first, modulo 2^32.
/// Bytes behind the last whole word do not count.
pub open spec fn words_sum(data: Seq<u8>) -> int
    decreases data.len(),
{
    if data.len() < 4 {
        0
    } else {
        let n = data.len() / 4 * 4;
        (words_sum(data.take(n - 4)) + from_le32(data.subrange(n - 4, n as int))) % 0x1_0000_0000
    }
}

/// The bytes of a boot image behind its first 64.
pub open spec fn checked_part(data: Seq<u8>, image: DirectoryRef) -> Seq<u8> {
    data.subrange(image.extent.0 * 2048 + 64, image.extent.0 * 2048 + image.size)
}

/// The sum of the words of a boot image behind its first 64 bytes, modulo 2^32.
pub fn calculate_boot_checksum(data: &Vec<u8>, image: &DirectoryRef) -> (r: u32)
    requires
        image.size >= 64,
        image.extent.0 * 2048 + image.size <= data@.len(),
    ensures
        r == words_sum(checked_part(data@, *image)),
{
    let ghost part = checked_part(data@, *image);
    let len: usize = data.len();
    let start: usize = image.extent.0 * 2048 + 64;
    let count: usize = (image.size - 64) / 4;
    let mut checksum: u32 = 0;
    let mut i: usize = 0;
    while i < count
        invariant
            i <= count,
            count == (image.size - 64) / 4,
            start == image.extent.0 * 2048 + 64,
            image.size >= 64,
            len == data@.len(),
            image.extent.0 * 2048 + image.size <= len,
            part == checked_part(data@, *image),
            checksum == words_sum(part.take(4 * i)),
        decreases count - i,
    {
        let word: u32 = get_le32(data.as_slice(), start + 4 * i);
        proof {
            let next = part.take(4 * (i + 1));
            assert(next.len() / 4 * 4 == 4 * (i + 1));
            assert(next.take(4 * i) =~= part.take(4 * i));
            assert(next.subrange(4 * i, 4 * i + 4) =~= data@.subrange(
                start + 4 * i,
                start + 4 * i + 4,
            ));
        }
        checksum = checksum.wrapping_add(word);
        i += 1;
    }
    proof {
        let n = part.len() as int;
        assert(part.len() == image.size - 64);
        if count > 0 {
            let whole = part.take(4 * count);
            assert(whole.len() / 4 * 4 == 4 * count);
            assert(n / 4 * 4 == 4 * count);
            assert(whole.take(4 * count - 4) =~= part.take(4 * count - 4));
            assert(whole.subrange(4 * count - 4, 4 * count as int) =~= part.subrange(
                4 * count - 4,
                4 * count as int,
            ));
        }
    }
    checksum
}

/// The boot information table of an image.
pub open spec fn info_table(entry: BootEntryOptions, image: DirectoryRef, checksum: u32) -> Seq<
    u8,
> {
    let table = le32(16) + le32(image.extent.0 as u32) + le32(image.size as u32) + le32(checksum);
    if entry.grub2_boot_info {
        table + zeros(40)
    } else {
        table
    }
}

/// The data with a boot information table in a boot image, behind its first 8 bytes.
pub open spec fn with_info_table(
    data: Seq<u8>,
    entry: BootEntryOptions,
    image: DirectoryRef,
) -> Result<Seq<u8>, IsoCreationError> {
    if image.size < 64 {
        Err(IsoCreationError::BootImageTooSmall)
    } else if image.extent.0 * 2048 + image.size > data.len() {
        Err(IsoCreationError::UnexpectedEnd)
    } else {
        let checksum = words_sum(checked_part(data, image)) as u32;
        Ok(overwritten(data, image.extent.0 * 2048 + 8, info_table(entry, image, checksum)))
    }
}

/// Puts a boot information table into a boot image.
pub fn write_boot_info_table(
    data: &mut Vec<u8>,
    entry: &BootEntryOptions,
    image: &DirectoryRef,
) -> (r: Result<(), IsoCreationError>)
    ensures
        match with_info_table(old(data)@, *entry, *image) {
            Ok(after) => r == Ok::<(), IsoCreationError>(()) && final(data)@ == after,
            Err(e) => r == Err::<(), IsoCreationError>(e),
        },
{
    if image.size < 64 {
        return Err(IsoCreationError::BootImageTooSmall);
    }
    let end: u128 = image.extent.0 as u128 * 2048 + image.size as u128;
    if end > data.len() as u128 {
        return Err(IsoCreationError::UnexpectedEnd);
    }
    let checksum: u32 = calculate_boot_checksum(data, image);
    let lba: u32 = image.extent.0 as u32;
    let len: u32 = image.size as u32;
    let table: Vec<u8> = if entry.grub2_boot_info {
        Grub2BootInfoTable::new(lba, len, checksum).to_bytes()
    } else {
        BootInfoTable::new(lba, len, checksum).to_bytes()
    };
    assert(table@ =~= info_table(*entry, *image, checksum));
    overwrite(data, image.extent.0 * 2048 + 8, table.as_slice());
    Ok(())
}

/// A boot catalog under construction.
pub struct CatalogState {
    /// The image.
    pub data: Seq<u8>,
    /// The default entry.
    pub default: Seq<u8>,
    /// The sections.
    pub sections: Seq<SectionView>,
}

/// One more boot image in the catalog: as default entry, or in a section of its own.
pub open spec fn catalog_step(
    root: DirView,
    s: CatalogState,
    section: Option<BootSectionOptions>,
    entry: BootEntryOptions,
) -> Result<CatalogState, IsoCreationError> {
    match find_parts(root, lookup_parts(entry.boot_image_path@)) {
        None => Err(IsoCreationError::BootImageNotFound),
        Some(image) => {
            let bytes = boot_entry_bytes(
                entry.emulation,
                0,
                load_size_of(entry, image.size),
                image.extent.0 as u32,
            );
            let listed = match section {
                None => CatalogState { default: bytes, ..s },
                Some(o) => CatalogState {
                    sections: with_section(
                        s.sections,
                        SectionView {
                            header: header_bytes(0x91, o.platform.spec_to_u8()),
                            entries: seq![bytes],
                        },
                    ),
                    ..s
                },
            };
            if entry.boot_info_table || entry.grub2_boot_info {
                match with_info_table(s.data, entry, image) {
                    Err(e) => Err(e),
                    Ok(data) => Ok(CatalogState { data, ..listed }),
                }
            } else {
                Ok(listed)
            }
        },
    }
}

/// The default entry and the first `n` sections of a catalog.
pub open spec fn catalog_steps(root: DirView, boot: BootOptions, data: Seq<u8>, n: int) -> Result<
    CatalogState,
    IsoCreationError,
>
    decreases n,
{
    if n <= 0 {
        catalog_step(
            root,
            CatalogState {
                data,
                default: boot_entry_bytes(EmulationType::NoEmulation, 0, 0, 0),
                sections: Seq::empty(),
            },
            None,
            boot.default,
        )
    } else {
        match catalog_steps(root, boot, data, n - 1) {
            Err(e) => Err(e),
            Ok(s) => catalog_step(root, s, Some(boot.entries@[n - 1].0), boot.entries@[n - 1].1),
        }
    }
}

proof fn catalog_steps_error(root: DirView, boot: BootOptions, data: Seq<u8>, k: int, n: int)
    requires
        0 <= k <= n,
        catalog_steps(root, boot, data, k) is Err,
    ensures
        catalog_steps(root, boot, data, n) == catalog_steps(root, boot, data, k),
    decreases n,
{
    if k < n {
        catalog_steps_error(root, boot, data, k, n - 1);
    }
}

/// The bytes of a catalog.
pub open spec fn catalog_bytes(s: CatalogState) -> Seq<u8> {
    x86_validation() + s.default + sections_bytes(s.sections) + terminator()
}

/// The image with its boot catalog, and the catalog's sector: in the catalog's file where
/// there is one, else behind all files.
pub open spec fn with_catalog(root: DirView, boot: BootOptions, data: Seq<u8>) -> Result<
    (Seq<u8>, u32),
    IsoCreationError,
> {
    match catalog_steps(root, boot, padded(data), boot.entries@.len() as int) {
        Err(e) => Err(e),
        Ok(s) => if boot.write_boot_catalog {
            match find_parts(root, lookup_parts(catalog_file_name())) {
                None => Err(IsoCreationError::BootCatalogNotFound),
                Some(file) => if file.size < catalog_bytes(s).len() {
                    Err(IsoCreationError::BootCatalogTooSmall)
                } else if file.extent.0 * 2048 + catalog_bytes(s).len() > s.data.len() {
                    Err(IsoCreationError::UnexpectedEnd)
                } else {
                    Ok(
                        (
                            overwritten(s.data, file.extent.0 * 2048, catalog_bytes(s)),
                            file.extent.0 as u32,
                        ),
                    )
                },
            }
        } else {
            Ok((padded(s.data + catalog_bytes(s)), (s.data.len() / 2048) as u32))
        },
    }
}

spec fn state_of(data: Seq<u8>, catalog: BootCatalog) -> CatalogState {
    CatalogState {
        data,
        default: catalog.base.default_entry.bytes(),
        sections: catalog.sections_view(),
    }
}

/// Adds a boot image to the catalog, and puts a boot information table into it where that
/// is asked for.
fn write_boot_section(
    data: &mut Vec<u8>,
    files: &WrittenFiles,
    separator: PathSeparator,
    catalog: &mut BootCatalog,
    section: Option<BootSectionOptions>,
    entry: &BootEntryOptions,
) -> (r: Result<(), IsoCreationError>)
    ensures
        final(catalog).base.validation == old(catalog).base.validation,
        match catalog_step(files@, state_of(old(data)@, *old(catalog)), section, *entry) {
            Ok(s) => r == Ok::<(), IsoCreationError>(()) && state_of(final(data)@, *final(catalog))
                == s,
            Err(e) => r == Err::<(), IsoCreationError>(e),
        },
{
    let image: DirectoryRef = match files.find_file(entry.boot_image_path.as_str(), separator) {
        Some(image) => image,
        None => {
            return Err(IsoCreationError::BootImageNotFound);
        },
    };
    let load_size: u16 = calculate_load_size(entry, &image);
    let boot_entry: BootSectionEntry = BootSectionEntry::new(
        entry.emulation,
        0,
        load_size,
        image.extent.0 as u32,
    );
    match section {
        Some(o) => {
            let mut entries: Vec<BootSectionEntry> = Vec::new();
            entries.push(boot_entry);
            assert(Seq::new(entries@.len(), |i: int| entries@[i].bytes()) =~= seq![
                boot_entry.bytes(),
            ]);
            catalog.add_section(o.platform, entries);
        },
        None => {
            catalog.set_default_entry(boot_entry);
            assert(catalog.sections_view() =~= old(catalog).sections_view());
        },
    }
    if entry.boot_info_table || entry.grub2_boot_info {
        match write_boot_info_table(data, entry, &image) {
            Ok(_) => {},
            Err(e) => {
                return Err(e);
            },
        }
    }
    Ok(())
}

/// Adds the boot catalog to an image, and says in which sector it lies.
pub fn write_boot_catalog(
    data: &mut Vec<u8>,
    files: &WrittenFiles,
    separator: PathSeparator,
    boot: &BootOptions,
) -> (r: Result<u32, IsoCreationError>)
    ensures
        match with_catalog(files@, *boot, old(data)@) {
            Ok((after, sector)) => r == Ok::<u32, IsoCreationError>(sector) && final(data)@
                == after,
            Err(e) => r == Err::<u32, IsoCreationError>(e),
        },
{
    pad_align_sector(data);
    let ghost start = data@;
    let ghost n = boot.entries@.len() as int;
    let mut catalog: BootCatalog = BootCatalog::default();
    assert(catalog.sections_view() =~= Seq::empty());
    proof {
        if catalog_steps(files@, *boot, start, 0) is Err {
            catalog_steps_error(files@, *boot, start, 0, n);
        }
    }
    match write_boot_section(data, files, separator, &mut catalog, None, &boot.default) {
        Ok(_) => {},
        Err(e) => {
            return Err(e);
        },
    }
    let mut i: usize = 0;
    while i < boot.entries.len()
        invariant
            i <= boot.entries@.len(),
            n == boot.entries@.len(),
            start == padded(old(data)@),
            catalog.base.validation.bytes() == x86_validation(),
            catalog_steps(files@, *boot, start, i as int) == Ok::<CatalogState, IsoCreationError>(
                state_of(data@, catalog),
            ),
        decreases boot.entries.len() - i,
    {
        proof {
            if catalog_steps(files@, *boot, start, i + 1) is Err {
                catalog_steps_error(files@, *boot, start, i + 1, n);
            }
        }
        let section: BootSectionOptions = boot.entries[i].0;
        match write_boot_section(
            data,
            files,
            separator,
            &mut catalog,
            Some(section),
            &boot.entries[i].1,
        ) {
            Ok(_) => {},
            Err(e) => {
                return Err(e);
            },
        }
        i += 1;
    }
    let ghost s = state_of(data@, catalog);
    let mut bytes: Vec<u8> = Vec::new();
    catalog.write(&mut bytes);
    assert(bytes@ =~= catalog_bytes(s));
    if boot.write_boot_catalog {
        match files.find_file("boot.catalog", separator) {
            None => Err(IsoCreationError::BootCatalogNotFound),
            Some(file) => {
                if file.size < bytes.len() {
                    return Err(IsoCreationError::BootCatalogTooSmall);
                }
                let end: u128 = file.extent.0 as u128 * 2048 + bytes.len() as u128;
                if end > data.len() as u128 {
                    return Err(IsoCreationError::UnexpectedEnd);
                }
                overwrite(data, file.extent.0 * 2048, bytes.as_slice());
                Ok(file.extent.0 as u32)
            },
        }
    } else {
        let sector: u32 = (data.len() / 2048) as u32;
        crate::bytes::push_all(data, bytes.as_slice());
        pad_align_sector(data);
        Ok(sector)
    }
}

} // verus!
