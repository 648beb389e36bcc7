use std::sync::Arc;

use hadris::iso::boot::{
    BaseBootCatalog, BootCatalog, BootEntryOptions, BootError, BootOptions, BootSectionOptions,
    EmulationType, PlatformId,
};
use hadris::iso::chunk::{Extent, FileChunkIterator};
use hadris::iso::error::{ErrorKind, IdentifierField, IsoCreationError};
use hadris::iso::estimator::{estimate, estimate_tree};
use hadris::iso::image::IsoImageWriter;
use hadris::iso::metadata::RripMetadata;
use hadris::iso::options::{
    BaseIsoLevel, CreationFeatures, HybridBootOptions, IsoFormatOptions, PartitionScheme,
};
use hadris::iso::system_use::{read_fields, SystemUseField};
use hadris::iso::tree::{File as IsoFile, InputEntry, InputFiles, InputMetadata, InputTree};
use hadris::iso::types::{FileFlags, JolietLevel, LogicalSector, PathSeparator};

const TIME: [u8; 7] = [124, 5, 6, 7, 8, 9, 0];

// What is read back from an image.

#[derive(Debug, Clone)]
struct Record {
    name: Vec<u8>,
    extent: u32,
    size: u32,
    flags: u8,
    time: Vec<u8>,
    len: usize,
    system_use: Vec<u8>,
}

impl Record {
    fn is_dir(&self) -> bool {
        self.flags & 2 != 0
    }

    fn is_special(&self) -> bool {
        self.name == [0] || self.name == [1]
    }
}

fn le32(bytes: &[u8], at: usize) -> u32 {
    u32::from_le_bytes(bytes[at..at + 4].try_into().unwrap())
}

fn be32(bytes: &[u8], at: usize) -> u32 {
    u32::from_be_bytes(bytes[at..at + 4].try_into().unwrap())
}

fn le64(bytes: &[u8], at: usize) -> u64 {
    u64::from_le_bytes(bytes[at..at + 8].try_into().unwrap())
}

fn records(image: &[u8], extent: u32, size: u32) -> Vec<Record> {
    let start = extent as usize * 2048;
    let dir = &image[start..start + size as usize];
    let mut out = Vec::new();
    let mut at = 0;
    while at < dir.len() {
        let len = dir[at] as usize;
        if len == 0 {
            at = (at / 2048 + 1) * 2048;
            continue;
        }
        let r = &dir[at..at + len];
        assert_eq!(le32(r, 2), be32(r, 6));
        assert_eq!(le32(r, 10), be32(r, 14));
        let name_len = r[32] as usize;
        let su = 33 + name_len + (1 - name_len % 2);
        let mut system_use = r[su..].to_vec();
        // Follow the continuation area.
        let mut pos = 0;
        while pos + 4 <= system_use.len() && system_use[pos + 2] >= 4 {
            let n = system_use[pos + 2] as usize;
            if &system_use[pos..pos + 2] == b"CE" {
                let block = le32(&system_use, pos + 4) as usize;
                let offset = le32(&system_use, pos + 12) as usize;
                let length = le32(&system_use, pos + 20) as usize;
                assert_eq!(pos + n, system_use.len());
                assert!(block * 2048 + offset >= start + size as usize);
                let area = image[block * 2048 + offset..][..length].to_vec();
                system_use.truncate(pos);
                system_use.extend_from_slice(&area);
                continue;
            }
            pos += n;
        }
        out.push(Record {
            name: r[33..33 + name_len].to_vec(),
            extent: le32(r, 2),
            size: le32(r, 10),
            flags: r[25],
            time: r[18..25].to_vec(),
            len,
            system_use,
        });
        at += len;
    }
    out
}

fn root_of(image: &[u8], descriptor: usize) -> (u32, u32) {
    let at = descriptor * 2048 + 156;
    (le32(image, at + 2), le32(image, at + 10))
}

fn root_records(image: &[u8]) -> Vec<Record> {
    let (extent, size) = root_of(image, 16);
    records(image, extent, size)
}

fn fields(su: &[u8]) -> Vec<(String, Vec<u8>)> {
    let mut out = Vec::new();
    let mut at = 0;
    while at + 4 <= su.len() && su[at + 2] >= 4 {
        let n = su[at + 2] as usize;
        let sig = String::from_utf8(su[at..at + 2].to_vec()).unwrap();
        out.push((sig, su[at + 4..at + n].to_vec()));
        at += n;
    }
    out
}

fn field(r: &Record, sig: &str) -> Option<Vec<u8>> {
    fields(&r.system_use).into_iter().find(|(s, _)| s == sig).map(|(_, payload)| payload)
}

fn rrip_name(r: &Record) -> Option<String> {
    let mut name = Vec::new();
    let mut any = false;
    for (sig, payload) in fields(&r.system_use) {
        if sig == "NM" {
            any = true;
            name.extend_from_slice(&payload[1..]);
        }
    }
    any.then_some(String::from_utf8(name).unwrap())
}

fn display_name(r: &Record) -> String {
    let name = String::from_utf8_lossy(&r.name).to_string();
    match name.rfind(';') {
        Some(pos) => name[..pos].to_string(),
        None => name,
    }
}

fn entry_names(image: &[u8], extent: u32, size: u32) -> Vec<String> {
    records(image, extent, size).iter().filter(|r| !r.is_special()).map(display_name).collect()
}

fn path_table(image: &[u8], descriptor: usize) -> Vec<(Vec<u8>, u32, u16)> {
    let at = descriptor * 2048;
    let size = le32(image, at + 132) as usize;
    let l = le32(image, at + 140) as usize * 2048;
    let m = be32(image, at + 148) as usize * 2048;
    let mut out = Vec::new();
    let mut pos = 0;
    while pos < size {
        let n = image[l + pos] as usize;
        assert_eq!(n, image[m + pos] as usize);
        let extent = le32(image, l + pos + 2);
        assert_eq!(extent, be32(image, m + pos + 2));
        let parent = u16::from_le_bytes([image[l + pos + 6], image[l + pos + 7]]);
        assert_eq!(parent, u16::from_be_bytes([image[m + pos + 6], image[m + pos + 7]]));
        out.push((image[l + pos + 8..l + pos + 8 + n].to_vec(), extent, parent));
        pos += 8 + n + n % 2;
    }
    out
}

// Input.

fn options(name: &str, features: CreationFeatures) -> IsoFormatOptions {
    IsoFormatOptions {
        volume_name: name.to_string(),
        system_id: None,
        volume_set_id: None,
        publisher_id: None,
        preparer_id: None,
        application_id: None,
        sector_size: 2048,
        path_separator: PathSeparator::ForwardSlash,
        features,
        strict_charset: false,
    }
}

fn default_options() -> IsoFormatOptions {
    options("TEST", CreationFeatures::default())
}

fn rrip_options() -> IsoFormatOptions {
    options("RRIP_TEST", CreationFeatures::rock_ridge())
}

fn joliet_options() -> IsoFormatOptions {
    options("JOLIET_TEST", CreationFeatures::joliet(JolietLevel::Level3))
}

fn full_options(name: &str, features: CreationFeatures) -> IsoFormatOptions {
    IsoFormatOptions {
        volume_name: name.to_string(),
        system_id: Some("SYSTEM".to_string()),
        volume_set_id: Some("VOL_SET_ID".to_string()),
        publisher_id: Some("PUBLISHER_ID".to_string()),
        preparer_id: Some("PREPARER_ID".to_string()),
        application_id: Some("APP_ID".to_string()),
        sector_size: 2048,
        path_separator: PathSeparator::ForwardSlash,
        features,
        strict_charset: false,
    }
}

fn file(name: &str, contents: &[u8]) -> IsoFile {
    IsoFile::File { name: Arc::new(name.to_string()), contents: contents.to_vec() }
}

fn directory(name: &str, children: Vec<IsoFile>) -> IsoFile {
    IsoFile::Directory { name: Arc::new(name.to_string()), children }
}

fn tree(files: Vec<IsoFile>) -> InputTree {
    InputTree::from(InputFiles { path_separator: PathSeparator::ForwardSlash, files })
}

fn write_bytes(files: Vec<IsoFile>, options: IsoFormatOptions) -> Vec<u8> {
    IsoImageWriter::create(tree(files), &options).expect("Failed to write ISO")
}

fn write_at(files: InputTree, options: &IsoFormatOptions) -> Result<Vec<u8>, IsoCreationError> {
    IsoImageWriter::create_at(files, options, None, &TIME)
}

fn nested_dir(depth: usize) -> IsoFile {
    let mut current = file("deep.txt", b"deep content");
    for i in (0..depth).rev() {
        current = directory(&format!("dir{i}"), vec![current]);
    }
    current
}

fn text(image: &[u8], at: usize, n: usize) -> String {
    String::from_utf8(image[at..at + n].to_vec()).unwrap().trim_end().to_string()
}

#[test]
fn should_create_empty_iso_no_boot() {
    let image = write_bytes(vec![], full_options("EMPTY", CreationFeatures::default()));
    let pvd = 16 * 2048;
    assert_eq!(text(&image, pvd + 40, 32), "EMPTY");
    assert_eq!(text(&image, pvd + 8, 32), "SYSTEM");
    assert_eq!(text(&image, pvd + 190, 128), "VOL_SET_ID");
    assert_eq!(text(&image, pvd + 318, 128), "PUBLISHER_ID");
    assert_eq!(text(&image, pvd + 446, 128), "PREPARER_ID");
    assert_eq!(text(&image, pvd + 574, 128), "APP_ID");
    assert_eq!(image[pvd + 156 + 25] & 2, 2);
    assert_eq!(root_of(&image, 16), (18, 2048));
    assert_eq!(image[pvd + 156 + 32], 1);
    assert_eq!(image[pvd + 156], 34);
    assert_eq!(image[pvd + 156 + 28..pvd + 156 + 32], [1, 0, 0, 1]);
    assert_eq!(image[pvd + 156 + 26], 0);
    assert_eq!(image[pvd + 156 + 1], 0);
    assert_eq!(image[pvd + 128..pvd + 132], [0, 8, 8, 0]);
    assert_eq!(le32(&image, pvd + 140), 19);
    assert_eq!(be32(&image, pvd + 148), 20);
    assert_eq!(le32(&image, pvd + 132), 10);
    assert_eq!(le32(&image, pvd + 80), 21);
    assert_eq!(image[17 * 2048], 255);
    assert_eq!(&image[17 * 2048 + 1..17 * 2048 + 6], b"CD001");
    let entries = root_records(&image);
    assert_eq!(entries.len(), 2);
    assert_eq!(entries[0].name, [0]);
    assert_eq!(entries[1].name, [1]);
    assert_eq!((entries[0].extent, entries[0].size), (18, 2048));
    assert_eq!((entries[1].extent, entries[1].size), (18, 2048));
    assert!(entries[0].system_use.is_empty());
    assert_eq!(image.len() % 2048, 0, "Image size must be multiple of 2048");
    assert_eq!(image.len() / 2048, 21);
}

#[test]
fn should_create_iso_with_file() {
    let image = write_bytes(
        vec![file("TESTFILE", &[0; 999])],
        full_options("EMPTY", CreationFeatures::default()),
    );
    let entries = root_records(&image);
    assert_eq!(entries.len(), 3);
    let f = &entries[2];
    assert!(!f.is_dir());
    assert_eq!(f.name, b"TESTFILE;1");
    assert_eq!(f.len, 44); // 33 + 1 + 10 = 44
    assert_eq!(f.size, 999);
    assert!(f.system_use.is_empty());
}

fn hybrid(
    scheme: PartitionScheme,
    mbr_bootstrap: Option<Vec<u8>>,
    bootable: bool,
    efi: Option<&str>,
) -> CreationFeatures {
    CreationFeatures {
        hybrid_boot: Some(HybridBootOptions {
            partition_scheme: scheme,
            mbr_bootstrap,
            bootable,
            efi_boot_partition: efi.map(|s| s.to_string()),
        }),
        ..Default::default()
    }
}

#[test]
fn should_create_iso_with_mbr_boot() {
    let image = write_bytes(
        vec![file("boot.bin", &[0x55; 2048])],
        full_options("MBR_TEST", hybrid(PartitionScheme::Mbr, Some(vec![0; 446]), true, None)),
    );
    assert_eq!(image[510..512], [0x55, 0xAA], "MBR signature should be 0x55AA");
    let partition = &image[446..462];
    assert_eq!(partition[0], 0x80, "Partition should be bootable");
    assert_eq!(partition[4], 0x17, "Partition type should be 0x17");
    assert_eq!(le32(partition, 8), 0);
    assert_eq!(le32(partition, 12), (image.len() / 512) as u32);
    assert_eq!(le32(&image, 16 * 2048 + 80), (image.len() / 2048) as u32);
}

#[test]
fn should_create_iso_with_gpt_boot() {
    let image = write_bytes(
        vec![file("efi.img", &[0xAA; 2048])],
        full_options("GPT_TEST", hybrid(PartitionScheme::Gpt, None, false, Some("efi.img"))),
    );
    assert_eq!(image[510..512], [0x55, 0xAA], "MBR signature should be 0x55AA");
    let header = &image[512..604];
    assert_eq!(&header[0..8], b"EFI PART", "GPT header signature should be 'EFI PART'");
    assert_eq!(header[8..12], [0x00, 0x00, 0x01, 0x00], "GPT revision should be 1.0");
    assert_eq!(image[446 + 4], 0xEE);
}

fn reference_crc(bytes: &[u8]) -> u32 {
    let mut table = [0u32; 256];
    for (i, slot) in table.iter_mut().enumerate() {
        let mut c = i as u32;
        for _ in 0..8 {
            c = if c & 1 == 1 { (c >> 1) ^ 0xEDB88320 } else { c >> 1 };
        }
        *slot = c;
    }
    !bytes.iter().fold(!0u32, |c, b| table[((c ^ *b as u32) & 0xFF) as usize] ^ (c >> 8))
}

#[test]
fn should_create_iso_with_hybrid_mbr_gpt_boot() {
    let image = write_bytes(
        vec![file("boot.bin", &[0x55; 2048]), file("efi.img", &[0xAA; 2048])],
        full_options(
            "HYBRID_TEST",
            hybrid(PartitionScheme::Hybrid, Some(vec![0; 446]), true, Some("efi.img")),
        ),
    );
    assert_eq!(image[510..512], [0x55, 0xAA], "MBR signature should be 0x55AA");
    let mut found_iso = false;
    let mut found_bootable = false;
    let mut found_esp = false;
    for slot in 0..4 {
        let partition = &image[446 + slot * 16..462 + slot * 16];
        if partition[4] == 0xEE {
            continue;
        }
        if partition[4] == 0x17 {
            found_iso = true;
            if partition[0] == 0x80 {
                found_bootable = true;
            }
        }
        if partition[4] == 0xEF {
            found_esp = true;
        }
    }
    assert!(found_iso, "ISO9660 partition not found in MBR");
    assert!(found_bootable, "ISO9660 partition should be bootable");
    assert!(found_esp, "EFI System Partition not found in MBR");
    let header = &image[512..604];
    assert_eq!(&header[0..8], b"EFI PART", "GPT header signature should be 'EFI PART'");
    assert_eq!(header[8..12], [0x00, 0x00, 0x01, 0x00], "GPT revision should be 1.0");
    let basic_data_guid = [
        0xA2, 0xA0, 0xD0, 0xEB, 0xE5, 0xB9, 0x33, 0x44, 0x87, 0xC0, 0x68, 0xB6, 0xB7, 0x26, 0x99,
        0xC7,
    ];
    let esp_guid = [
        0x28, 0x73, 0x2A, 0xC1, 0x1F, 0xF8, 0xD2, 0x11, 0xBA, 0x4B, 0x00, 0xA0, 0xC9, 0x3E, 0xC9,
        0x3B,
    ];
    let mut found_gpt_iso = false;
    let mut found_gpt_esp = false;
    for i in 0..4 {
        let entry = &image[1024 + i * 128..1152 + i * 128];
        if entry[0..16] == [0u8; 16] {
            continue;
        }
        if entry[0..16] == basic_data_guid {
            found_gpt_iso = true;
        }
        if entry[0..16] == esp_guid {
            found_gpt_esp = true;
        }
    }
    assert!(found_gpt_iso, "ISO9660 partition not found in GPT");
    assert!(found_gpt_esp, "EFI System Partition not found in GPT");

    // The layout: data from sector 64 on, the EFI image exactly, data behind it.
    let efi = root_records(&image).into_iter().find(|r| r.name == b"EFI.IMG;1").unwrap();
    let iso_512 = {
        // Path tables are the last data of the image.
        let end = be32(&image, 16 * 2048 + 148) as u64 + 1;
        end * 4
    };
    let total = (image.len() / 512) as u64;
    assert_eq!(total, (iso_512 + 33).div_ceil(4) * 4);
    assert_eq!(le32(&image, 16 * 2048 + 80) as u64, total / 4);
    let entry = |i: usize| &image[1024 + i * 128..1152 + i * 128];
    let range = |i: usize| (le64(entry(i), 32), le64(entry(i), 40));
    let start = efi.extent as u64 * 4;
    assert_eq!(range(0), (64, start - 1));
    assert_eq!(range(1), (start, start + 3));
    assert_eq!(range(2), (start + 4, iso_512 - 1));
    assert_eq!(&entry(0)[56..58], &[b'I', 0]);
    assert_eq!(&entry(1)[56..60], &[b'E', 0, b'F', 0]);
    // Headers, backup and checksums.
    assert_eq!(le64(header, 24), 1);
    assert_eq!(le64(header, 32), total - 1);
    assert_eq!(le64(header, 40), 34);
    assert_eq!(le64(header, 48), total - 34);
    let backup = &image[image.len() - 512..][..92];
    assert_eq!(le64(backup, 24), total - 1);
    assert_eq!(le64(backup, 32), 1);
    assert_eq!(le64(backup, 72), total - 33);
    for h in [header, backup] {
        let mut blank = h.to_vec();
        blank[16..20].fill(0);
        assert_eq!(reference_crc(&blank), le32(h, 16));
        let at = le64(h, 72) as usize * 512;
        assert_eq!(reference_crc(&image[at..at + 16384]), le32(h, 88));
    }
    // The guard covers what lies before the first mirrored partition.
    assert_eq!((le32(&image, 446 + 8), le32(&image, 446 + 12)), (1, 63));
    assert_eq!((le32(&image, 462 + 8), le32(&image, 462 + 12) as u64), (64, start - 64));
    assert_eq!((le32(&image, 478 + 8) as u64, le32(&image, 478 + 12)), (start, 4));
}

#[test]
fn a_single_uefi_section_becomes_the_system_partition() {
    let boot = |platforms: &[PlatformId]| BootOptions {
        write_boot_catalog: false,
        default: BootEntryOptions { boot_image_path: "bios.img".to_string(), ..Default::default() },
        entries: platforms
            .iter()
            .map(|p| {
                (
                    BootSectionOptions { platform: *p },
                    BootEntryOptions { boot_image_path: "efi.img".to_string(), ..Default::default() },
                )
            })
            .collect(),
    };
    let files = || vec![file("bios.img", &[1; 100]), file("efi.img", &[2; 700])];
    let features = |platforms: &[PlatformId]| CreationFeatures {
        el_torito: Some(boot(platforms)),
        ..hybrid(PartitionScheme::Gpt, None, false, None)
    };
    let esp_count = |image: &[u8]| (0..4).filter(|i| image[1024 + i * 128] == 0x28).count();
    let one = write_bytes(files(), options("U", features(&[PlatformId::UEFI, PlatformId::PowerPC])));
    assert_eq!(esp_count(&one), 1);
    let two = write_bytes(files(), options("U", features(&[PlatformId::UEFI, PlatformId::UEFI])));
    assert_eq!(esp_count(&two), 0);
    let missing = options("U", hybrid(PartitionScheme::Gpt, None, false, Some("none.img")));
    assert_eq!(
        write_at(tree(files()), &missing),
        Err(IsoCreationError::EfiImageNotFound)
    );
    let empty = options("U", hybrid(PartitionScheme::Gpt, None, false, Some("e")));
    assert_eq!(
        write_at(tree(vec![file("e", b"")]), &empty),
        Err(IsoCreationError::EfiImageOutside)
    );
}

#[test]
fn boot_catalog_and_info_table_are_written() {
    let contents: Vec<u8> = (0..1000u32).map(|i| (i * 7) as u8).collect();
    for in_file in [false, true] {
        let boot = BootOptions {
            write_boot_catalog: in_file,
            default: BootEntryOptions {
                boot_image_path: "boot/bios.img".to_string(),
                boot_info_table: true,
                ..Default::default()
            },
            entries: vec![(
                BootSectionOptions { platform: PlatformId::UEFI },
                BootEntryOptions {
                    boot_image_path: "efi.img".to_string(),
                    grub2_boot_info: true,
                    load_size: Some(9),
                    emulation: EmulationType::HardDisk,
                    ..Default::default()
                },
            )],
        };
        let files = vec![
            file("efi.img", &contents),
            directory("boot", vec![file("bios.img", &contents)]),
        ];
        let features = CreationFeatures { el_torito: Some(boot), ..Default::default() };
        let image = write_bytes(files, options("BOOT", features));
        assert_eq!(image[17 * 2048], 0);
        assert_eq!(&image[17 * 2048 + 7..17 * 2048 + 30], b"EL TORITO SPECIFICATION");
        assert_eq!(image[18 * 2048], 255);
        let catalog = le32(&image, 17 * 2048 + 71) as usize;
        let root = root_records(&image);
        let efi = root.iter().find(|r| r.name == b"EFI.IMG;1").unwrap();
        let boot_dir = root.iter().find(|r| r.name == b"BOOT").unwrap();
        let bios = records(&image, boot_dir.extent, boot_dir.size)[2].clone();
        if in_file {
            let listed = root.iter().find(|r| r.name == b"BOOT.CAT;1").unwrap();
            assert_eq!(listed.extent as usize, catalog);
            assert_eq!(listed.size, 2048);
        } else {
            assert_eq!(catalog, image.len() / 2048 - 1);
        }
        let parsed = BootCatalog::parse(&image[catalog * 2048..]).unwrap();
        assert_eq!(parsed.base.validation.checksum, 0x55AA);
        assert_eq!(parsed.base.default_entry.load_rba, bios.extent);
        assert_eq!(parsed.base.default_entry.sector_count, 2);
        assert_eq!(parsed.sections.len(), 1);
        assert_eq!(parsed.sections[0].header.platform_id, 0xEF);
        assert_eq!(parsed.sections[0].entries[0].load_rba, efi.extent);
        assert_eq!(parsed.sections[0].entries[0].sector_count, 9);
        assert_eq!(parsed.sections[0].entries[0].boot_media_type, 4);
        let checksum = contents[64..]
            .chunks_exact(4)
            .fold(0u32, |sum, w| sum.wrapping_add(u32::from_le_bytes(w.try_into().unwrap())));
        for (r, grub) in [(&bios, false), (efi, true)] {
            let at = r.extent as usize * 2048;
            assert_eq!(&image[at..at + 8], &contents[..8]);
            let table: Vec<u32> = (0..4).map(|i| le32(&image, at + 8 + 4 * i)).collect();
            assert_eq!(table, [16, r.extent, 1000, checksum]);
            if grub {
                assert!(image[at + 24..at + 64].iter().all(|b| *b == 0));
            } else {
                assert_eq!(&image[at + 24..at + 64], &contents[24..64]);
            }
            assert_eq!(&image[at + 64..at + 1000], &contents[64..]);
        }
    }
}

#[test]
fn boot_errors() {
    let features = |path: &str, table: bool, in_file: bool| CreationFeatures {
        el_torito: Some(BootOptions {
            write_boot_catalog: in_file,
            default: BootEntryOptions {
                boot_image_path: path.to_string(),
                boot_info_table: table,
                ..Default::default()
            },
            entries: vec![],
        }),
        ..Default::default()
    };
    let small = || tree(vec![file("small.img", &[1; 63])]);
    assert_eq!(
        write_at(small(), &options("B", features("none", false, false))),
        Err(IsoCreationError::BootImageNotFound)
    );
    assert_eq!(
        write_at(small(), &options("B", features("small.img", true, false))),
        Err(IsoCreationError::BootImageTooSmall)
    );
    assert!(write_at(small(), &options("B", features("small.img", false, true))).is_ok());
    // A file of the same name that comes first is too small for the catalog.
    let clash = tree(vec![
        file("boot.catalog", &[1; 4]),
        file("small.img", &[1; 63]),
        directory("d", vec![]),
    ]);
    assert_eq!(
        write_at(clash, &options("B", features("small.img", false, true))),
        Err(IsoCreationError::BootCatalogTooSmall)
    );
}

#[test]
fn test_path_table_contains_all_subdirectories() {
    let files = vec![
        directory(
            "a",
            vec![directory("b", vec![directory("c", vec![file("deep.txt", b"deep")])])],
        ),
        directory("x", vec![directory("y", vec![file("leaf.txt", b"leaf")])]),
    ];
    let image = write_bytes(files, default_options());
    let entries = path_table(&image, 16);
    assert_eq!(
        entries.len(),
        6,
        "Expected 6 path table entries (root + 5 dirs), got {}",
        entries.len()
    );
    assert_eq!(entries[0].2, 1, "Root parent should be 1");
    for entry in &entries[1..] {
        assert!(
            entry.2 >= 1 && entry.2 <= entries.len() as u16,
            "Invalid parent index: {}",
            entry.2
        );
    }
    let names: Vec<&[u8]> = entries.iter().map(|e| e.0.as_slice()).collect();
    assert_eq!(names, [&[0u8][..], b"A", b"X", b"B", b"Y", b"C"]);
    let parents: Vec<u16> = entries.iter().map(|e| e.2).collect();
    assert_eq!(parents, [1, 1, 1, 2, 3, 4]);
    for e in &entries {
        let own = records(&image, e.1, 2048);
        assert_eq!(own[0].extent, e.1);
        assert_eq!(own[1].extent, entries[e.2 as usize - 1].1);
    }
}

#[test]
fn path_table_sorts_adversarial_directory_input() {
    let pair = |name: &str, child: &str| directory(name, vec![directory(child, Vec::new())]);
    let files = vec![pair("z", "zchild"), pair("a", "achild"), pair("m", "mchild")];
    let image = write_bytes(files, default_options());
    let names: Vec<_> = path_table(&image, 16)
        .iter()
        .skip(1)
        .map(|entry| String::from_utf8_lossy(&entry.0).into_owned())
        .collect();
    assert_eq!(names, ["A", "M", "Z", "ACHILD", "MCHILD", "ZCHILD"]);
    assert!(names.iter().all(|name| !name.contains(';')));
}

#[test]
fn raw_directory_records_respect_sector_and_identifier_rules() {
    let mut files: Vec<_> = (0..100)
        .map(|index| IsoFile::File {
            name: Arc::new(format!("FILE{index:03}.TXT")),
            contents: vec![index as u8],
        })
        .collect();
    files.push(IsoFile::Directory {
        name: Arc::new("PLAIN_DIR".to_string()),
        children: Vec::new(),
    });
    let bytes = write_bytes(files, default_options());

    let pvd = 16 * 2048;
    let root_record = pvd + 156;
    let root_extent =
        u32::from_le_bytes(bytes[root_record + 2..root_record + 6].try_into().unwrap()) as usize;
    let root_size =
        u32::from_le_bytes(bytes[root_record + 10..root_record + 14].try_into().unwrap()) as usize;
    let root = &bytes[root_extent * 2048..root_extent * 2048 + root_size];

    let mut position = 0;
    while position < root.len() {
        let remaining_in_sector = 2048 - position % 2048;
        let record_length = root[position] as usize;
        if record_length == 0 {
            assert!(
                root[position..position + remaining_in_sector].iter().all(|byte| *byte == 0),
                "unused directory-sector bytes must be zero"
            );
            position += remaining_in_sector;
            continue;
        }

        assert!(
            record_length <= remaining_in_sector,
            "directory record crosses a logical-sector boundary"
        );
        let record = &root[position..position + record_length];
        let identifier_length = record[32] as usize;
        let identifier = &record[33..33 + identifier_length];
        let is_directory = record[25] & 0x02 != 0;
        let is_special = identifier == [0] || identifier == [1];
        if is_directory && !is_special {
            assert!(
                !identifier.contains(&b';'),
                "directory identifiers must not have file version suffixes"
            );
        }
        position += record_length;
    }
    // The directory in the last sector knows where it and its parent lie.
    let dir = root_records(&bytes).into_iter().find(|r| r.name == b"PLAIN_DI").unwrap();
    let own = records(&bytes, dir.extent, dir.size);
    assert_eq!(own[0].extent, dir.extent);
    assert_eq!((own[1].extent as usize, own[1].size as usize), (root_extent, root_size));
}

#[test]
fn test_name_deduplication_produces_unique_names() {
    let files = vec![
        file("readme.txt", b"a"),
        file("README.txt", b"b"),
        file("ReadMe.txt", b"c"),
    ];
    let image = write_bytes(files, default_options());
    let (extent, size) = root_of(&image, 16);
    let names = entry_names(&image, extent, size);
    assert_eq!(names.len(), 3, "Should have 3 entries, got: {names:?}");
    let mut unique = names.clone();
    unique.sort();
    unique.dedup();
    assert_eq!(unique.len(), 3, "All names should be distinct: {names:?}");
}

#[test]
fn test_directory_records_written_in_collation_order() {
    let files = vec![
        file("zebra.txt", b"z"),
        directory("mango", vec![file("inner.txt", b"i")]),
        file("alpha.txt", b"a"),
        file("apple.txt", b"p"),
    ];
    let image = write_bytes(files, default_options());
    let (extent, size) = root_of(&image, 16);
    let names = entry_names(&image, extent, size);
    let mut expected = names.clone();
    expected.sort();
    assert_eq!(
        names, expected,
        "directory records must be in ascending identifier order, got {names:?}"
    );
    assert_eq!(
        names,
        vec![
            "ALPHA.TXT".to_string(),
            "APPLE.TXT".to_string(),
            "MANGO".to_string(),
            "ZEBRA.TXT".to_string(),
        ],
    );
}

#[test]
fn test_dedup_with_no_extension() {
    let image = write_bytes(vec![file("README", b"a"), file("readme", b"b")], default_options());
    let (extent, size) = root_of(&image, 16);
    let names = entry_names(&image, extent, size);
    assert_eq!(names.len(), 2, "Should have 2 entries, got: {names:?}");
    let mut unique = names.clone();
    unique.sort();
    unique.dedup();
    assert_eq!(unique.len(), 2, "Names should be unique: {names:?}");
}

#[test]
fn test_depth_8_succeeds() {
    // 7 nested dirs + root = 8 levels (the maximum)
    let result = IsoImageWriter::create(tree(vec![nested_dir(7)]), &default_options());
    assert!(result.is_ok(), "Depth 8 should succeed: {:?}", result.err());
}

#[test]
fn test_depth_9_fails() {
    // 8 nested dirs + root = 9 levels (exceeds the limit)
    let result = IsoImageWriter::create(tree(vec![nested_dir(8)]), &default_options());
    assert!(result.is_err(), "Depth 9 should fail");
    assert_eq!(result.err(), Some(IsoCreationError::DirectoryLimits));
}

#[test]
fn deep_directories_are_relocated() {
    let image = write_bytes(vec![nested_dir(9)], rrip_options());
    let root = root_records(&image);
    let holder = root.iter().find(|r| r.name == b"RR_MOVED").unwrap();
    let inside = records(&image, holder.extent, holder.size);
    let moved = inside.iter().find(|r| r.name == b"RRD00000").unwrap();
    assert_eq!(rrip_name(moved).as_deref(), Some("dir7"));
    assert!(field(moved, "RE").is_some());
    // Walk down to the directory that the relocated one belongs to.
    let mut at = root.iter().find(|r| r.name == b"DIR0").unwrap().clone();
    for i in 1..7 {
        let name = format!("DIR{i}");
        at = records(&image, at.extent, at.size)
            .into_iter()
            .find(|r| r.name == name.as_bytes())
            .unwrap();
    }
    let place = records(&image, at.extent, at.size).into_iter().find(|r| r.name == b"DIR7").unwrap();
    assert_eq!(le32(&field(&place, "CL").unwrap(), 0), moved.extent);
    let own = records(&image, moved.extent, moved.size);
    assert_eq!(own[0].extent, moved.extent);
    assert_eq!(le32(&field(&own[1], "PL").unwrap(), 0), at.extent);
    // The file below is still there.
    let below = own.iter().find(|r| r.name == b"DIR8").unwrap();
    let last = records(&image, below.extent, below.size);
    let f = &last[2];
    let start = f.extent as usize * 2048;
    assert_eq!(&image[start..start + f.size as usize], b"deep content");
    // Placeholders are not in the path table.
    assert_eq!(path_table(&image, 16).len(), 11);
}

#[test]
fn test_size_estimate_is_conservative() {
    let configs: Vec<(&str, Vec<IsoFile>, IsoFormatOptions)> = vec![
        ("simple", vec![file("test.txt", b"hello")], default_options()),
        (
            "nested",
            vec![directory("sub", vec![file("inner.txt", &[0u8; 4096])])],
            default_options(),
        ),
        ("rrip", vec![file("rrip_file.txt", b"rrip content")], rrip_options()),
        ("joliet", vec![file("joliet_file.txt", b"joliet content")], joliet_options()),
    ];
    for (label, files, options) in configs {
        let input = InputFiles { path_separator: PathSeparator::ForwardSlash, files };
        let estimate = estimate(&input, &options);
        let image = IsoImageWriter::create(InputTree::from(input), &options)
            .expect("Failed to write ISO");
        let actual_pos = image.len() as u64;
        assert!(
            estimate.minimum_bytes() >= actual_pos,
            "[{}] Estimate {} should be >= actual position {}",
            label,
            estimate.minimum_bytes(),
            actual_pos
        );
    }
}

#[test]
fn test_rrip_tf_timestamps_present() {
    let image = write_bytes(vec![file("timestamped.txt", b"hello")], rrip_options());
    let found_tf = root_records(&image)
        .iter()
        .any(|r| !r.is_special() && field(r, "TF").is_some());
    assert!(found_tf, "TF timestamp entry should be present in RRIP file entries");
}

#[test]
fn test_roundtrip_multi_level_directories() {
    let files = vec![
        file("file1.txt", b"root file"),
        directory(
            "dir_a",
            vec![
                file("file2.txt", b"level 2 file"),
                directory("dir_b", vec![file("file3.txt", b"level 3 file")]),
            ],
        ),
    ];
    let image = write_bytes(files, default_options());
    let (extent, size) = root_of(&image, 16);
    let root_names = entry_names(&image, extent, size);
    assert!(
        root_names.iter().any(|n| n.contains("FILE1")),
        "Root should contain FILE1.TXT: {root_names:?}"
    );
    assert!(
        root_names.iter().any(|n| n.contains("DIR_A")),
        "Root should contain DIR_A: {root_names:?}"
    );
    let dir_a = root_records(&image)
        .into_iter()
        .find(|r| display_name(r).contains("DIR_A") && r.is_dir())
        .expect("Should find DIR_A");
    let dir_a_names = entry_names(&image, dir_a.extent, dir_a.size);
    assert!(
        dir_a_names.iter().any(|n| n.contains("FILE2")),
        "DIR_A should contain FILE2.TXT: {dir_a_names:?}"
    );
    assert!(
        dir_a_names.iter().any(|n| n.contains("DIR_B")),
        "DIR_A should contain DIR_B: {dir_a_names:?}"
    );
    let dir_b = records(&image, dir_a.extent, dir_a.size)
        .into_iter()
        .find(|r| display_name(r).contains("DIR_B") && r.is_dir())
        .expect("Should find DIR_B");
    let dir_b_names = entry_names(&image, dir_b.extent, dir_b.size);
    assert!(
        dir_b_names.iter().any(|n| n.contains("FILE3")),
        "DIR_B should contain FILE3.TXT: {dir_b_names:?}"
    );
    let file3 = &records(&image, dir_b.extent, dir_b.size)[2];
    let start = file3.extent as usize * 2048;
    assert_eq!(&image[start..start + file3.size as usize], b"level 3 file");
    // Directories come before files, parents before children.
    assert!(extent < dir_a.extent && dir_a.extent < dir_b.extent && dir_b.extent < file3.extent);
}

#[test]
fn test_empty_directory_roundtrip() {
    let image = write_bytes(vec![directory("empty", vec![])], default_options());
    let empty = root_records(&image)
        .into_iter()
        .find(|r| display_name(r).contains("EMPTY") && r.is_dir())
        .expect("Should find EMPTY directory");
    let names = entry_names(&image, empty.extent, empty.size);
    assert!(
        names.is_empty(),
        "Empty directory should have no non-special entries: {names:?}"
    );
}

#[test]
fn test_zero_size_file_roundtrip() {
    let image = write_bytes(vec![file("empty.txt", b"")], default_options());
    let empty_file = root_records(&image)
        .into_iter()
        .find(|r| display_name(r).contains("EMPTY") && !r.is_dir())
        .expect("Should find EMPTY.TXT");
    assert_eq!(empty_file.size, 0, "Zero-size file should have size 0");
    assert_eq!(empty_file.extent, 0, "Zero-size file should have extent 0");
}

#[test]
fn test_joliet_subdirectory_roundtrip() {
    let image = write_bytes(
        vec![directory("subdir", vec![file("inner.txt", b"joliet inner")])],
        joliet_options(),
    );
    let (extent, size) = root_of(&image, 17);
    let raw = records(&image, extent, size);
    assert_eq!(raw[0].name, [0x00]);
    assert_eq!(raw[1].name, [0x01]);
    let entries: Vec<_> = raw.iter().filter(|e| !e.is_special()).collect();
    assert!(!entries.is_empty(), "Root should have entries");
    let subdir_entry = entries.iter().find(|e| e.is_dir());
    assert!(subdir_entry.is_some(), "Should find a subdirectory entry");
    let subdir = subdir_entry.unwrap();
    let inner = records(&image, subdir.extent, subdir.size);
    assert!(
        inner.iter().any(|e| !e.is_special()),
        "Subdirectory should contain the inner file"
    );
    let want: Vec<u8> = "inner.txt".encode_utf16().flat_map(|u| u.to_be_bytes()).collect();
    assert_eq!(inner[2].name, want);
}

#[test]
fn test_rrip_typed_fields_roundtrip() {
    let files = vec![
        directory("subdir", vec![file("inner.txt", b"rrip typed test")]),
        file("readme.txt", b"hello rrip"),
    ];
    let image = write_bytes(files, rrip_options());
    let mut found_px = false;
    let mut found_nm = false;
    let mut found_tf = false;
    for entry in root_records(&image) {
        for (sig, payload) in fields(&entry.system_use) {
            if sig == "PX" {
                found_px = true;
                let mode = le32(&payload, 0);
                assert!(mode != 0, "PX mode should be non-zero");
                if entry.is_dir() {
                    assert_eq!(mode & 0o170000, 0o040000, "Directory should have dir mode");
                } else {
                    assert_eq!(mode & 0o170000, 0o100000, "File should have regular mode");
                }
            } else if sig == "NM" {
                found_nm = true;
                if payload[0] == 0 {
                    assert!(payload.len() > 1, "NM name should be non-empty for normal entries");
                }
            } else if sig == "TF" {
                found_tf = true;
                assert!(payload.len() > 1, "TF timestamps should be non-empty");
            }
        }
    }
    assert!(found_px, "Should find typed PosixAttributes entries");
    assert!(found_nm, "Should find typed AlternateName entries");
    assert!(found_tf, "Should find typed Timestamps entries");
}

#[test]
fn test_overlong_volume_name_returns_error_instead_of_panicking() {
    let mut options = default_options();
    options.volume_name = "A".repeat(40);
    let error =
        IsoImageWriter::create(tree(vec![file("hello.txt", b"hello")]), &options).unwrap_err();
    assert_eq!(error.kind(), ErrorKind::InvalidInput);
    assert!(error.message().contains("volume name"));
}

#[test]
fn identifiers_are_checked_and_brought_into_their_sets() {
    type Setter = fn(&mut IsoFormatOptions, String);
    let fields: [(Setter, usize, usize, IdentifierField); 6] = [
        (|o, s| o.volume_name = s, 32, 40, IdentifierField::VolumeName),
        (|o, s| o.system_id = Some(s), 32, 8, IdentifierField::System),
        (|o, s| o.volume_set_id = Some(s), 128, 190, IdentifierField::VolumeSet),
        (|o, s| o.publisher_id = Some(s), 128, 318, IdentifierField::Publisher),
        (|o, s| o.preparer_id = Some(s), 128, 446, IdentifierField::Preparer),
        (|o, s| o.application_id = Some(s), 128, 574, IdentifierField::Application),
    ];
    for (set, n, at, field) in fields {
        let mut o = default_options();
        set(&mut o, "x".repeat(n));
        let image = write_at(tree(vec![]), &o).unwrap();
        assert_eq!(image[16 * 2048 + at..][..n], vec![b'x'; n][..]);
        set(&mut o, "x".repeat(n + 1));
        assert_eq!(write_at(tree(vec![]), &o), Err(IsoCreationError::Identifier(field)));
    }
    let mut o = default_options();
    o.strict_charset = true;
    o.volume_name = "my disc-1".to_string();
    o.publisher_id = Some("me & you (ä)".to_string());
    let image = write_at(tree(vec![]), &o).unwrap();
    assert_eq!(text(&image, 16 * 2048 + 40, 32), "MY_DISC_1");
    assert_eq!(text(&image, 16 * 2048 + 318, 128), "ME & YOU (__)");
    o.sector_size = 512;
    assert_eq!(write_at(tree(vec![]), &o), Err(IsoCreationError::SectorSize));
}

fn create_iso(files: Vec<IsoFile>, features: CreationFeatures) -> Vec<u8> {
    write_bytes(files, options("TEST", features))
}

#[test]
fn test_rrip_detection_with_rock_ridge() {
    let image = create_iso(vec![file("hello.txt", b"Hello, World!")], CreationFeatures::rock_ridge());
    let dot = &root_records(&image)[0];
    assert_eq!(field(dot, "SP").as_deref(), Some(&[0xBE, 0xEF, 0][..]));
    let er = field(dot, "ER").expect("RRIP should be detected for Rock Ridge ISO");
    assert_eq!(&er[4..14], b"RRIP_1991A");
}

#[test]
fn no_alloc_reader_resolves_rrip_names() {
    let original = "My Long Rock Ridge Name.txt";
    let image = create_iso(vec![file(original, b"payload")], CreationFeatures::rock_ridge());
    let entry = root_records(&image).into_iter().find(|r| !r.is_dir()).unwrap();
    assert_eq!(rrip_name(&entry).as_deref(), Some(original));
}

#[test]
fn test_rrip_detection_without_rock_ridge() {
    let image = create_iso(vec![file("hello.txt", b"Hello, World!")], CreationFeatures::default());
    assert!(root_records(&image).iter().all(|r| r.system_use.is_empty()));
}

#[test]
fn test_rrip_nm_names() {
    let files = vec![
        file("readme.txt", b"readme content"),
        file("LongFileName_WithMixedCase.dat", b"data"),
    ];
    let image = create_iso(files, CreationFeatures::rock_ridge());
    let names: Vec<String> = root_records(&image)
        .iter()
        .filter(|e| !e.is_special())
        .filter_map(rrip_name)
        .collect();
    assert!(
        names.contains(&"readme.txt".to_string()),
        "Should find 'readme.txt' via RRIP NM, got: {names:?}"
    );
    assert!(
        names.contains(&"LongFileName_WithMixedCase.dat".to_string()),
        "Should find mixed-case filename via RRIP NM, got: {names:?}"
    );
}

#[test]
fn test_rrip_tf_timestamps() {
    let image = create_iso(vec![file("test.txt", b"test")], CreationFeatures::rock_ridge());
    let entries: Vec<_> =
        root_records(&image).into_iter().filter(|e| !e.is_special()).collect();
    assert!(!entries.is_empty(), "Should have at least one file entry");
    let tf = field(&entries[0], "TF").unwrap();
    assert_eq!(tf[0], 0x06);
    let year = 1900 + tf[1] as u32;
    assert!(year >= 2024, "Modify year should be recent: {year}");
    assert!(tf[2] >= 1 && tf[2] <= 12);
}

#[test]
fn test_rrip_px_attributes() {
    let files = vec![file("file.txt", b"content"), directory("subdir", vec![])];
    let image = create_iso(files, CreationFeatures::rock_ridge());
    for entry in root_records(&image).iter().filter(|e| !e.is_special()) {
        let mode = le32(&field(entry, "PX").unwrap(), 0);
        if entry.is_dir() {
            assert!(
                mode & 0o170000 == 0o040000,
                "Directory should have S_IFDIR mode, got {mode:#o}"
            );
        } else {
            assert!(
                mode & 0o170000 == 0o100000,
                "File should have S_IFREG mode, got {mode:#o}"
            );
        }
    }
}

#[test]
fn test_rrip_directory_iteration() {
    let files = vec![
        file("alpha.txt", b"alpha"),
        file("beta.txt", b"beta"),
        directory("gamma_dir", vec![]),
    ];
    let image = create_iso(files, CreationFeatures::rock_ridge());
    let entries: Vec<_> =
        root_records(&image).into_iter().filter(|e| !e.is_special()).collect();
    assert_eq!(entries.len(), 3, "Should have 3 non-special entries, got {}", entries.len());
    let dir_count = entries.iter().filter(|e| e.is_dir()).count();
    let file_count = entries.iter().filter(|e| !e.is_dir()).count();
    assert_eq!(dir_count, 1, "Should have 1 directory");
    assert_eq!(file_count, 2, "Should have 2 files");
}

#[test]
fn test_rrip_subdirectory_navigation() {
    let files = vec![directory("mydir", vec![file("inner.txt", b"inner content")])];
    let image = create_iso(files, CreationFeatures::rock_ridge());
    let subdir = root_records(&image)
        .into_iter()
        .find(|e| !e.is_special() && e.is_dir())
        .expect("Should find a subdirectory");
    let sub_entries: Vec<_> = records(&image, subdir.extent, subdir.size)
        .into_iter()
        .filter(|e| !e.is_special())
        .collect();
    assert_eq!(
        sub_entries.len(),
        1,
        "Subdirectory should have 1 file, got {}",
        sub_entries.len()
    );
    let inner_name = rrip_name(&sub_entries[0]).unwrap();
    assert_eq!(
        inner_name, "inner.txt",
        "Inner file should be 'inner.txt', got '{inner_name}'"
    );
}

#[test]
fn test_rrip_detection_with_joliet_and_rock_ridge() {
    let image =
        create_iso(vec![file("hello.txt", b"Hello, World!")], CreationFeatures::extensions());
    assert!(field(&root_records(&image)[0], "ER").is_some());
    assert_eq!(image[16 * 2048], 1);
    assert_eq!(image[17 * 2048], 2);
    assert_eq!(&image[17 * 2048 + 88..17 * 2048 + 91], b"%/E");
    assert_eq!(image[18 * 2048], 255);
    let (extent, size) = root_of(&image, 17);
    assert!(records(&image, extent, size).iter().all(|r| r.system_use.is_empty()));
}

#[test]
fn test_pvd_root_directory_has_directory_flag() {
    let iso_data = create_iso(vec![file("test.txt", b"test")], CreationFeatures::default());
    let pvd_root_flags = iso_data[32768 + 156 + 25];
    assert_eq!(
        pvd_root_flags,
        FileFlags::directory().bits(),
        "PVD root directory record must have DIRECTORY flag set"
    );
}

#[test]
fn test_pvd_root_directory_record_fields() {
    let iso_data = create_iso(vec![file("test.txt", b"test")], CreationFeatures::default());
    let base = 32768 + 156;
    let record_len = iso_data[base];
    let file_id_len = iso_data[base + 32];
    let vol_seq_le = u16::from_le_bytes([iso_data[base + 28], iso_data[base + 29]]);
    assert_eq!(record_len, 34, "Root directory record length should be 34");
    assert_eq!(file_id_len, 1, "Root directory file_identifier_len should be 1");
    assert_eq!(vol_seq_le, 1, "Root directory volume_sequence_number should be 1");
}

#[test]
fn test_joliet_svd_volume_name_utf16be() {
    let iso_data = write_bytes(
        vec![file("test.txt", b"test")],
        options("MYISO", CreationFeatures::joliet(JolietLevel::Level3)),
    );
    let svd_offset = 17 * 2048;
    assert_eq!(iso_data[svd_offset], 0x02, "Sector 17 should be SVD");
    let vol_id = &iso_data[svd_offset + 40..svd_offset + 40 + 32];
    assert_eq!(vol_id[0..2], [0x00, b'M'], "First char should be UTF-16BE 'M'");
    assert_eq!(vol_id[2..4], [0x00, b'Y'], "Second char should be UTF-16BE 'Y'");
    assert_eq!(vol_id[4..6], [0x00, b'I'], "Third char should be UTF-16BE 'I'");
    assert_eq!(vol_id[6..8], [0x00, b'S'], "Fourth char should be UTF-16BE 'S'");
    assert_eq!(vol_id[8..10], [0x00, b'O'], "Fifth char should be UTF-16BE 'O'");
    assert_eq!(vol_id[10..12], [0x00, 0x20], "Padding should be UTF-16BE space");
}

#[test]
fn test_joliet_svd_strings_are_utf16be() {
    let mut o = options("TEST", CreationFeatures::joliet(JolietLevel::Level3));
    o.publisher_id = Some("MY PUBLISHER".to_string());
    o.preparer_id = Some("MY PREPARER".to_string());
    let iso_data = write_bytes(vec![file("test.txt", b"test")], o);
    let svd_offset = 17 * 2048;
    assert_eq!(iso_data[svd_offset], 0x02, "Sector 17 should be SVD");
    let app_id = &iso_data[svd_offset + 574..svd_offset + 574 + 128];
    assert_eq!(app_id[0..2], [0x00, b'H'], "App id first char should be UTF-16BE 'H'");
    assert_eq!(app_id[2..4], [0x00, b'A'], "App id second char should be UTF-16BE 'A'");
    let pub_id = &iso_data[svd_offset + 318..svd_offset + 318 + 128];
    assert_eq!(pub_id[0..2], [0x00, b'M'], "Publisher first char");
    assert_eq!(pub_id[2..4], [0x00, b'Y'], "Publisher second char");
    assert_eq!(pub_id[4..6], [0x00, b' '], "Publisher third char (space)");
    assert_eq!(pub_id[6..8], [0x00, b'P'], "Publisher fourth char");
    let prep_id = &iso_data[svd_offset + 446..svd_offset + 446 + 128];
    assert_eq!(prep_id[0..2], [0x00, b'M'], "Preparer first char");
    assert_eq!(prep_id[2..4], [0x00, b'Y'], "Preparer second char");
    let sys_id = &iso_data[svd_offset + 8..svd_offset + 8 + 32];
    assert_eq!(sys_id[0..2], [0x00, 0x20], "Empty system id should be UTF-16BE space");
    assert_eq!(sys_id[2..4], [0x00, 0x20], "Empty system id second pair should be UTF-16BE space");
}

#[test]
fn test_pvd_strings_with_spaces() {
    let mut o = options("TEST", CreationFeatures::default());
    o.publisher_id = Some("EXAMPLE PUBLISHER".to_string());
    o.preparer_id = Some("EXAMPLE PREPARER".to_string());
    let image = write_bytes(vec![file("test.txt", b"test")], o);
    assert_eq!(text(&image, 16 * 2048 + 318, 128), "EXAMPLE PUBLISHER");
    assert_eq!(text(&image, 16 * 2048 + 446, 128), "EXAMPLE PREPARER");
}

#[test]
fn images_are_deterministic() {
    let files = || tree(vec![directory("d", vec![file("a.txt", b"1")]), file("b.txt", b"2")]);
    let a = write_at(files(), &rrip_options()).unwrap();
    let b = write_at(files(), &rrip_options()).unwrap();
    assert_eq!(a, b);
    assert_eq!(root_records(&a)[2].time, TIME);
}

#[test]
fn the_floor_keeps_low_sectors_free() {
    let files = || tree(vec![file("a.txt", b"1")]);
    let image =
        IsoImageWriter::create_at(files(), &default_options(), Some(300), &TIME).unwrap();
    assert_eq!(root_of(&image, 16), (300, 2048));
    assert!(image[18 * 2048..300 * 2048].iter().all(|b| *b == 0));
    let low = IsoImageWriter::create_at(files(), &default_options(), Some(3), &TIME).unwrap();
    assert_eq!(low, write_at(files(), &default_options()).unwrap());
    let now = IsoImageWriter::create_with_allocation_floor(files(), &default_options(), Some(40));
    assert_eq!(root_of(&now.unwrap(), 16), (40, 2048));
}

#[test]
fn long_names_use_continuation_areas() {
    let long = "n".repeat(300);
    let entry = InputEntry::symlink(&long, &"t/".repeat(200));
    let input = InputTree::new(
        PathSeparator::ForwardSlash,
        vec![entry, InputEntry::file("z", b"zz".to_vec())],
    );
    let image = write_at(input, &rrip_options()).unwrap();
    let root = root_records(&image);
    let link = root.iter().find(|r| !r.is_special() && r.size == 0).unwrap();
    assert_eq!(rrip_name(link), Some(long));
    assert!(field(link, "SL").is_some());
    let z = root.iter().find(|r| r.name == b"Z;1").unwrap();
    assert_eq!(&image[z.extent as usize * 2048..][..2], b"zz");
    // A record that would need 256 bytes has no length byte.
    let name = "m".repeat(144);
    let input = InputTree::new(
        PathSeparator::ForwardSlash,
        vec![InputEntry::file(&name, b"x".to_vec())],
    );
    assert_eq!(write_at(input, &rrip_options()), Err(IsoCreationError::RecordTooLong));
}

#[test]
fn the_enhanced_namespace_has_long_names() {
    let features = CreationFeatures {
        filenames: BaseIsoLevel::Level2 { supports_lowercase: false, supports_rrip: false },
        long_filenames: true,
        ..Default::default()
    };
    let name = "a-rather-long-file-name-that-goes-on.text";
    let image = write_bytes(vec![file(name, b"x")], options("LONG", features));
    assert_eq!((image[17 * 2048], image[17 * 2048 + 6]), (2, 2));
    assert!(image[17 * 2048 + 88..17 * 2048 + 120].iter().all(|b| *b == 0x20));
    let (extent, size) = root_of(&image, 17);
    assert_eq!(
        records(&image, extent, size)[2].name,
        b"a_rather_long_file_name_that_goes_on.text"
    );
    assert_eq!(root_records(&image)[2].name, b"A_RATHER_LONG_FILE_NAME_THAT_G;1");
}

#[test]
fn should_read_multi_extent_file_in_chunks() {
    const CHUNK_SIZE: usize = 3000;
    const EXTENT_SIZE: usize = 4096;
    const SIZE: usize = EXTENT_SIZE * 2;
    let image = write_bytes(
        vec![file("TESTFILE", &[0xAA; SIZE])],
        full_options("EMPTY", CreationFeatures::default()),
    );
    let original = root_records(&image)[2].extent as usize;
    let extents = || {
        vec![
            Extent { sector: LogicalSector(original), length: EXTENT_SIZE as u32 },
            Extent { sector: LogicalSector(original + 2), length: EXTENT_SIZE as u32 },
        ]
    };
    let mut zero_sized = FileChunkIterator::<0>::new(&image, extents(), SIZE as u64);
    assert_eq!(zero_sized.next_chunk().unwrap_err().kind(), ErrorKind::InvalidInput);
    let mut iter = FileChunkIterator::<CHUNK_SIZE>::new(&image, extents(), SIZE as u64);
    let mut total_read = 0;
    let mut chunk_count = 0;
    while let Some(chunk) = iter.next_chunk().unwrap() {
        chunk_count += 1;
        total_read += chunk.len();
        assert!(chunk.iter().all(|&b| b == 0xAA));
    }
    assert_eq!(total_read, SIZE);
    let expected_chunks = SIZE.div_ceil(CHUNK_SIZE);
    assert_eq!(chunk_count, expected_chunks);
    assert_eq!(iter.position(), SIZE as u64);
    assert_eq!(iter.total_size(), SIZE as u64);
    let mut short = FileChunkIterator::<5000>::new(&image, extents(), SIZE as u64 + 1);
    assert!(short.next_chunk().is_ok());
    assert_eq!(short.next_chunk().unwrap_err().kind(), ErrorKind::InvalidData);
    let far = vec![Extent { sector: LogicalSector(image.len() / 2048), length: 1 }];
    let mut outside = FileChunkIterator::<5>::new(&image, far, 1);
    assert_eq!(outside.next_chunk().unwrap_err().kind(), ErrorKind::UnexpectedEof);
}

#[test]
fn links_devices_and_metadata_are_read_back() {
    let metadata = InputMetadata {
        mode: Some(0o640),
        uid: Some(5),
        gid: Some(6),
        created: Some(0),
        modified: Some(86400),
        accessed: None,
    };
    let input = InputTree {
        path_separator: PathSeparator::ForwardSlash,
        entries: vec![
            InputEntry::symlink("link", "../lib/./x"),
            InputEntry::character_device("tty", 4, 64),
            InputEntry::block_device("sda", 8, 1),
            InputEntry::file("data", b"abc".to_vec()).with_metadata(metadata),
        ],
    };
    let image = write_at(input, &rrip_options()).unwrap();
    let root = root_records(&image);
    let read = |name: &str| {
        let record = root.iter().find(|r| rrip_name(r).as_deref() == Some(name)).unwrap();
        let fields = read_fields(&record.system_use, 0);
        let meta = RripMetadata::from_fields(&fields);
        (fields, meta)
    };
    let (_, link) = read("link");
    assert_eq!(link.symlink_target.as_deref(), Some("../lib/./x"));
    assert_eq!(link.posix_attributes.unwrap().file_mode, 0o120777);
    for (name, mode, major, minor) in [("tty", 0o020600, 4, 64), ("sda", 0o060600, 8, 1)] {
        let (fields, meta) = read(name);
        assert_eq!(meta.posix_attributes.unwrap().file_mode, mode);
        assert!(fields.iter().any(|f| matches!(
            f,
            SystemUseField::DeviceNumber(pn) if pn.high == major && pn.low == minor
        )));
    }
    let (_, data) = read("data");
    assert_eq!(data.alternate_name.as_deref(), Some("data"));
    let px = data.posix_attributes.unwrap();
    assert_eq!((px.file_mode, px.file_uid, px.file_gid), (0o100640, 5, 6));
    let times = data.timestamps.unwrap();
    let created = times.creation.unwrap();
    assert_eq!((created.year, created.month, created.day), (1970, 1, 1));
    let modified = times.modify.unwrap();
    assert_eq!((modified.year, modified.month, modified.day), (1970, 1, 2));
    assert_eq!(times.access.unwrap().year, 2024);
}

#[test]
fn estimates_cover_relocation_and_boot_images() {
    let boot = BootOptions {
        write_boot_catalog: true,
        default: BootEntryOptions {
            boot_image_path: "boot.img".to_string(),
            ..Default::default()
        },
        entries: Vec::new(),
    };
    let features = CreationFeatures { el_torito: Some(boot), ..CreationFeatures::rock_ridge() };
    for (files, options) in [
        (vec![nested_dir(12)], rrip_options()),
        (
            vec![file("boot.img", &[1u8; 3000]), directory("d", vec![file("x", b"y")])],
            options("BOOT", features),
        ),
    ] {
        let input = tree(files);
        let estimate = estimate_tree(&input, &options);
        let image = write_at(input, &options).unwrap();
        assert!(estimate.minimum_bytes() >= image.len() as u64);
    }
}

#[test]
fn boot_images_leave_other_files_alone() {
    let contents: Vec<u8> = (0..5000u32).map(|i| (i * 11) as u8).collect();
    let boot = BootOptions {
        write_boot_catalog: true,
        default: BootEntryOptions {
            boot_image_path: "boot.img".to_string(),
            boot_info_table: true,
            ..Default::default()
        },
        entries: Vec::new(),
    };
    let features = CreationFeatures { el_torito: Some(boot), ..Default::default() };
    let files = vec![
        file("a.txt", &contents),
        file("boot.img", &[7u8; 100]),
        file("z.txt", &contents),
    ];
    let image = write_bytes(files, options("BOOT", features));
    for name in [b"A.TXT;1", b"Z.TXT;1"] {
        let record = root_records(&image).into_iter().find(|r| r.name == name).unwrap();
        let extents = vec![Extent {
            sector: LogicalSector(record.extent as usize),
            length: record.size,
        }];
        let mut chunks = FileChunkIterator::<512>::new(&image, extents, record.size as u64);
        let mut read = Vec::new();
        while let Some(chunk) = chunks.next_chunk().unwrap() {
            read.extend_from_slice(&chunk);
        }
        assert_eq!(read, contents);
    }
}

fn is_covered(input: InputTree, options: &IsoFormatOptions) {
    let estimate = estimate_tree(&input, options);
    let image = write_at(input, options).unwrap();
    assert!(estimate.minimum_bytes() >= image.len() as u64);
}

#[test]
fn estimates_cover_long_names_in_every_namespace() {
    let long: Vec<IsoFile> =
        (0..100).map(|i| file(&format!("{i:03}{}", "n".repeat(57)), b"x")).collect();
    is_covered(tree(long), &joliet_options());
    let wide: Vec<IsoFile> =
        (0..200).map(|i| file(&format!("{i:03}{}", "w".repeat(100)), b"")).collect();
    let features = CreationFeatures { long_filenames: true, ..CreationFeatures::rock_ridge() };
    is_covered(tree(wide), &options("WIDE", features));
    let dirs: Vec<IsoFile> =
        (0..90).map(|i| directory(&format!("{i:02}{}", "d".repeat(60)), vec![])).collect();
    is_covered(tree(dirs), &joliet_options());
}

#[test]
fn estimates_cover_names_that_are_told_apart() {
    let same: Vec<IsoFile> =
        (0..150).map(|i| file(&format!("samename{i:04}.text"), b"1")).collect();
    is_covered(tree(same), &default_options());
    let same: Vec<IsoFile> =
        (0..150).map(|i| file(&format!("{}{i:04}.text", "s".repeat(70)), b"1")).collect();
    is_covered(tree(same), &joliet_options());
}

#[test]
fn estimates_cover_links_and_metadata() {
    let target = vec!["component"; 30].join("/");
    let entries: Vec<InputEntry> = (0..60)
        .map(|i| InputEntry::symlink(&format!("link{i}"), &target))
        .chain((0..20).map(|i| InputEntry::block_device(&format!("dev{i}"), 8, i)))
        .collect();
    let input = InputTree { path_separator: PathSeparator::ForwardSlash, entries };
    is_covered(input, &rrip_options());
}

#[test]
fn estimates_cover_many_boot_sections() {
    let entries = (0..70)
        .map(|_| {
            (
                BootSectionOptions { platform: PlatformId::UEFI },
                BootEntryOptions {
                    boot_image_path: "boot.img".to_string(),
                    ..Default::default()
                },
            )
        })
        .collect();
    let boot = BootOptions {
        write_boot_catalog: true,
        default: BootEntryOptions {
            boot_image_path: "boot.img".to_string(),
            ..Default::default()
        },
        entries,
    };
    let features = CreationFeatures { el_torito: Some(boot), ..Default::default() };
    is_covered(tree(vec![file("boot.img", &[1u8; 3000])]), &options("BOOT", features));
}

#[test]
fn relocation_beside_an_own_rr_moved_stays_within_eight_levels() {
    let files = vec![directory("RR_MOVED", vec![file("own.txt", b"own")]), nested_dir(20)];
    let input = tree(files);
    let options = rrip_options();
    let estimate = estimate_tree(&input, &options);
    let image = write_at(input, &options).unwrap();
    assert!(estimate.minimum_bytes() >= image.len() as u64);
    let table = path_table(&image, 16);
    for mut at in 0..table.len() {
        let mut depth = 1;
        while at != 0 {
            at = table[at].2 as usize - 1;
            depth += 1;
        }
        assert!(depth <= 8);
    }
}

#[test]
fn boot_catalogs_are_checked_from_the_front() {
    let mut catalog = BootCatalog::new(EmulationType::NoEmulation, 0, 4, 20);
    assert_eq!(catalog.size(), 96);
    catalog.add_section(PlatformId::UEFI, vec![catalog.base.default_entry]);
    assert_eq!(catalog.size(), 160);
    let mut good = Vec::new();
    catalog.write(&mut good);
    assert_eq!(good.len(), 160);
    assert_eq!(BootCatalog::parse(&good).unwrap().sections.len(), 1);
    let err = |data: &[u8]| {
        let base = BaseBootCatalog::parse(data).err();
        let all = BootCatalog::parse(data).err();
        assert!(base.is_none() || base == all);
        all
    };
    assert_eq!(err(&good[..31]), Some(BootError::Io));
    assert_eq!(err(&good[..63]), Some(BootError::Io));
    // What is wrong with the first entry is told, whether or not the second is there.
    for len in [32, 40, 63, 64, 160] {
        let mut bad = good[..len].to_vec();
        bad[0] = 2;
        assert_eq!(err(&bad), Some(BootError::InvalidValidationHeader));
        bad[0] = 1;
        bad[30] = 0;
        assert_eq!(err(&bad), Some(BootError::InvalidValidationKey));
        bad[30] = 0x55;
        bad[4] ^= 1;
        assert_eq!(err(&bad), Some(BootError::InvalidValidationChecksum));
    }
    // So is a second entry that does not boot, whatever follows it.
    let mut bad = good.clone();
    bad[32] = 0;
    bad[64] = 0x77;
    assert_eq!(err(&bad), Some(BootError::InvalidDefaultEntry));
    bad[32] = 0x88;
    assert_eq!(err(&bad), Some(BootError::ExpectedSectionHeader(0x77)));
}

#[test]
fn estimates_are_what_images_take_as_a_rule() {
    // 80 records of 44 bytes and the first two take 3588 bytes.
    let files: Vec<IsoFile> = (0..80).map(|i| file(&format!("f{i:03}.txt"), b"x")).collect();
    let input = InputFiles { path_separator: PathSeparator::ForwardSlash, files };
    let options = default_options();
    let e = estimate(&input, &options);
    assert_eq!(e.breakdown.system_area, 16 * 2048);
    assert_eq!(e.breakdown.volume_descriptors, 2 * 2048);
    assert_eq!(e.breakdown.path_tables, 2 * 2048);
    assert_eq!(e.breakdown.directory_records, 2 * 2048);
    assert_eq!(e.breakdown.continuation_areas, 0);
    assert_eq!(e.breakdown.file_data, 80 * 2048);
    assert_eq!(e.breakdown.boot_catalog, 0);
    assert_eq!(e.breakdown.backup_gpt, 0);
    assert_eq!(e.minimum_sectors, 102);
    let same = InputTree::from(input);
    assert_eq!(estimate_tree(&same, &options), e);
    assert_eq!(write_at(same, &options).unwrap().len(), 102 * 2048);

    // 45 records fill a sector to its last byte.
    let files: Vec<IsoFile> = (0..45).map(|i| file(&format!("f{i:03}.txt"), b"x")).collect();
    let e = estimate_tree(&tree(files), &options);
    assert_eq!(e.breakdown.directory_records, 2048);
    assert_eq!(e.minimum_sectors, 16 + 2 + 2 + 1 + 45);

    let rrip = estimate_tree(&tree_of_one("rrip_file.txt"), &rrip_options());
    assert_eq!(rrip.breakdown.path_tables, 4 * 2048);
    assert_eq!(rrip.breakdown.directory_records, 2 * 2048);
    assert_eq!(rrip.breakdown.continuation_areas, 2048);
    assert_eq!(rrip.minimum_sectors, 26);

    let mut hybrid = default_options();
    hybrid.features.hybrid_boot = Some(HybridBootOptions::gpt());
    let e = estimate_tree(&tree_of_one("a.txt"), &hybrid);
    assert_eq!(e.breakdown.backup_gpt, 36 * 512);
    assert_eq!(e.minimum_sectors, 16 + 2 + 2 + 1 + 1 + 9);
}

#[test]
fn estimates_grow_where_the_rule_falls_short() {
    // By the rule every namespace has the two sectors of the first, but with Joliet's longer
    // names the records of the second take three.
    let files: Vec<IsoFile> = (0..80).map(|i| file(&format!("f{i:03}.txt"), b"x")).collect();
    let input = tree(files);
    let options = joliet_options();
    let e = estimate_tree(&input, &options);
    assert!(e.breakdown.directory_records >= 5 * 2048);
    let image = write_at(input, &options).unwrap();
    assert_eq!(image.len(), 108 * 2048);
    assert!(e.minimum_bytes() >= 108 * 2048);
}

fn tree_of_one(name: &str) -> InputTree {
    tree(vec![file(name, b"content")])
}

#[test]
fn gaps_of_an_image_are_empty() {
    let mut gpt = default_options();
    gpt.features.hybrid_boot = Some(HybridBootOptions::gpt());
    let mut mbr = default_options();
    mbr.features.hybrid_boot = Some(HybridBootOptions::mbr());
    for (options, end) in [(default_options(), 0), (mbr, 512), (gpt, 17408)] {
        for (floor, start) in [(None, 18), (Some(3), 18), (Some(40), 40)] {
            let gaps = IsoImageWriter::gaps(&options, floor);
            assert_eq!(gaps, vec![(end, 32768), (18 * 2048, start * 2048)]);
            let image = IsoImageWriter::create_with_allocation_floor(
                tree_of_one("a.txt"),
                &options,
                floor,
            )
            .unwrap();
            for (from, to) in gaps {
                assert!(image[from as usize..to as usize].iter().all(|&b| b == 0));
            }
            assert_ne!(image[start as usize * 2048], 0);
        }
    }
}
