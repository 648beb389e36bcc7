use hadris::exfat::bitmap::AllocationBitmap;
use hadris::exfat::device::{Device, MemoryDevice};
use hadris::exfat::dir::ExFatDir;
use hadris::exfat::entry::{
    parse_entry_set, ExFatFileEntry, FILE_DIRECTORY, FILE_NAME, STREAM_EXTENSION,
};
use hadris::exfat::entry_writer::EntrySetBuilder;
use hadris::exfat::error::ExFatError;
use hadris::exfat::file_reader::SeekFrom;
use hadris::exfat::info::boot_checksum;
use hadris::exfat::time::ExFatTimestamp;
use hadris::exfat::upcase::{
    compute_upcase_checksum, generate_compressed_upcase_table, UpcaseTable,
};
use hadris::exfat::volume::ExFatVolume;

const SECTOR: usize = 512;
const CLUSTER: usize = 4096;
const FAT_SECTOR: usize = 24;
const HEAP_SECTOR: usize = 128;

fn put(image: &mut [u8], at: usize, data: &[u8]) {
    image[at..at + data.len()].copy_from_slice(data);
}

fn cluster_at(cluster: u32) -> usize {
    HEAP_SECTOR * SECTOR + (cluster as usize - 2) * CLUSTER
}

/// A fresh volume: bitmap in cluster 2, up-case table in cluster 3, root in cluster 4.
fn make_image(cluster_count: u32) -> Vec<u8> {
    let mut image = vec![0u8; HEAP_SECTOR * SECTOR + cluster_count as usize * CLUSTER];
    put(&mut image, 0, &[0xEB, 0x76, 0x90]);
    put(&mut image, 3, b"EXFAT   ");
    put(&mut image, 80, &(FAT_SECTOR as u32).to_le_bytes());
    put(&mut image, 84, &64u32.to_le_bytes());
    put(&mut image, 88, &(HEAP_SECTOR as u32).to_le_bytes());
    put(&mut image, 92, &cluster_count.to_le_bytes());
    put(&mut image, 96, &4u32.to_le_bytes());
    put(&mut image, 100, &0x12345678u32.to_le_bytes());
    image[108] = 9;
    image[109] = 3;
    image[110] = 1;
    put(&mut image, 510, &[0x55, 0xAA]);
    let sum = boot_checksum(&image[..11 * SECTOR]);
    put(&mut image, 11 * SECTOR, &sum.to_le_bytes());
    let fat = FAT_SECTOR * SECTOR;
    put(&mut image, fat, &0xFFFFFFF8u32.to_le_bytes());
    for entry in 1..5usize {
        put(&mut image, fat + 4 * entry, &0xFFFFFFFFu32.to_le_bytes());
    }
    image[cluster_at(2)] = 0b111;
    let (table, checksum) = generate_compressed_upcase_table();
    put(&mut image, cluster_at(3), &table);
    let root = cluster_at(4);
    image[root] = 0x81;
    put(&mut image, root + 20, &2u32.to_le_bytes());
    put(&mut image, root + 24, &((cluster_count as u64 + 7) / 8).to_le_bytes());
    image[root + 32] = 0x82;
    put(&mut image, root + 36, &checksum.to_le_bytes());
    put(&mut image, root + 52, &3u32.to_le_bytes());
    put(&mut image, root + 56, &(table.len() as u64).to_le_bytes());
    image
}

fn open(image: Vec<u8>) -> ExFatVolume<MemoryDevice> {
    ExFatVolume::open(MemoryDevice::new(image)).expect("open")
}

fn write_root_file(image: Vec<u8>, name: &str, contents: &[u8]) -> Vec<u8> {
    let mut fs = open(image);
    let root = fs.root_dir();
    let entry = fs.create_file(root, name).expect("create_file");
    let mut writer = fs.write_file(&entry).expect("write_file");
    writer.write_all(&mut fs, contents).expect("write_all");
    writer.finish(&mut fs).expect("finish");
    fs.device.into_inner()
}

fn read_root_file(image: &[u8], name: &str) -> Vec<u8> {
    let fs = open(image.to_vec());
    let mut reader = fs.open_file(name).expect("open_file");
    let mut out = Vec::new();
    let mut buf = [0u8; 4096];
    loop {
        let n = reader.read(&mut buf).expect("read");
        if n == 0 {
            break;
        }
        out.extend_from_slice(&buf[..n]);
    }
    out
}

fn find(fs: &ExFatVolume<MemoryDevice>, name: &str) -> ExFatFileEntry {
    fs.find(fs.root_dir(), name).expect("find").expect("present")
}

#[test]
fn roundtrip_small_file() {
    let payload = b"hello, exFAT roundtrip\n";
    let image = write_root_file(make_image(512), "hello.txt", payload);
    assert_eq!(read_root_file(&image, "hello.txt"), payload);
}

#[test]
fn roundtrip_zero_byte_file() {
    let image = write_root_file(make_image(512), "empty.bin", b"");
    assert!(read_root_file(&image, "empty.bin").is_empty());
}

#[test]
fn roundtrip_multi_cluster_file() {
    let payload: Vec<u8> = (0..(1024 * 1024)).map(|i| (i * 31 + 7) as u8).collect();
    let image = write_root_file(make_image(512), "blob.bin", &payload);
    let got = read_root_file(&image, "blob.bin");
    assert_eq!(got.len(), payload.len());
    assert_eq!(got, payload);
}

#[test]
fn roundtrip_unicode_name() {
    let name = "café-日本語-🦀.txt";
    let payload = "exFAT supports Unicode filenames up to 255 chars.".as_bytes();
    let image = write_root_file(make_image(512), name, payload);
    assert_eq!(read_root_file(&image, name), payload);
    let fs = open(image);
    assert_eq!(find(&fs, name).name, name);
}

#[test]
fn roundtrip_delete_and_recreate() {
    let image = make_image(512);
    let free_before = open(image.clone()).free_cluster_count();
    let image = write_root_file(image, "victim.bin", &vec![0xAB; 64 * 1024]);
    let mut fs = open(image);
    assert_eq!(fs.free_cluster_count(), free_before - 16);
    let entry = find(&fs, "victim.bin");
    fs.delete(&entry).expect("delete");
    assert_eq!(fs.free_cluster_count(), free_before);
    assert!(fs.find(fs.root_dir(), "victim.bin").unwrap().is_none());
    let image = fs.device.into_inner();
    assert_eq!(open(image.clone()).free_cluster_count(), free_before);
    let payload = b"reborn";
    let image = write_root_file(image, "phoenix.txt", payload);
    assert_eq!(read_root_file(&image, "phoenix.txt"), payload);
}

#[test]
fn roundtrip_multiple_files() {
    let files: &[(&str, &[u8])] =
        &[("a.txt", b"alpha"), ("b.txt", b"bravo"), ("c.bin", &[0xCC; 8192])];
    let mut image = make_image(512);
    for (name, payload) in files {
        image = write_root_file(image, name, payload);
    }
    for (name, payload) in files {
        assert_eq!(&read_root_file(&image, name), payload, "mismatch for {name}");
    }
}

#[test]
fn data_length_is_the_file_size_not_the_allocation() {
    let image = write_root_file(make_image(512), "small.txt", b"Hello, exFAT!");
    let mut fs = open(image);
    let entry = find(&fs, "small.txt");
    assert_eq!(entry.valid_data_length, 13);
    assert_eq!(entry.data_length, 13);
    fs.truncate(&entry, 5).expect("truncate");
    let entry = find(&fs, "small.txt");
    assert_eq!(entry.valid_data_length, 5);
    assert_eq!(entry.data_length, 5);
    let image = fs.device.into_inner();
    assert_eq!(read_root_file(&image, "small.txt"), b"Hello");
}

#[test]
fn an_empty_file_keeps_allocation_possible() {
    let image = write_root_file(make_image(512), "empty.txt", b"");
    let fs = open(image);
    let entry = find(&fs, "empty.txt");
    assert_eq!(entry.data_length, 0);
    assert_eq!(entry.first_cluster, 0);
    assert!(entry.no_fat_chain);
    let flags = fs.device.read_at(entry.entry_offset + 33, 1).unwrap()[0];
    assert_eq!(flags, 0x03);
}

#[test]
fn fragmented_file_is_written_and_read() {
    let mut fs = open(make_image(64));
    // Take the cluster behind the first free one, so that the file cannot stay contiguous.
    assert_eq!(fs.allocate_cluster(6).unwrap(), 6);
    let root = fs.root_dir();
    let entry = fs.create_file(root, "frag.bin").unwrap();
    let mut writer = fs.write_file(&entry).unwrap();
    let payload: Vec<u8> = (0..3 * CLUSTER + 100).map(|i| (i * 7 + 1) as u8).collect();
    writer.write_all(&mut fs, &payload).unwrap();
    assert_eq!(writer.position(), payload.len() as u64);
    assert_eq!(writer.bytes_written(), payload.len() as u64);
    assert!(!writer.is_contiguous);
    writer.finish(&mut fs).unwrap();
    let entry = find(&fs, "frag.bin");
    assert!(!entry.no_fat_chain);
    assert_eq!(entry.first_cluster, 5);
    assert_eq!(fs.next_cluster(5).unwrap(), Some(7));
    assert_eq!(fs.next_cluster(7).unwrap(), Some(8));
    assert_eq!(fs.next_cluster(9).unwrap(), None);
    let mut reader = fs.open_file("/FRAG.bin").unwrap();
    assert_eq!(reader.size(), payload.len() as u64);
    let mut out = vec![0u8; payload.len()];
    reader.read_exact(&mut out).unwrap();
    assert_eq!(out, payload);
    assert_eq!(reader.remaining(), 0);
    assert_eq!(reader.seek(SeekFrom::Start(CLUSTER as u64 + 3)).unwrap(), CLUSTER as u64 + 3);
    let mut two = [0u8; 2];
    reader.read_exact(&mut two).unwrap();
    assert_eq!(two, [payload[CLUSTER + 3], payload[CLUSTER + 4]]);
    assert_eq!(reader.seek(SeekFrom::End(-1)).unwrap(), payload.len() as u64 - 1);
    assert_eq!(reader.seek(SeekFrom::End(1)), Err(ExFatError::InvalidInput));
    assert_eq!(reader.seek(SeekFrom::Start(0)).unwrap(), 0);
    assert_eq!(reader.seek(SeekFrom::Current(-1)), Err(ExFatError::InvalidInput));
    assert_eq!(reader.stream_position(), 0);
    let mut all = vec![0u8; payload.len() + 1];
    assert_eq!(reader.read_exact(&mut all), Err(ExFatError::UnexpectedEof));
    // Cutting the chain frees its tail.
    let free = fs.free_cluster_count();
    fs.truncate(&entry, CLUSTER as u64).unwrap();
    assert_eq!(fs.free_cluster_count(), free + 3);
    assert_eq!(fs.next_cluster(5).unwrap(), None);
    assert!(!fs.is_cluster_allocated(9).unwrap());
    let entry = find(&fs, "frag.bin");
    assert_eq!(entry.data_length, CLUSTER as u64);
    fs.truncate(&entry, 0).unwrap();
    let entry = find(&fs, "frag.bin");
    assert_eq!((entry.data_length, entry.first_cluster), (0, 0));
    assert!(!fs.is_cluster_allocated(5).unwrap());
}

#[test]
fn overwriting_in_place_reuses_own_clusters() {
    let first = vec![1u8; CLUSTER + CLUSTER / 2];
    let image = write_root_file(make_image(64), "o.bin", &first);
    let mut fs = open(image);
    let free = fs.free_cluster_count();
    let entry = find(&fs, "o.bin");
    let mut writer = fs.write_file(&entry).unwrap();
    let second = vec![2u8; CLUSTER + 10];
    writer.write_all(&mut fs, &second).unwrap();
    writer.finish(&mut fs).unwrap();
    assert_eq!(fs.free_cluster_count(), free);
    let image = fs.device.into_inner();
    let got = read_root_file(&image, "o.bin");
    assert_eq!(got.len(), first.len());
    assert_eq!(&got[..second.len()], &second[..]);
    assert_eq!(&got[second.len()..], &first[second.len()..]);
}

#[test]
fn full_volume_stops_the_writer() {
    let mut fs = open(make_image(8));
    let root = fs.root_dir();
    let entry = fs.create_file(root, "big.bin").unwrap();
    let mut writer = fs.write_file(&entry).unwrap();
    assert_eq!(
        writer.write_all(&mut fs, &vec![9u8; 6 * CLUSTER]),
        Err(ExFatError::WriteZero)
    );
    assert_eq!(fs.free_cluster_count(), 0);
    assert_eq!(fs.allocate_cluster(2), Err(ExFatError::NoFreeSpace));
    assert_eq!(fs.allocate_clusters(1, 2), Err(ExFatError::NoFreeSpace));
}

#[test]
fn allocation_prefers_runs_and_rolls_back() {
    let mut fs = open(make_image(16));
    assert_eq!(fs.allocate_clusters(0, 2).unwrap(), (0, true));
    assert_eq!(fs.allocate_clusters(3, 2).unwrap(), (5, true));
    fs.free_clusters(5, 3, true).unwrap();
    assert_eq!(fs.free_cluster_count(), 13);
    // Leave only every other cluster free.
    for cluster in [6u32, 8, 10, 12, 14, 16] {
        assert_eq!(fs.allocate_cluster(cluster).unwrap(), cluster);
    }
    assert_eq!(fs.free_cluster_count(), 7);
    let (first, contiguous) = fs.allocate_clusters(3, 2).unwrap();
    assert_eq!((first, contiguous), (5, false));
    assert_eq!(fs.next_cluster(5).unwrap(), Some(7));
    assert_eq!(fs.next_cluster(7).unwrap(), Some(9));
    assert_eq!(fs.next_cluster(9).unwrap(), None);
    assert_eq!(fs.allocate_clusters(5, 2), Err(ExFatError::NoFreeSpace));
    assert_eq!(fs.free_cluster_count(), 4);
    fs.free_clusters(5, 0, false).unwrap();
    assert_eq!(fs.free_cluster_count(), 7);
    assert_eq!(fs.free_clusters(16, 9, true), Err(ExFatError::InvalidCluster(18)));
    assert_eq!(fs.free_clusters(0, 9, true), Ok(()));
}

#[test]
fn directories_are_created_and_searched() {
    let mut fs = open(make_image(64));
    let root = fs.root_dir();
    let sub = fs.create_dir(root, "Sub").unwrap();
    assert_eq!(fs.create_dir(root, "SUB"), Err(ExFatError::AlreadyExists));
    let entry = fs.create_file(sub, "inner.txt").unwrap();
    let mut writer = fs.write_file(&entry).unwrap();
    writer.write_all(&mut fs, b"inside").unwrap();
    writer.finish(&mut fs).unwrap();
    assert_eq!(fs.open_dir("sub").unwrap(), sub);
    assert_eq!(fs.open_dir("sub/inner.txt"), Err(ExFatError::NotADirectory));
    assert!(matches!(fs.open_file("sub"), Err(ExFatError::NotAFile)));
    assert!(matches!(fs.open_path("sub/../x"), Err(ExFatError::InvalidPath)));
    assert!(matches!(fs.open_path("/"), Err(ExFatError::InvalidPath)));
    assert!(matches!(fs.open_path("sub/none"), Err(ExFatError::EntryNotFound)));
    assert!(matches!(fs.open_path("sub/inner.txt/x"), Err(ExFatError::NotADirectory)));
    let mut reader = fs.open_file("./SUB//Inner.TXT").unwrap();
    let mut out = [0u8; 6];
    reader.read_exact(&mut out).unwrap();
    assert_eq!(&out, b"inside");
    let sub_entry = find(&fs, "sub");
    assert!(matches!(fs.write_file(&sub_entry), Err(ExFatError::NotAFile)));
    assert_eq!(fs.truncate(&sub_entry, 0), Err(ExFatError::NotAFile));
    assert_eq!(fs.delete(&sub_entry), Err(ExFatError::DirectoryNotEmpty));
    let inner = fs.open_path("sub/inner.txt").unwrap();
    fs.delete(&inner).unwrap();
    fs.delete(&sub_entry).unwrap();
    assert!(matches!(fs.open_path("sub"), Err(ExFatError::EntryNotFound)));
}

#[test]
fn a_full_directory_is_reported() {
    let mut fs = open(make_image(64));
    let root = fs.root_dir();
    let mut created = 0;
    loop {
        match fs.create_file(root, &format!("f{created}")) {
            Ok(_) => created += 1,
            Err(e) => {
                assert_eq!(e, ExFatError::DirectoryFull);
                break;
            }
        }
    }
    // 128 entries to a cluster, two of them taken, three for each file.
    assert_eq!(created, 42);
    assert!(matches!(fs.create_file(root, "a:b"), Err(ExFatError::InvalidFilename)));
}

#[test]
fn damaged_volumes_are_rejected() {
    let mut image = make_image(16);
    image[510] = 0;
    assert!(matches!(
        ExFatVolume::open(MemoryDevice::new(image)),
        Err(ExFatError::InvalidBootSector)
    ));
    let mut image = make_image(16);
    image[100] ^= 1;
    assert!(matches!(
        ExFatVolume::open(MemoryDevice::new(image)),
        Err(ExFatError::InvalidChecksum { .. })
    ));
    let mut image = make_image(16);
    image[cluster_at(3)] ^= 1;
    assert!(matches!(
        ExFatVolume::open(MemoryDevice::new(image)),
        Err(ExFatError::InvalidChecksum { .. })
    ));
    let mut image = make_image(16);
    let root = cluster_at(4);
    put(&mut image, root + 56, &u64::MAX.to_le_bytes());
    assert!(matches!(
        ExFatVolume::open(MemoryDevice::new(image)),
        Err(ExFatError::UpcaseExceedsVolume)
    ));
    for len in [0usize, 100, 511, 512, 11 * SECTOR, 11 * SECTOR + 3, cluster_at(4)] {
        let mut image = make_image(16);
        image.truncate(len);
        assert!(matches!(
            ExFatVolume::open(MemoryDevice::new(image)),
            Err(ExFatError::Io)
        ));
    }
    let fs = open(make_image(16));
    assert_eq!(fs.volume_serial(), 0x12345678);
    assert_eq!(fs.info().bytes_per_cluster, CLUSTER);
    assert_eq!(fs.is_cluster_allocated(18), Err(ExFatError::InvalidCluster(18)));
    assert_eq!(fs.next_cluster(1), Err(ExFatError::InvalidCluster(1)));
}

#[test]
fn a_volume_without_tables_uses_ascii() {
    let mut image = make_image(16);
    let root = cluster_at(4);
    image[root] = 0x03;
    image[root + 32] = 0x03;
    let fs = open(image);
    assert_eq!(fs.free_cluster_count(), 16);
    assert!(fs.names_equal("abc", "ABC"));
    assert!(!fs.names_equal("é", "É"));
    let fs = open(make_image(16));
    assert!(fs.names_equal("abc", "ABC"));
    assert!(!fs.names_equal("é", "É"));
    assert_eq!(fs.name_hash("abc"), fs.name_hash("ABC"));
}

#[test]
fn test_entry_set_builder() {
    let upcase = UpcaseTable::create_default();
    let builder = EntrySetBuilder::file("test.txt").unwrap();
    let entries = builder.build(&upcase);
    assert_eq!(entries.len(), 3);
    assert_eq!(entries[0].entry_type(), FILE_DIRECTORY);
    assert_eq!(entries[1].entry_type(), STREAM_EXTENSION);
    assert_eq!(entries[2].entry_type(), FILE_NAME);
}

#[test]
fn parser_rejects_an_invalid_entry_set_checksum() {
    let upcase = UpcaseTable::create_default();
    let builder = EntrySetBuilder::file("test.txt").unwrap();
    let mut entries = builder.build(&upcase);
    assert!(parse_entry_set(&entries).is_some());
    entries[2].bytes[2] ^= 1;
    assert!(parse_entry_set(&entries).is_none());
}

#[test]
fn test_long_name_multiple_entries() {
    let upcase = UpcaseTable::create_default();
    let builder = EntrySetBuilder::file("this_is_a_very_long_filename.txt").unwrap();
    let entries = builder.build(&upcase);
    assert_eq!(entries.len(), 5);
}

#[test]
fn test_invalid_filename() {
    assert!(EntrySetBuilder::file("test*.txt").is_err());
    assert!(EntrySetBuilder::file("test:file").is_err());
    assert!(EntrySetBuilder::file("").is_err());
}

#[test]
fn built_sets_are_read_back() {
    let upcase = UpcaseTable::create_default();
    let builder = EntrySetBuilder::directory("Ordner 🦀")
        .unwrap()
        .with_cluster(77)
        .with_size(5, 4096)
        .with_contiguous(false);
    let parsed = parse_entry_set(&builder.build(&upcase)).unwrap();
    assert_eq!(parsed.first_cluster, 77);
    assert_eq!((parsed.valid_data_length, parsed.data_length), (5, 4096));
    assert!(!parsed.no_fat_chain);
    assert!(parsed.attributes.is_directory());
    assert_eq!(parsed.name, "Ordner 🦀".encode_utf16().collect::<Vec<u16>>());
    assert_eq!(parsed.name_hash, upcase.name_hash("ORDNER 🦀"));
    assert_eq!(parsed.created, builder.created);
    assert!(EntrySetBuilder::file(&"x".repeat(255)).is_ok());
    assert!(EntrySetBuilder::file(&"x".repeat(256)).is_err());
}

#[test]
fn test_default_upcase_ascii() {
    let table = UpcaseTable::create_default();
    assert_eq!(table.to_upper(b'a' as u16), b'A' as u16);
    assert_eq!(table.to_upper(b'z' as u16), b'Z' as u16);
    assert_eq!(table.to_upper(b'A' as u16), b'A' as u16);
    assert_eq!(table.to_upper(b'0' as u16), b'0' as u16);
}

#[test]
fn test_names_equal() {
    let table = UpcaseTable::create_default();
    assert!(table.names_equal("hello", "HELLO"));
    assert!(table.names_equal("Test.txt", "test.TXT"));
    assert!(!table.names_equal("hello", "world"));
    assert!(!table.names_equal("hello", "hello!"));
}

#[test]
fn standard_table_is_loaded() {
    let (data, checksum) = generate_compressed_upcase_table();
    assert_eq!(checksum, compute_upcase_checksum(&data));
    let reference = data.iter().fold(0u32, |sum, &byte| {
        sum.rotate_right(1).wrapping_add(byte as u32)
    });
    assert_eq!(checksum, reference);
    let image = make_image(16);
    let device = MemoryDevice::new(image);
    let info = *open(make_image(16)).info();
    let mut table = UpcaseTable::new();
    assert!(!table.is_valid());
    assert_eq!(table.to_upper(0x61), 0x61);
    assert_eq!(
        table.load(&device, &info, 3, data.len() as u64, false),
        Err(ExFatError::UpcaseFragmented)
    );
    assert_eq!(
        table.load(&device, &info, 3, 131074, true),
        Err(ExFatError::UpcaseExceedsVolume)
    );
    table.load(&device, &info, 3, data.len() as u64, true).unwrap();
    assert!(table.is_valid());
    for c in 0..=0xFFFFu16 {
        let upper = if (0x61..=0x7A).contains(&c) { c - 0x20 } else { c };
        assert_eq!(table.to_upper(c), upper);
    }
    assert_eq!(
        table.load_checked(&device, &info, 3, data.len() as u64, true, checksum ^ 1),
        Err(ExFatError::InvalidChecksum { expected: checksum ^ 1, found: checksum })
    );
}

#[test]
fn name_hash_has_the_documented_value() {
    let table = UpcaseTable::create_default();
    let mut hash: u16 = 0;
    for unit in "ABC".encode_utf16() {
        hash = hash.rotate_right(1).wrapping_add(unit & 0xFF);
        hash = hash.rotate_right(1).wrapping_add(unit >> 8);
    }
    assert_eq!(table.name_hash("abc"), hash);
}

#[test]
fn timestamps_are_packed() {
    let t = ExFatTimestamp {
        year: 2024,
        month: 2,
        day: 29,
        hour: 23,
        minute: 58,
        second: 59,
        hundredths: 7,
        utc_offset: 0x80,
    };
    let (ts, increment, utc) = t.to_raw();
    assert_eq!(ts, (44 << 25) | (2 << 21) | (29 << 16) | (23 << 11) | (58 << 5) | 29);
    assert_eq!((increment, utc), (107, 0x80));
    assert_eq!(ExFatTimestamp::from_raw(ts, increment, utc), t);
    let now = ExFatTimestamp::now();
    assert!(now.year >= 2024 && now.month >= 1 && now.month <= 12 && now.utc_offset == 0x80);
}

#[test]
fn bitmaps_are_stored_bit_by_bit() {
    let info = *open(make_image(20)).info();
    let mut device = MemoryDevice::new(make_image(20));
    let mut bitmap = AllocationBitmap::new(2, 3, 20);
    bitmap.load(&device, &info).unwrap();
    assert_eq!(bitmap.first_cluster(), 2);
    assert_eq!(bitmap.free_cluster_count(), 17);
    bitmap.set_allocated(13, true).unwrap();
    bitmap.set_allocated(21, true).unwrap();
    assert_eq!(bitmap.set_allocated(22, true), Err(ExFatError::InvalidCluster(22)));
    bitmap.flush(&mut device, &info).unwrap();
    let at = cluster_at(2) as u64;
    assert_eq!(device.read_at(at, 3).unwrap(), vec![0b0000_0111, 0b0000_1000, 0b0000_1000]);
    let mut again = AllocationBitmap::new(2, 3, 20);
    again.load(&device, &info).unwrap();
    assert_eq!(again.bits, bitmap.bits);
    assert_eq!(bitmap.find_free_cluster(13), Some(14));
    assert_eq!(bitmap.find_free_cluster(21), Some(5));
    assert_eq!(bitmap.find_contiguous_free(8, 5), Some(5));
    assert_eq!(bitmap.find_contiguous_free(9, 5), None);
}

#[test]
fn writing_and_releasing_leave_other_files_alone() {
    let keep: Vec<u8> = (0..3 * CLUSTER + 5).map(|i| (i % 251) as u8).collect();
    let image = write_root_file(make_image(64), "keep.bin", &keep);
    let image = write_root_file(image, "work.bin", &vec![7u8; 2 * CLUSTER]);
    let mut fs = open(image);
    let root = fs.root_dir();
    let entry = find(&fs, "work.bin");
    let mut writer = fs.write_file(&entry).unwrap();
    writer.write_all(&mut fs, &vec![9u8; 5 * CLUSTER]).unwrap();
    writer.finish(&mut fs).unwrap();
    let image = fs.device.into_inner();
    assert_eq!(read_root_file(&image, "keep.bin"), keep);
    assert_eq!(read_root_file(&image, "work.bin"), vec![9u8; 5 * CLUSTER]);

    let mut fs = open(image);
    let entry = find(&fs, "work.bin");
    fs.truncate(&entry, 10).unwrap();
    let image = fs.device.into_inner();
    assert_eq!(read_root_file(&image, "keep.bin"), keep);
    assert_eq!(read_root_file(&image, "work.bin"), vec![9u8; 10]);

    let mut fs = open(image);
    fs.create_file(root, "new.bin").unwrap();
    let entry = find(&fs, "work.bin");
    fs.delete(&entry).unwrap();
    assert!(fs.find(root, "work.bin").unwrap().is_none());
    assert!(fs.find(root, "new.bin").unwrap().is_some());
    let image = fs.device.into_inner();
    assert_eq!(read_root_file(&image, "keep.bin"), keep);
}

#[test]
fn a_new_directory_is_found_and_empty() {
    let mut fs = open(make_image(64));
    let root = fs.root_dir();
    let dir = fs.create_dir(root, "Sub").unwrap();
    let entry = find(&fs, "sub");
    assert!(entry.is_directory());
    assert_eq!(entry.first_cluster, dir.first_cluster);
    assert!(fs.find(dir, "anything").unwrap().is_none());
    fs.delete(&entry).unwrap();
    assert!(fs.find(root, "Sub").unwrap().is_none());
}

#[test]
fn a_full_volume_is_overwritten_in_place() {
    let first = vec![1u8; 5 * CLUSTER];
    let image = write_root_file(make_image(8), "f.bin", &first);
    let mut fs = open(image);
    assert_eq!(fs.free_cluster_count(), 0);
    let entry = find(&fs, "f.bin");
    assert!(entry.no_fat_chain);
    let mut writer = fs.write_file(&entry).unwrap();
    let second = vec![2u8; 5 * CLUSTER];
    assert_eq!(writer.write(&mut fs, &second).unwrap(), second.len());
    assert_eq!(writer.write(&mut fs, &[3]).unwrap(), 0);
    writer.finish(&mut fs).unwrap();
    assert_eq!(fs.free_cluster_count(), 0);
    let after = find(&fs, "f.bin");
    assert!(after.no_fat_chain);
    assert_eq!(after.first_cluster, entry.first_cluster);
    assert_eq!(read_root_file(&fs.device.into_inner(), "f.bin"), second);
}

#[test]
fn allocation_fails_only_for_want_of_clusters() {
    let mut fs = open(make_image(8));
    assert_eq!(fs.free_cluster_count(), 5);
    assert_eq!(fs.allocate_clusters(6, 2), Err(ExFatError::NoFreeSpace));
    assert_eq!(fs.free_cluster_count(), 5);
    assert_eq!(fs.allocate_cluster(6).unwrap(), 6);
    // No run of four is left, but four clusters are.
    let (first, contiguous) = fs.allocate_clusters(4, 2).unwrap();
    assert_eq!((first, contiguous), (5, false));
    assert_eq!(fs.free_cluster_count(), 0);
}

#[test]
fn a_stored_file_is_read_after_reopening() {
    let data: Vec<u8> = (0..2 * CLUSTER + 100).map(|i| (i * 7 % 256) as u8).collect();
    let mut fs = open(make_image(64));
    let root = fs.root_dir();
    let entry = fs.create_file(root, "Notes.txt").unwrap();
    assert_eq!((entry.first_cluster, entry.data_length), (0, 0));
    let mut writer = fs.write_file(&entry).unwrap();
    writer.write_all(&mut fs, &data).unwrap();
    writer.finish(&mut fs).unwrap();
    let found = find(&fs, "NOTES.TXT");
    assert_eq!(found.name, "Notes.txt");
    assert_eq!(found.data_length, data.len() as u64);
    assert_eq!(found.valid_data_length, data.len() as u64);
    let free = fs.free_cluster_count();
    let info = *fs.info();

    let again = open(fs.device.into_inner());
    assert_eq!(*again.info(), info);
    assert_eq!(again.free_cluster_count(), free);
    assert!(again.names_equal("a", "A"));
    let mut reader = again.open_file("notes.TXT").unwrap();
    assert_eq!(reader.size(), data.len() as u64);
    let mut buf = vec![0u8; data.len()];
    assert_eq!(reader.read(&mut buf).unwrap(), data.len());
    assert_eq!(buf, data);
    assert_eq!(reader.read(&mut buf).unwrap(), 0);
}

#[test]
fn a_chained_file_is_truncated_and_keeps_its_start() {
    let mut fs = open(make_image(32));
    let root = fs.root_dir();
    let entry = fs.create_file(root, "c.bin").unwrap();
    let mut writer = fs.write_file(&entry).unwrap();
    writer.write_all(&mut fs, &vec![1u8; CLUSTER]).unwrap();
    // The next cluster is taken, so the file becomes a chain.
    assert_eq!(fs.allocate_cluster(6).unwrap(), 6);
    writer.write_all(&mut fs, &vec![2u8; 3 * CLUSTER]).unwrap();
    writer.finish(&mut fs).unwrap();
    let entry = find(&fs, "c.bin");
    assert!(!entry.no_fat_chain);
    let free = fs.free_cluster_count();
    fs.truncate(&entry, CLUSTER as u64 + 1).unwrap();
    assert_eq!(fs.free_cluster_count(), free + 2);
    assert_eq!(fs.next_cluster(5).unwrap(), Some(7));
    assert_eq!(fs.next_cluster(7).unwrap(), None);
    let mut expected = vec![1u8; CLUSTER];
    expected.push(2);
    assert_eq!(read_root_file(&fs.device.into_inner(), "c.bin"), expected);
}

#[test]
fn a_broken_chain_is_read_up_to_the_break() {
    let mut fs = open(make_image(32));
    let root = fs.root_dir();
    let entry = fs.create_file(root, "b.bin").unwrap();
    let mut writer = fs.write_file(&entry).unwrap();
    writer.write_all(&mut fs, &vec![1u8; CLUSTER]).unwrap();
    assert_eq!(fs.allocate_cluster(6).unwrap(), 6);
    writer.write_all(&mut fs, &vec![2u8; 2 * CLUSTER]).unwrap();
    writer.finish(&mut fs).unwrap();
    fs.set_fat_entry(7, 1).unwrap();
    let mut reader = fs.open_file("b.bin").unwrap();
    let mut buf = vec![0u8; 2 * CLUSTER];
    assert_eq!(reader.read(&mut buf).unwrap(), 2 * CLUSTER);
    assert_eq!(&buf[..CLUSTER], &vec![1u8; CLUSTER][..]);
    assert_eq!(&buf[CLUSTER..], &vec![2u8; CLUSTER][..]);
    assert_eq!(reader.read(&mut buf), Err(ExFatError::InvalidCluster(1)));
    assert_eq!(reader.seek(SeekFrom::Start(2 * CLUSTER as u64)), Err(ExFatError::InvalidCluster(1)));
    assert_eq!(reader.seek(SeekFrom::Start(CLUSTER as u64)), Ok(CLUSTER as u64));
    // A chain that ends early ends the file.
    fs.set_fat_entry(7, 0xFFFFFFFF).unwrap();
    let mut reader = fs.open_file("b.bin").unwrap();
    let mut buf = vec![0u8; 3 * CLUSTER];
    assert_eq!(reader.read(&mut buf).unwrap(), 2 * CLUSTER);
    assert_eq!(fs.open_file("b.bin").unwrap().read_exact(&mut buf), Err(ExFatError::UnexpectedEof));
}

#[test]
fn a_directory_that_cannot_be_named_keeps_its_cluster() {
    let mut fs = open(make_image(16));
    let root = fs.root_dir();
    let free = fs.free_cluster_count();
    assert_eq!(fs.create_dir(root, "a:b"), Err(ExFatError::InvalidFilename));
    assert_eq!(fs.free_cluster_count(), free - 1);
    assert!(fs.is_cluster_allocated(5).unwrap());
    assert_eq!(fs.next_cluster(5).unwrap(), None);
    assert_eq!(fs.create_file(root, "a:b").err(), Some(ExFatError::InvalidFilename));
    assert_eq!(fs.free_cluster_count(), free - 1);
}

#[test]
fn a_directory_is_read_only_as_far_as_needed() {
    let mut fs = open(make_image(64));
    let root = ExFatDir { is_contiguous: false, ..fs.root_dir() };
    // The link behind the first cluster is broken, but the first cluster ends the directory.
    fs.set_fat_entry(4, 1).unwrap();
    assert!(fs.find(root, "none").unwrap().is_none());
    fs.create_file(root, "one").unwrap();
    let entry = fs.find(root, "one").unwrap().unwrap();
    fs.delete(&entry).unwrap();
    assert!(fs.find(root, "one").unwrap().is_none());
    // Of the entries that were deleted, one can be used again: 41 files fill the cluster.
    for i in 0..41 {
        fs.create_file(root, &format!("f{i}")).unwrap();
    }
    assert!(fs.find(root, "F40").unwrap().is_some());
    assert_eq!(fs.create_file(root, "f40").err(), Some(ExFatError::AlreadyExists));
    assert_eq!(fs.find(root, "none").err(), Some(ExFatError::InvalidCluster(1)));
    assert_eq!(fs.create_file(root, "more").err(), Some(ExFatError::InvalidCluster(1)));
    let whole = fs.root_dir();
    assert_eq!(fs.create_file(whole, "more").err(), Some(ExFatError::DirectoryFull));
}

fn put_file(image: &mut [u8], name: &str, valid: u64, length: u64, contiguous: bool) {
    let builder = EntrySetBuilder::file(name)
        .unwrap()
        .with_cluster(5)
        .with_size(valid, length)
        .with_contiguous(contiguous);
    let entries = builder.build(&UpcaseTable::create_default());
    for (i, entry) in entries.iter().enumerate() {
        put(image, cluster_at(4) + 64 + 32 * i, &entry.bytes);
    }
}

#[test]
fn a_place_from_the_start_is_found_in_the_longest_file() {
    let mut image = make_image(16);
    put_file(&mut image, "long.bin", 1 << 63, 1 << 63, true);
    let fs = open(image);
    let mut reader = fs.open_file("long.bin").unwrap();
    assert_eq!(reader.size(), 1 << 63);
    assert_eq!(reader.seek(SeekFrom::Start(5)), Ok(5));
    assert_eq!(reader.stream_position(), 5);
    assert_eq!(reader.seek(SeekFrom::Start(1 << 63)), Err(ExFatError::InvalidInput));
    assert_eq!(reader.seek(SeekFrom::Start(u64::MAX)), Err(ExFatError::InvalidInput));
    assert_eq!(reader.stream_position(), 5);
}

#[test]
fn a_longer_allocation_is_used_before_it_grows() {
    let mut image = make_image(16);
    put_file(&mut image, "room.bin", 10, 3 * CLUSTER as u64, true);
    image[cluster_at(2)] = 0b0011_1111;
    let mut fs = open(image);
    let free = fs.free_cluster_count();
    let entry = find(&fs, "room.bin");
    let mut writer = fs.write_file(&entry).unwrap();
    assert_eq!(writer.bytes_written(), 10);
    let data = vec![6u8; 2 * CLUSTER + 5];
    writer.write_all(&mut fs, &data).unwrap();
    assert!(writer.is_contiguous);
    writer.finish(&mut fs).unwrap();
    assert_eq!(fs.free_cluster_count(), free);
    let entry = find(&fs, "room.bin");
    assert_eq!((entry.first_cluster, entry.no_fat_chain), (5, true));
    assert_eq!(entry.valid_data_length, data.len() as u64);
    assert_eq!(entry.data_length, data.len() as u64);
    assert_eq!(read_root_file(&fs.device.into_inner(), "room.bin"), data);
}

#[test]
fn files_stored_one_after_the_other_are_read_after_reopening() {
    let first: Vec<u8> = (0..CLUSTER + 9).map(|i| (i % 253) as u8).collect();
    let second: Vec<u8> = (0..2 * CLUSTER).map(|i| (i % 241) as u8).collect();
    let mut fs = open(write_root_file(make_image(64), "first.bin", &first));
    let root = fs.root_dir();
    let sub = fs.create_dir(root, "Sub").unwrap();
    let entry = fs.create_file(sub, "second.bin").unwrap();
    let mut writer = fs.write_file(&entry).unwrap();
    writer.write_all(&mut fs, &second).unwrap();
    writer.finish(&mut fs).unwrap();
    let image = write_root_file(fs.device.into_inner(), "empty.bin", &[]);
    assert_eq!(read_root_file(&image, "first.bin"), first);
    assert_eq!(read_root_file(&image, "SUB/Second.BIN"), second);
    assert_eq!(read_root_file(&image, "empty.bin"), Vec::<u8>::new());
    let fs = open(image);
    let empty = find(&fs, "empty.bin");
    assert_eq!((empty.first_cluster, empty.no_fat_chain), (0, true));
}
