use hadris::iso::dedup::apply_dedup_suffix;
use hadris::iso::extent::ExtentIter;
use hadris::iso::layout::alignment_requires_materialization;
use hadris::iso::records::{PendingRecord, PendingRecords};
use hadris::iso::susp::SplitSu;
use hadris::iso::tree::{FileTreeWalker, InputEntry, InputTree, TreeWalkerItem};
use hadris::iso::types::{DirectoryRef, EntryType, FileFlags, PathSeparator};

#[test]
fn extent_iter_splits_correctly() {
    let sector_size: u64 = 2048;
    let cursor: u64 = 0;

    let len = u32::MAX as u64 + 1;
    let iter = ExtentIter::new(len, cursor, sector_size);
    let (extents, final_cursor) = iter.collect_with_cursor();

    assert_eq!(extents.len(), 2);

    assert_eq!(extents[0].size, 4_294_965_248);
    assert_eq!(extents[0].extent.0, 0);

    assert_eq!(extents[1].size, 2048);
    let expected_sector: u64 = 4_294_965_248 / 2048;
    assert_eq!(extents[1].extent.0, expected_sector as usize);

    assert_eq!(final_cursor, len);
}

#[test]
fn extent_iter_small_file() {
    let sector_size: u64 = 2048;
    let len = 1024; // < 4 GiB
    let iter = ExtentIter::new(len, 0, sector_size);
    let (extents, final_cursor) = iter.collect_with_cursor();

    assert_eq!(extents.len(), 1);
    assert_eq!(extents[0].size, 1024);
    assert_eq!(extents[0].extent.0, 0);
    assert_eq!(final_cursor, 1024);
}

#[test]
fn deduplicates_logical_files_without_splitting_extent_names() {
    let record = |flags| PendingRecord {
        name: b"README.TXT;1".to_vec().into(),
        split: SplitSu::empty(),
        dir_ref: DirectoryRef::default(),
        flags,
    };
    let mut records = vec![
        record(FileFlags::not_final()),
        record(FileFlags::empty()),
        record(FileFlags::empty()),
    ];

    PendingRecords::deduplicate_names(&mut records, EntryType::default());

    assert_eq!(records[0].name, records[1].name);
    assert_ne!(records[1].name, records[2].name);
}

#[test]
fn alignment_only_materializes_new_padding() {
    assert!(!alignment_requires_materialization(2048, 2048));
    assert!(alignment_requires_materialization(2047, 2048));
}

#[test]
fn test_depth_first_tree_walk_iterator() {
    // Define a test file hierarchy
    let file_a = InputEntry::file("root/dir1/fileA.txt", Vec::new());
    let file_b = InputEntry::file("root/dir1/fileB.txt", Vec::new());
    let file_c = InputEntry::file("root/fileC.txt", Vec::new());
    let file_d = InputEntry::file("root/dir2/fileD.txt", Vec::new());
    let file_e = InputEntry::file("root/dir2/subdir/fileE.txt", Vec::new());

    let subdir_node = InputEntry::directory("root/dir2/subdir", vec![file_e.clone()]);

    let dir1_node = InputEntry::directory("root/dir1", vec![file_a.clone(), file_b.clone()]);

    let dir2_node = InputEntry::directory(
        "root/dir2",
        vec![
            file_d.clone(),
            subdir_node.clone(), // Subdirectory
        ],
    );

    let root_level_files = vec![dir1_node.clone(), file_c.clone(), dir2_node.clone()];

    let input_tree = InputTree::new(PathSeparator::ForwardSlash, root_level_files);

    // Create the iterator
    let walker = FileTreeWalker::new(&input_tree);

    // Define the expected sequence of events (depth-first, pre-order for Enter, post-order for Exit)
    let expected_sequence = vec![
        TreeWalkerItem::EnterDirectory(&dir1_node),   // Enter dir1
        TreeWalkerItem::File(&file_a),                // Process fileA
        TreeWalkerItem::File(&file_b),                // Process fileB
        TreeWalkerItem::ExitDirectory(&dir1_node),    // Exit dir1
        TreeWalkerItem::File(&file_c),                // Process fileC
        TreeWalkerItem::EnterDirectory(&dir2_node),   // Enter dir2
        TreeWalkerItem::File(&file_d),                // Process fileD
        TreeWalkerItem::EnterDirectory(&subdir_node), // Enter subdir
        TreeWalkerItem::File(&file_e),                // Process fileE
        TreeWalkerItem::ExitDirectory(&subdir_node),  // Exit subdir
        TreeWalkerItem::ExitDirectory(&dir2_node),    // Exit dir2
    ];

    // Collect all items from the iterator
    let actual_sequence: Vec<TreeWalkerItem> = walker.collect();

    // Assert that the actual sequence matches the expected sequence
    assert_eq!(actual_sequence, expected_sequence);
}

#[test]
fn test_dedup_suffix_l1_with_ext() {
    let ty = EntryType::Level1 {
        supports_lowercase: false,
        supports_rrip: false,
    };
    let result = apply_dedup_suffix(b"README.TXT;1", 1, ty);
    assert_eq!(result, b"README_1.TXT;1");
}

#[test]
fn test_dedup_suffix_l1_no_ext() {
    let ty = EntryType::Level1 {
        supports_lowercase: false,
        supports_rrip: false,
    };
    let result = apply_dedup_suffix(b"FILENAME;1", 1, ty);
    assert_eq!(result, b"FILENA_1;1");
}

#[test]
fn test_dedup_suffix_l2() {
    let ty = EntryType::Level2 {
        supports_lowercase: false,
        supports_rrip: false,
    };
    let result = apply_dedup_suffix(b"LONGFILENAME.EXT;1", 2, ty);
    assert_eq!(result, b"LONGFILENAME_2.EXT;1");
}

#[test]
fn test_dedup_suffix_l3_no_version() {
    let ty = EntryType::Level3 {
        supports_lowercase: false,
        supports_rrip: false,
    };
    let result = apply_dedup_suffix(b"README.TXT", 1, ty);
    assert_eq!(result, b"README_1.TXT");
}

#[test]
fn test_dedup_suffix_distinct() {
    let ty = EntryType::Level1 {
        supports_lowercase: false,
        supports_rrip: false,
    };
    let r1 = apply_dedup_suffix(b"README.TXT;1", 1, ty);
    let r2 = apply_dedup_suffix(b"README.TXT;1", 2, ty);
    let r3 = apply_dedup_suffix(b"README.TXT;1", 3, ty);
    assert_ne!(r1, r2);
    assert_ne!(r2, r3);
    assert_ne!(r1, r3);
}
