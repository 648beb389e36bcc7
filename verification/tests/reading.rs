use hadris::iso::metadata::RripMetadata;
use hadris::iso::susp::RripBuilder;
use hadris::iso::system_use::{
    read_fields, NmEntry, NmFlags, SlComponent, SlComponentFlags, SlEntry, SystemUseField,
    SystemUseIter, TfEntry, TfFlags,
};

#[test]
fn test_es_parsing() {
    // ES entry: sig='ES', length=5, version=1, extension_sequence=42
    let data: &[u8] = &[b'E', b'S', 5, 1, 42];
    let mut iter = SystemUseIter::new(data, 0);
    match iter.next() {
        Some(SystemUseField::ExtensionSelector { extension_sequence }) => {
            assert_eq!(extension_sequence, 42);
        }
        other => panic!("expected ES entry, got {other:?}"),
    }
    assert!(iter.next().is_none());
}

fn component(flags: SlComponentFlags, content: &[u8]) -> SlComponent {
    SlComponent {
        flags,
        content: content.to_vec(),
    }
}

#[test]
fn test_sl_absolute_path_assembly() {
    // Build SL for "/usr/bin"
    let sl = SlEntry {
        flags: 0,
        components: vec![
            component(SlComponentFlags::root(), b""),
            component(SlComponentFlags::empty(), b"usr"),
            component(SlComponentFlags::empty(), b"bin"),
        ],
    };
    let fields = vec![SystemUseField::SymbolicLink(sl)];
    let meta = RripMetadata::from_fields(&fields);
    assert_eq!(meta.symlink_target.as_deref(), Some("/usr/bin"));
}

#[test]
fn test_sl_relative_path_assembly() {
    // Build SL for "../lib/libfoo.so"
    let sl = SlEntry {
        flags: 0,
        components: vec![
            component(SlComponentFlags::parent(), b""),
            component(SlComponentFlags::empty(), b"lib"),
            component(SlComponentFlags::empty(), b"libfoo.so"),
        ],
    };
    let fields = vec![SystemUseField::SymbolicLink(sl)];
    let meta = RripMetadata::from_fields(&fields);
    assert_eq!(meta.symlink_target.as_deref(), Some("../lib/libfoo.so"));
}

#[test]
fn test_sl_continue_component_assembly() {
    // Build SL where a component is split across entries
    let sl = SlEntry {
        flags: 0,
        components: vec![
            component(SlComponentFlags::continued(), b"long"),
            component(SlComponentFlags::empty(), b"name"),
        ],
    };
    let fields = vec![SystemUseField::SymbolicLink(sl)];
    let meta = RripMetadata::from_fields(&fields);
    assert_eq!(meta.symlink_target.as_deref(), Some("longname"));
}

#[test]
fn test_nm_multi_entry_concatenation() {
    // Two NM entries that should concatenate
    let fields = vec![
        SystemUseField::AlternateName(NmEntry {
            flags: NmFlags::continued(),
            name: b"very_long_file".to_vec(),
        }),
        SystemUseField::AlternateName(NmEntry {
            flags: NmFlags::empty(),
            name: b"name.txt".to_vec(),
        }),
    ];
    let meta = RripMetadata::from_fields(&fields);
    assert_eq!(
        meta.alternate_name.as_deref(),
        Some("very_long_filename.txt")
    );
}

#[test]
fn test_nm_current_directory() {
    let fields = vec![SystemUseField::AlternateName(NmEntry {
        flags: NmFlags::current(),
        name: vec![],
    })];
    let meta = RripMetadata::from_fields(&fields);
    assert_eq!(meta.alternate_name.as_deref(), Some("."));
}

#[test]
fn test_nm_parent_directory() {
    let fields = vec![SystemUseField::AlternateName(NmEntry {
        flags: NmFlags::parent(),
        name: vec![],
    })];
    let meta = RripMetadata::from_fields(&fields);
    assert_eq!(meta.alternate_name.as_deref(), Some(".."));
}

#[test]
fn test_tf_short_form_timestamps() {
    // TF with MODIFY(0x02) + ACCESS(0x04) flags, short form
    let mut timestamps = Vec::new();
    // Modify: 2026-02-17 10:30:00 UTC
    timestamps.extend_from_slice(&[126, 2, 17, 10, 30, 0, 0]);
    // Access: 2026-02-17 12:00:00 UTC
    timestamps.extend_from_slice(&[126, 2, 17, 12, 0, 0, 0]);

    let fields = vec![SystemUseField::Timestamps(TfEntry {
        flags: TfFlags::modify().union(TfFlags::access()),
        timestamps,
    })];
    let meta = RripMetadata::from_fields(&fields);

    let ts = meta.timestamps.expect("should have timestamps");
    assert!(ts.creation.is_none(), "creation should not be present");

    let modify = ts.modify.expect("modify should be present");
    assert_eq!(modify.year, 2026);
    assert_eq!(modify.month, 2);
    assert_eq!(modify.day, 17);
    assert_eq!(modify.hour, 10);
    assert_eq!(modify.minute, 30);

    let access = ts.access.expect("access should be present");
    assert_eq!(access.year, 2026);
    assert_eq!(access.month, 2);
    assert_eq!(access.day, 17);
    assert_eq!(access.hour, 12);
    assert_eq!(access.minute, 0);
}

#[test]
fn test_tf_long_form_timestamps() {
    // TF with CREATION flag, long form
    let mut timestamps = Vec::new();
    // Creation: "2026021710300000" + gmt_offset=0
    timestamps.extend_from_slice(b"2026021710300000");
    timestamps.push(0); // gmt_offset

    let fields = vec![SystemUseField::Timestamps(TfEntry {
        flags: TfFlags::creation().union(TfFlags::long_form()),
        timestamps,
    })];
    let meta = RripMetadata::from_fields(&fields);

    let ts = meta.timestamps.expect("should have timestamps");
    let creation = ts.creation.expect("creation should be present");
    assert_eq!(creation.year, 2026);
    assert_eq!(creation.month, 2);
    assert_eq!(creation.day, 17);
    assert_eq!(creation.hour, 10);
    assert_eq!(creation.minute, 30);
}

#[test]
fn long_times_need_digits() {
    let mut timestamps = b"2026021710300x00".to_vec();
    timestamps.push(0);
    let fields = vec![SystemUseField::Timestamps(TfEntry {
        flags: TfFlags::creation().union(TfFlags::long_form()),
        timestamps,
    })];
    let ts = RripMetadata::from_fields(&fields).timestamps.unwrap();
    assert_eq!(ts.creation, None);
}

#[test]
fn times_that_are_cut_off_are_absent() {
    let fields = vec![SystemUseField::Timestamps(TfEntry {
        flags: TfFlags::modify().union(TfFlags::access()),
        timestamps: vec![126, 2, 17, 10, 30, 0, 0, 126, 2],
    })];
    let ts = RripMetadata::from_fields(&fields).timestamps.unwrap();
    assert_eq!(ts.modify.unwrap().day, 17);
    assert_eq!(ts.access, None);
}

#[test]
fn names_in_utf8_are_text() {
    let name = |bytes: &[u8]| {
        RripMetadata::from_fields(&vec![SystemUseField::AlternateName(NmEntry {
            flags: NmFlags::empty(),
            name: bytes.to_vec(),
        })])
        .alternate_name
    };
    assert_eq!(name("Zoë".as_bytes()).as_deref(), Some("Zoë"));
    assert_eq!(name(&[0x5A, 0xFF]), None);
    assert!(RripMetadata::from_fields(&Vec::new()).alternate_name.is_none());
}

#[test]
fn written_fields_are_read_back() {
    let mut builder = RripBuilder::new();
    builder.add_sp(0);
    builder.add_px(0o100644, 1, 1000, 100, 7);
    let modified = [126, 2, 17, 10, 30, 5, 0];
    let accessed = [126, 2, 18, 11, 31, 6, 0];
    builder.add_tf(None, &modified, &accessed);
    let long = "n".repeat(300);
    builder.add_nm(long.as_bytes());
    builder.add_sl("/usr/../lib/./libfoo.so");
    builder.add_pn(8, 1);
    let split = builder.build_split(2000);
    assert!(!split.has_overflow());

    let fields = read_fields(&split.inline, 0);
    assert!(matches!(
        fields[0],
        SystemUseField::SuspIdentifier { bytes_skipped: 0 }
    ));
    assert!(fields
        .iter()
        .any(|f| matches!(f, SystemUseField::DeviceNumber(pn) if pn.high == 8 && pn.low == 1)));
    let meta = RripMetadata::from_fields(&fields);
    assert_eq!(meta.alternate_name.as_deref(), Some(long.as_str()));
    assert_eq!(
        meta.symlink_target.as_deref(),
        Some("/usr/../lib/./libfoo.so")
    );
    let px = meta.posix_attributes.unwrap();
    assert_eq!(px.file_mode, 0o100644);
    assert_eq!(px.file_links, 1);
    assert_eq!(px.file_uid, 1000);
    assert_eq!(px.file_gid, 100);
    assert_eq!(px.file_serial, Some(7));
    let ts = meta.timestamps.unwrap();
    assert_eq!(ts.creation, None);
    assert_eq!(ts.modify.unwrap().second, 5);
    assert_eq!(ts.access.unwrap().day, 18);
}

#[test]
fn fields_go_on_in_the_continuation_area() {
    let mut builder = RripBuilder::new();
    builder.add_px(0o100644, 1, 0, 0, 1);
    let long = "n".repeat(240);
    builder.add_nm(long.as_bytes());
    let mut split = builder.build_split(100);
    assert!(split.has_overflow());
    split.patch_ce(33, 4);

    let inline = read_fields(&split.inline, 0);
    assert_eq!(inline.len(), 2);
    match &inline[1] {
        SystemUseField::ContinuationArea(ce) => {
            assert_eq!(ce.sector, 33);
            assert_eq!(ce.offset, 4);
            assert_eq!(ce.length as usize, split.overflow.len());
        }
        other => panic!("expected CE entry, got {other:?}"),
    }
    let rest = RripMetadata::from_fields(&read_fields(&split.overflow, 0));
    assert_eq!(rest.alternate_name.as_deref(), Some(long.as_str()));
}

#[test]
fn reading_ends_at_a_cut_off_field() {
    assert!(read_fields(&[b'N', b'M', 9, 1, 0, b'a'], 0).is_empty());
    assert!(read_fields(&[b'N', b'M', 3, 1], 0).is_empty());
    assert!(read_fields(&[b'S', b'T', 4, 1, b'R', b'E', 4, 1], 0).is_empty());
    assert_eq!(read_fields(&[0, 0, b'R', b'E', 4, 1], 2).len(), 1);
    match &read_fields(&[b'Z', b'Z', 5, 1, 9], 0)[0] {
        SystemUseField::Unknown(header, payload) => {
            assert_eq!(header.sig, *b"ZZ");
            assert_eq!(payload, &vec![9]);
        }
        other => panic!("expected an unknown entry, got {other:?}"),
    }
}
