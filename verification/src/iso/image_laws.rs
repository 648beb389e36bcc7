//! How an image is put together: descriptors, tables, contents and their places.

#[allow(unused_imports)]
use crate::iso::boot::{boot_record_bytes, catalog_file_size, BootOptions, PlatformId};
#[allow(unused_imports)]
use crate::iso::boot_image::{overwritten, with_catalog};
#[allow(unused_imports)]
use crate::iso::chunk::{
    advanced, available, extent_data, file_data, Extent, FileChunkIterator, Place,
};
#[allow(unused_imports)]
use crate::iso::emit::{
    continuation_sector, entry_of, finished, overflow_bytes, packed, padded, with_contents,
    with_directory, write_dirs, write_files, write_step, zeros,
};
#[allow(unused_imports)]
use crate::iso::error::{IdentifierField, IsoCreationError};
#[allow(unused_imports)]
use crate::iso::estimator::{backup_len, estimate_total, needed_of, sectors, usual_of, whole, Stats};
#[allow(unused_imports)]
use crate::iso::extent::{align_up, extent_end, extent_list, extents_cover_the_file};
#[allow(unused_imports)]
use crate::iso::image::{
    data_start, descriptor_list, descriptors, finalized, image, image_body, input_with_catalog,
    layout, locations, with_path_tables, Laid, PathTableRef,
};
#[allow(unused_imports)]
use crate::iso::layout::{pack_end, place_record, record_bytes, record_size};
#[allow(unused_imports)]
use crate::iso::options::{
    entry_types_of, has_gpt, CreationFeatures, IsoFormatOptions, PartitionScheme,
};
#[allow(unused_imports)]
use crate::iso::partition::{
    boot_code, efi_path, esp_range, gpt_parts, hybrid_entries, mbr_bytes, mbr_entry, mirror_entries,
    mirrored, partitions, total_512, uefi_paths, volume_space, with_gpt, with_tables, PartitionView,
};
#[allow(unused_imports)]
use crate::iso::path_table::{path_table, EndianType};
#[allow(unused_imports)]
use crate::iso::plan::{
    contents_of, dir_end, dir_place, file_end, inode_step, pairs, plan_dirs, plan_files, plan_step,
    records_of, ref_map, with_file, with_refs,
};
#[allow(unused_imports)]
use crate::iso::records::{overflow_total, RecordView};
#[allow(unused_imports)]
use crate::iso::refmap::DirKey;
#[allow(unused_imports)]
use crate::iso::relocate::{data_files_in, preorder, relocated_root};
#[allow(unused_imports)]
use crate::iso::susp::ce_field;
#[allow(unused_imports)]
use crate::iso::tree::{first_error, relocates, EntryView, KindView};
#[allow(unused_imports)]
use crate::iso::types::{empty_ref, DirectoryRef, EntryType, LogicalSector, RripOptions};
#[allow(unused_imports)]
use crate::iso::usual_size::Usual;
#[allow(unused_imports)]
use crate::iso::volume::{
    enhanced_labels, joliet_labels, joliet_text, namespace_descriptor, parsed_text, primary_labels,
    spaced, terminator_bytes, volume_bytes, LabelsView, Location,
};
#[allow(unused_imports)]
use crate::iso::written::{
    dir_at, find_dir, find_name, find_parts, lookup_parts, new_dir, with_dir_at, with_entries,
    DirView, FileView,
};
use vstd::prelude::*;
#[allow(unused_imports)]
use vstd::utf8::encode_utf8;

verus! {

/// The texts of the primary descriptor are those of the options, each in its field; system,
/// publisher, preparer and application may hold the larger set of signs. What is not given stays
/// empty, but for the application.
pub proof fn primary_texts_are_those_of_the_options(ops: IsoFormatOptions)
    ensures
        primary_labels(ops) matches Ok(l) ==> {
            let strict = ops.strict_charset;
            &&& parsed_text(ops.volume_name@, strict, false, 32, IdentifierField::VolumeName)
                == Ok::<Seq<u8>, IsoCreationError>(l.volume)
            &&& ops.system_id matches Some(t) ==> parsed_text(
                t@,
                strict,
                true,
                32,
                IdentifierField::System,
            ) == Ok::<Seq<u8>, IsoCreationError>(l.system)
            &&& ops.volume_set_id matches Some(t) ==> parsed_text(
                t@,
                strict,
                false,
                128,
                IdentifierField::VolumeSet,
            ) == Ok::<Seq<u8>, IsoCreationError>(l.volume_set)
            &&& ops.publisher_id matches Some(t) ==> parsed_text(
                t@,
                strict,
                true,
                128,
                IdentifierField::Publisher,
            ) == Ok::<Seq<u8>, IsoCreationError>(l.publisher)
            &&& ops.preparer_id matches Some(t) ==> parsed_text(
                t@,
                strict,
                true,
                128,
                IdentifierField::Preparer,
            ) == Ok::<Seq<u8>, IsoCreationError>(l.preparer)
            &&& ops.application_id matches Some(t) ==> parsed_text(
                t@,
                strict,
                true,
                128,
                IdentifierField::Application,
            ) == Ok::<Seq<u8>, IsoCreationError>(l.application)
            &&& ops.system_id is None ==> l.system == spaces(32)
            &&& ops.volume_set_id is None ==> l.volume_set == spaces(128)
            &&& ops.publisher_id is None ==> l.publisher == spaces(128)
            &&& ops.preparer_id is None ==> l.preparer == spaces(128)
            &&& ops.application_id is None ==> l.application == encode_utf8("HADRIS-ISO"@) + spaces(
                128 - encode_utf8("HADRIS-ISO"@).len(),
            )
            &&& l.files == spaces(111)
        },
        primary_labels(ops) matches Err(e) ==> e is Identifier,
{
    empty_text_is_spaces(32);
    empty_text_is_spaces(128);
    empty_text_is_spaces(111);
    let name = encode_utf8("HADRIS-ISO"@);
    assert(spaced(name, 128) =~= name + spaces(128 - name.len()));
}

/// So many spaces.
pub open spec fn spaces(n: int) -> Seq<u8> {
    Seq::new(n as nat, |i: int| ' ' as u8)
}

proof fn empty_text_is_spaces(n: int)
    requires
        0 <= n,
    ensures
        spaced(encode_utf8(Seq::empty()), n) == spaces(n),
        spaced(Seq::empty(), n) == spaces(n),
{
    assert(encode_utf8(Seq::<char>::empty()).len() == 0) by {
        vstd::utf8::is_ascii_chars_encode_utf8(Seq::<char>::empty());
    }
    assert(spaced(encode_utf8(Seq::empty()), n) =~= spaces(n));
    assert(spaced(Seq::empty(), n) =~= spaces(n));
}

/// The texts of a Joliet descriptor are those of the options; nothing is refused.
pub proof fn joliet_texts_are_those_of_the_options(ops: IsoFormatOptions)
    ensures
        ({
            let l = joliet_labels(ops);
            &&& l.volume == joliet_text(ops.volume_name@, 16)
            &&& ops.system_id matches Some(t) ==> l.system == joliet_text(t@, 16)
            &&& ops.volume_set_id matches Some(t) ==> l.volume_set == joliet_text(t@, 64)
            &&& ops.publisher_id matches Some(t) ==> l.publisher == joliet_text(t@, 64)
            &&& ops.preparer_id matches Some(t) ==> l.preparer == joliet_text(t@, 64)
            &&& ops.application_id matches Some(t) ==> l.application == joliet_text(t@, 64)
            &&& ops.system_id is None ==> l.system == joliet_text(Seq::empty(), 16)
            &&& ops.volume_set_id is None ==> l.volume_set == joliet_text(Seq::empty(), 64)
            &&& ops.publisher_id is None ==> l.publisher == joliet_text(Seq::empty(), 64)
            &&& ops.preparer_id is None ==> l.preparer == joliet_text(Seq::empty(), 64)
            &&& ops.application_id is None ==> l.application == joliet_text("HADRIS-ISO"@, 64)
            &&& l.files == joliet_text(Seq::empty(), 55).push(0)
        }),
{
}

/// The descriptor of a namespace: kind 1 for the base one; kind 2 with version 2 for long names,
/// and with the escapes of its level for Joliet.
pub proof fn namespaces_have_their_descriptors(ops: IsoFormatOptions, ty: EntryType, at: Location)
    ensures
        match ty {
            EntryType::Level3 { .. } => match parsed_text(
                ops.volume_name@,
                ops.strict_charset,
                false,
                32,
                IdentifierField::VolumeName,
            ) {
                Ok(volume) => namespace_descriptor(ops, ty, at) == Ok::<Seq<u8>, IsoCreationError>(
                    volume_bytes(
                        2,
                        2,
                        spaces(32),
                        LabelsView {
                            system: spaces(32),
                            volume,
                            volume_set: spaces(128),
                            publisher: spaces(128),
                            preparer: spaces(128),
                            application: encode_utf8("HADRIS-ISO"@) + spaces(
                                128 - encode_utf8("HADRIS-ISO"@).len(),
                            ),
                            files: spaces(111),
                        },
                        at,
                    ),
                ),
                Err(e) => namespace_descriptor(ops, ty, at) == Err::<Seq<u8>, IsoCreationError>(e),
            },
            EntryType::Joliet { level, .. } => namespace_descriptor(ops, ty, at) == Ok::<
                Seq<u8>,
                IsoCreationError,
            >(volume_bytes(2, 1, level.escape_seq(), joliet_labels(ops), at)),
            _ => match primary_labels(ops) {
                Ok(labels) => namespace_descriptor(ops, ty, at) == Ok::<Seq<u8>, IsoCreationError>(
                    volume_bytes(1, 1, zeros(32), labels, at),
                ),
                Err(e) => namespace_descriptor(ops, ty, at) == Err::<Seq<u8>, IsoCreationError>(e),
            },
        },
{
    empty_text_is_spaces(32);
    empty_text_is_spaces(128);
    empty_text_is_spaces(111);
    let name = encode_utf8("HADRIS-ISO"@);
    assert(spaced(name, 128) =~= name + spaces(128 - name.len()));
}

/// The descriptors follow each other, one for each namespace in their order; the boot record comes
/// behind the first, and the terminator last.
pub proof fn descriptors_follow_each_other(
    ops: IsoFormatOptions,
    types: Seq<EntryType>,
    at: Seq<Location>,
    catalog: Option<u32>,
    n: int,
)
    requires
        1 <= n,
    ensures
        descriptor_list(ops, types, at, catalog, 0) == Ok::<Seq<u8>, IsoCreationError>(
            Seq::empty(),
        ),
        descriptor_list(ops, types, at, catalog, n - 1) matches Ok(before) ==> (
        namespace_descriptor(ops, types[n - 1], at[n - 1]) matches Ok(bytes) ==> {
            let r = descriptor_list(ops, types, at, catalog, n);
            &&& n == 1 ==> (catalog matches Some(sector) ==> r == Ok::<
                Seq<u8>,
                IsoCreationError,
            >(before + bytes + boot_record_bytes(sector)))
            &&& n > 1 || catalog is None ==> r == Ok::<Seq<u8>, IsoCreationError>(before + bytes)
        }),
        descriptor_list(ops, types, at, catalog, types.len() as int) matches Ok(list)
            ==> descriptors(ops, types, at, catalog) == Ok::<Seq<u8>, IsoCreationError>(
            list + terminator_bytes(),
        ),
{
}

/// The data begins behind the sixteen sectors that are left free, the descriptors of the
/// namespaces, the boot record and the terminator; where a later sector is asked for, there.
pub proof fn data_begins_behind_the_descriptors(
    types: Seq<EntryType>,
    boot: bool,
    sector: u32,
)
    ensures
        ({
            let behind = 2048 * (16 + types.len() + 1 + (if boot {
                1int
            } else {
                0
            }));
            &&& data_start(types, boot, None) == behind
            &&& 2048 * sector <= behind ==> data_start(types, boot, Some(sector)) == behind
            &&& 2048 * sector > behind ==> data_start(types, boot, Some(sector)) == 2048 * sector
        }),
{
}

/// What a descriptor says of the places: the root directory's, those of both path tables with their
/// length, and the sectors of the volume.
pub proof fn descriptors_know_the_places(
    root: DirView,
    types: Seq<EntryType>,
    tables: Seq<PathTableRef>,
    space: u32,
    i: int,
)
    requires
        0 <= i < types.len(),
    ensures
        ({
            let at = locations(root, types, tables, space);
            &&& at.len() == types.len()
            &&& at[i].volume_space == space
            &&& at[i].path_table_size == tables[i].size as u32
            &&& at[i].lpt == tables[i].lpt.0 as u32
            &&& at[i].mpt == tables[i].mpt.0 as u32
            &&& root.entries.dom().contains(types[i]) ==> at[i].root == root.entries[types[i]]
        }),
{
}

/// The path tables of each namespace follow the data, each from a sector on: first the one with the
/// low byte first, then the other, of which the places are kept.
pub proof fn path_tables_follow_the_data(
    root: DirView,
    types: Seq<EntryType>,
    ty: EntryType,
    data: Seq<u8>,
)
    ensures
        with_path_tables(root, Seq::empty(), data) == Ok::<
            (Seq<u8>, Seq<PathTableRef>),
            IsoCreationError,
        >((data, Seq::empty())),
        with_path_tables(root, types, data) matches Ok((before, refs)) ==> (path_table(
            root,
            ty,
            EndianType::LittleEndian,
        ) matches Ok(l) ==> (path_table(root, ty, EndianType::BigEndian) matches Ok(m) ==> (
        with_path_tables(root, types.push(ty), data) matches Ok((after, more)) && after == padded(
            padded(padded(padded(before) + l)) + m,
        ) && more.len() == refs.len() + 1 && more.drop_last() == refs && more.last().size
            == l.len() as u64 && more.last().lpt.0 == (padded(before).len() / 2048) as usize
            && more.last().mpt.0 == (padded(padded(padded(before) + l)).len() / 2048) as usize))),
{
    assert(types.push(ty).drop_last() =~= types);
    if let Ok((before, refs)) = with_path_tables(root, types, data) {
        if let Ok((after, more)) = with_path_tables(root, types.push(ty), data) {
            assert(more.drop_last() =~= refs);
        }
    }
}

/// Records are packed one behind the other, with zeros where the next sector is begun; what does
/// not fit into the records lies behind the directory, in the order of the records.
pub proof fn records_are_packed(records: Seq<RecordView>, r: RecordView, time: Seq<u8>)
    ensures
        packed(Seq::empty(), time) == Seq::<u8>::empty(),
        ({
            let before = packed(records, time);
            let at = place_record(before.len() as int, record_size(r), 2048);
            packed(records.push(r), time) == before + zeros(at - before.len()) + record_bytes(
                r,
                time,
            )
        }),
        overflow_bytes(Seq::empty()) == Seq::<u8>::empty(),
        overflow_bytes(records.push(r)) == overflow_bytes(records) + r.overflow,
        overflow_total(Seq::empty()) == 0,
        overflow_total(records.push(r)) == overflow_total(records) + r.overflow.len(),
{
    assert(records.push(r).drop_last() =~= records);
}

/// A record is finished when its directory has a place: the first record points to the directory
/// itself, the second to its parent, and where data goes on, the last field says in which sector
/// behind the directory, how far behind its start and how much.
pub proof fn finished_records_know_their_places(
    records: Seq<RecordView>,
    i: int,
    own: DirectoryRef,
    parent: DirectoryRef,
)
    requires
        0 <= i < records.len(),
        own.size % 2048 == 0,
        own.extent.0 + own.size / 2048 <= u32::MAX,
    ensures
        ({
            let sector = (own.extent.0 + own.size / 2048) as u32;
            let r = finished(records, own, parent, continuation_sector(own))[i];
            let old = records[i];
            &&& r.name == old.name && r.flags == old.flags && r.overflow == old.overflow
            &&& old.name == seq![0u8] ==> r.dir_ref == own
            &&& old.name == seq![1u8] ==> r.dir_ref == parent
            &&& old.name.len() != 1 ==> r.dir_ref == old.dir_ref
            &&& old.name.len() == 1 && old.name[0] > 1 ==> r.dir_ref == old.dir_ref
            &&& old.overflow.len() == 0 ==> r.inline == old.inline
            &&& old.overflow.len() > 0 ==> r.inline == old.inline.take(old.inline.len() - 28)
                + ce_field(
                sector,
                overflow_total(records.take(i)) as u32,
                old.overflow.len() as u32,
            )
        }),
{
    let (zero, one) = (seq![0u8], seq![1u8]);
    assert(zero.len() == 1 && one.len() == 1 && zero[0] == 0 && one[0] == 1);
    assert(zero != one);
}

/// A directory lies from the next sector on and takes whole sectors.
pub proof fn directories_take_whole_sectors(cursor: int, records: Seq<RecordView>)
    requires
        0 <= cursor,
        dir_end(cursor, records) <= usize::MAX,
        0 <= pack_end(align_up(cursor, 2048), records, 2048) - align_up(cursor, 2048),
    ensures
        ({
            let start = align_up(cursor, 2048);
            let place = dir_place(cursor, records);
            &&& 2048 * place.extent.0 == start
            &&& place.size % 2048 == 0
            &&& place.size - 2048 < pack_end(start, records, 2048) - start <= place.size
        }),
{
    crate::iso::extent::align_up_bounds(cursor, 2048);
    let start = align_up(cursor, 2048);
    let end = pack_end(start, records, 2048);
    crate::iso::extent::align_up_bounds(end, 2048);
}

/// A file's contents lie from the next sector on, where that is the planned one; a file without
/// contents takes nothing.
pub proof fn contents_begin_a_sector(data: Seq<u8>, contents: Seq<u8>, place: DirectoryRef)
    ensures
        contents.len() == 0 ==> with_contents(data, contents, place) == Ok::<
            Seq<u8>,
            IsoCreationError,
        >(data),
        contents.len() > 0 && padded(data).len() / 2048 == place.extent.0 ==> with_contents(
            data,
            contents,
            place,
        ) == Ok::<Seq<u8>, IsoCreationError>(padded(data) + contents),
        contents.len() > 0 && padded(data).len() / 2048 != place.extent.0 ==> with_contents(
            data,
            contents,
            place,
        ) == Err::<Seq<u8>, IsoCreationError>(IsoCreationError::ExtentPrediction),
{
}

/// Data is filled up with zeros to the next whole sector.
pub proof fn data_is_filled_with_zeros(data: Seq<u8>, i: int)
    requires
        0 <= i < padded(data).len(),
    ensures
        padded(data).len() % 2048 == 0,
        data.len() <= padded(data).len() < data.len() + 2048,
        padded(data)[i] == (if i < data.len() {
            data[i]
        } else {
            0
        }),
{
    crate::iso::emit::padded_is_aligned(data);
}

/// A chunk is as long as was asked for, and the last one as what is left.
pub proof fn chunks_are_as_long_as_asked<'a, const N: usize>(r: FileChunkIterator<'a, N>)
    requires
        0 <= r.left(),
    ensures
        r.left() >= N ==> r.next_len() == N,
        r.left() < N ==> r.next_len() == r.left(),
{
}

/// A path leads from directory to directory; a directory that is put in a place is found there, and
/// what lies beside the path stays.
pub proof fn directories_are_replaced_in_place(
    root: DirView,
    first: usize,
    rest: Seq<usize>,
    new: DirView,
    i: int,
)
    requires
        0 <= first < root.dirs.len(),
        0 <= i < root.dirs.len(),
    ensures
        dir_at(root, Seq::empty()) == root,
        dir_at(root, seq![first] + rest) == dir_at(root.dirs[first as int], rest),
        with_dir_at(root, Seq::empty(), new) == new,
        ({
            let r = with_dir_at(root, seq![first] + rest, new);
            &&& r.files == root.files && r.name == root.name && r.entries == root.entries
            &&& r.dirs.len() == root.dirs.len()
            &&& r.dirs[i] == (if i == first {
                with_dir_at(root.dirs[i], rest, new)
            } else {
                root.dirs[i]
            })
        }),
{
    assert((seq![first] + rest).drop_first() =~= rest);
}

/// The data of an extent is that many bytes from its sector on; a file's is that of its extents.
pub proof fn extents_hold_the_data(image: Seq<u8>, extents: Seq<Extent>, e: Extent, i: int)
    requires
        0 <= i < e.length,
    ensures
        extent_data(image, e).len() == e.length,
        extent_data(image, e)[i] == image[2048 * e.sector.0 + i],
        file_data(image, Seq::empty()) == Seq::<u8>::empty(),
        file_data(image, extents.push(e)) == file_data(image, extents) + extent_data(image, e),
{
    assert(extents.push(e).drop_last() =~= extents);
}

/// Reading goes to the end of an extent and on with the next.
pub proof fn reading_goes_from_extent_to_extent(extents: Seq<Extent>, at: Place, n: int)
    requires
        0 <= at.extent < extents.len(),
        0 <= at.offset <= extents[at.extent].length,
        0 <= n,
    ensures
        ({
            let left = extents[at.extent].length - at.offset;
            &&& n <= left ==> available(extents, at, n) == n
            &&& n > left ==> available(extents, at, n) == left
            &&& n < left ==> advanced(extents, at, n) == (Place {
                extent: at.extent,
                offset: at.offset + n,
            })
            &&& n >= left ==> advanced(extents, at, n) == (Place { extent: at.extent + 1, offset: 0 })
        }),
{
}

/// Which image the system partition holds: the one that is named; else the one image of the
/// catalog that is for UEFI, where there is one only.
pub proof fn the_system_partition_holds_an_image(
    features: CreationFeatures,
    boot: BootOptions,
    n: int,
)
    requires
        0 < n <= boot.entries@.len(),
    ensures
        features.hybrid_boot is None ==> efi_path(features) is None,
        features.hybrid_boot matches Some(h) ==> {
            &&& h.efi_boot_partition matches Some(path) ==> efi_path(features) == Some(path@)
            &&& h.efi_boot_partition is None && features.el_torito is None ==> efi_path(features)
                is None
            &&& h.efi_boot_partition is None ==> (features.el_torito matches Some(b) ==> {
                let paths = uefi_paths(b, b.entries@.len() as int);
                &&& paths.len() == 1 ==> efi_path(features) == Some(paths[0])
                &&& paths.len() != 1 ==> efi_path(features) is None
            })
        },
        uefi_paths(boot, 0) == Seq::<Seq<char>>::empty(),
        boot.entries@[n - 1].0.platform == PlatformId::UEFI ==> uefi_paths(boot, n) == uefi_paths(
            boot,
            n - 1,
        ).push(boot.entries@[n - 1].1.boot_image_path@),
        boot.entries@[n - 1].0.platform != PlatformId::UEFI ==> uefi_paths(boot, n) == uefi_paths(
            boot,
            n - 1,
        ),
{
}

/// The system partition is the image's place in sectors of 512 bytes, at least one; it must lie
/// behind the first 64 sectors and within the data.
pub proof fn the_system_partition_is_the_images_place(
    root: DirView,
    features: CreationFeatures,
    end: int,
)
    ensures
        efi_path(features) is None ==> esp_range(root, features, end) == Ok::<
            Option<(u64, u64)>,
            IsoCreationError,
        >(None),
        efi_path(features) matches Some(path) ==> match find_parts(root, lookup_parts(path)) {
            None => esp_range(root, features, end) == Err::<Option<(u64, u64)>, IsoCreationError>(
                IsoCreationError::EfiImageNotFound,
            ),
            Some(image) => match esp_range(root, features, end) {
                Ok(Some((first, last))) => image.extent.0 * 4 <= u64::MAX - image.size ==> {
                    &&& first == 4 * image.extent.0
                    &&& 64 <= first <= last <= end
                    &&& image.size == 0 ==> last == first
                    &&& image.size > 0 ==> 512 * (last - first) < image.size <= 512 * (last - first
                        + 1)
                },
                Ok(None) => false,
                Err(e) => e == IsoCreationError::EfiImageOutside && (4 * image.extent.0 < 64 || 512
                    * (end + 1 - 4 * image.extent.0) < image.size || 4 * image.extent.0 > end),
            },
        },
{
}

/// What a disk gets in front: nothing without a scheme; a table with one hidden partition of all
/// its data for the simple scheme; and else the table of GUIDs, protected by an entry over the
/// whole disk, or, on a hybrid disk, beside entries of its own.
pub proof fn disks_get_their_tables(root: DirView, ops: IsoFormatOptions, data: Seq<u8>)
    ensures
        ({
            let end = (data.len() / 2048) as int;
            let total = total_512(end);
            let r = with_tables(root, ops, data);
            match ops.features.hybrid_boot {
                None => r == Ok::<Seq<u8>, IsoCreationError>(data),
                Some(h) => match h.partition_scheme {
                    PartitionScheme::NoTable => r == Ok::<Seq<u8>, IsoCreationError>(data),
                    PartitionScheme::Mbr => r matches Ok(d) && d == mbr_bytes(
                        boot_code(h.mbr_bootstrap),
                        mbr_entry(h.bootable, 0x17, 0, (4 * end) as u32),
                    ) + data.skip(
                        mbr_bytes(
                            boot_code(h.mbr_bootstrap),
                            mbr_entry(h.bootable, 0x17, 0, (4 * end) as u32),
                        ).len() as int,
                    ),
                    PartitionScheme::Gpt => match gpt_parts(root, ops, end) {
                        Ok(parts) => r == Ok::<Seq<u8>, IsoCreationError>(
                            with_gpt(
                                data,
                                mbr_bytes(
                                    zeros(446),
                                    mbr_entry(
                                        false,
                                        0xEE,
                                        1,
                                        if total > 0x100000000 {
                                            0xFFFFFFFF
                                        } else {
                                            (total - 1) as u32
                                        },
                                    ),
                                ),
                                parts,
                                ops.volume_name@,
                            ),
                        ),
                        Err(e) => r == Err::<Seq<u8>, IsoCreationError>(e),
                    },
                    PartitionScheme::Hybrid => match gpt_parts(root, ops, end) {
                        Ok(parts) => match hybrid_entries(parts, h.bootable) {
                            Ok(entries) => r == Ok::<Seq<u8>, IsoCreationError>(
                                with_gpt(
                                    data,
                                    mbr_bytes(boot_code(h.mbr_bootstrap), entries),
                                    parts,
                                    ops.volume_name@,
                                ),
                            ),
                            Err(e) => r == Err::<Seq<u8>, IsoCreationError>(e),
                        },
                        Err(e) => r == Err::<Seq<u8>, IsoCreationError>(e),
                    },
                },
            }
        }),
{
    let end = (data.len() / 2048) as int;
    if let Some(h) = ops.features.hybrid_boot {
        let m = mbr_bytes(
            boot_code(h.mbr_bootstrap),
            mbr_entry(h.bootable, 0x17, 0, (end * 4) as u32),
        );
        assert(overwritten(data, 0, m) =~= m + data.skip(m.len() as int));
    }
}

/// The partitions cover the data in sectors of 512 bytes; with too little data there are none. A
/// hybrid disk's first entry protects what lies before the first partition that is shown.
pub proof fn partitions_cover_the_data(
    root: DirView,
    ops: IsoFormatOptions,
    end: int,
    parts: Seq<PartitionView>,
    p: PartitionView,
    bootable: bool,
)
    ensures
        4 * end <= 65 ==> gpt_parts(root, ops, end) == Err::<Seq<PartitionView>, IsoCreationError>(
            IsoCreationError::GptTooSmall,
        ),
        4 * end > 65 ==> match esp_range(root, ops.features, 4 * end - 1) {
            Ok(esp) => gpt_parts(root, ops, end) == Ok::<Seq<PartitionView>, IsoCreationError>(
                partitions(esp, (4 * end - 1) as u64, ops.volume_name@),
            ),
            Err(e) => gpt_parts(root, ops, end) == Err::<Seq<PartitionView>, IsoCreationError>(e),
        },
        mirror_entries(Seq::empty(), bootable) == Seq::<u8>::empty(),
        mirror_entries(parts.push(p), bootable) == mirror_entries(parts, bootable)
            + crate::iso::partition::mirror_entry(p, bootable),
        (forall|i: int| 0 <= i < mirrored(parts).len() ==> (#[trigger] mirrored(parts)[i]).last
            <= 0xFFFFFFFF) ==> hybrid_entries(parts, bootable) == Ok::<Seq<u8>, IsoCreationError>(
            mbr_entry(false, 0xEE, 1, (mirrored(parts)[0].first - 1) as u32) + mirror_entries(
                mirrored(parts),
                bootable,
            ),
        ),
        (exists|i: int| 0 <= i < mirrored(parts).len() && (#[trigger] mirrored(parts)[i]).last
            > 0xFFFFFFFF) ==> hybrid_entries(parts, bootable) == Err::<Seq<u8>, IsoCreationError>(
            IsoCreationError::HybridMbr,
        ),
{
    assert(parts.push(p).drop_last() =~= parts);
    let shown = mirrored(parts);
    assert forall|i: int| 0 <= i < shown.len() implies (crate::iso::partition::mirror_fits(
        #[trigger] shown[i],
    ) <==> shown[i].last <= 0xFFFFFFFF) by {}
}

/// Sectors are counted up: the fewest that hold the bytes.
pub proof fn sectors_are_counted_up(bytes: int, s: int)
    requires
        0 <= bytes,
        0 < s,
    ensures
        (sectors(bytes, s) - 1) * s < bytes <= sectors(bytes, s) * s,
        whole(bytes, s) == sectors(bytes, s) * s,
{
    vstd::arithmetic::div_mod::lemma_fundamental_div_mod(bytes, s);
    let (q, r) = (bytes / s, bytes % s);
    assert(q * s == s * q && (q + 1) * s == s * q + s && (q - 1) * s == s * q - s)
        by (nonlinear_arith);
}

/// What an estimate consists of in any case: sixteen sectors, the descriptors, the files' contents
/// in whole sectors, the catalog and the copy of the partition table.
pub proof fn estimates_have_their_parts(
    stats: Stats,
    usual: Usual,
    features: CreationFeatures,
)
    ensures
        ({
            let (a, b) = (needed_of(stats, features, 2048), usual_of(stats, usual, features, 2048));
            let n = 2 + (if features.el_torito is Some {
                1int
            } else {
                0
            }) + (if features.long_filenames {
                1int
            } else {
                0
            }) + (if features.joliet is Some {
                1int
            } else {
                0
            });
            let copy = if has_gpt(features) {
                9 * 2048int
            } else {
                0
            };
            &&& a.0 == 16 * 2048 && b.0 == 16 * 2048
            &&& a.1 == 2048 * n && b.1 == 2048 * n
            &&& a.5 == stats.file_bytes && b.5 == stats.file_bytes
            &&& features.el_torito is None ==> a.6 == 0 && b.6 == 0
            &&& features.el_torito matches Some(boot) ==> a.6 == whole(
                96 + 64 * (boot.entries@.len() as int),
                2048,
            ) && b.6 == 2048
            &&& a.7 == copy && b.7 == copy
            &&& estimate_total(a) == a.0 + a.1 + a.2 + a.3 + a.4 + a.5 + a.6 + a.7
        }),
{
    let (k, per) = (sectors(33, 2048int / 512), 2048int / 512);
    assert(k == 9 && per == 4);
    assert(k * per * 512 == 9 * 2048) by (nonlinear_arith)
        requires
            k == 9,
            per == 4,
    ;
    assert(backup_len(features, 2048) == (if has_gpt(features) {
        9 * 2048int
    } else {
        0
    }));
    assert(whole(0, 2048) == 0);
}

/// The file for the catalog is added to the input where it is wanted, filled with zeros: one place
/// before the first directory, or in front where there is no place before it.
pub proof fn the_catalog_gets_a_file(tree: Seq<EntryView>, boot: Option<BootOptions>, d: int)
    requires
        0 <= d < tree.len(),
        tree[d].kind is Directory,
        forall|j: int| 0 <= j < d ==> !((#[trigger] tree[j]).kind is Directory),
    ensures
        boot is None ==> input_with_catalog(tree, boot) == tree,
        boot matches Some(b) ==> {
            let more = input_with_catalog(tree, boot);
            let i = if d > 0 {
                d - 1
            } else {
                0
            };
            &&& !b.write_boot_catalog ==> more == tree
            &&& b.write_boot_catalog ==> {
                &&& more.len() == tree.len() + 1
                &&& more[i].name == "boot.catalog"@
                &&& more[i].kind == KindView::File(
                    zeros(catalog_file_size(b.entries@.len() as int)),
                )
                &&& more.remove(i) == tree
            }
        },
{
    crate::iso::size_laws::the_first_directory_is_found(tree, d);
    if let Some(b) = boot {
        if b.write_boot_catalog {
            let i = if d > 0 {
                d - 1
            } else {
                0
            };
            let more = input_with_catalog(tree, boot);
            assert(more.remove(i) =~= tree);
        }
    }
}

/// A directory is written from the next sector on, its records and then what goes on behind them,
/// where that is the place and the size that were planned.
pub proof fn directories_are_written_where_planned(
    data: Seq<u8>,
    records: Seq<RecordView>,
    own: DirectoryRef,
    parent: DirectoryRef,
    time: Seq<u8>,
)
    requires
        overflow_total(records) <= u64::MAX,
    ensures
        ({
            let fin = finished(records, own, parent, continuation_sector(own));
            let body = padded(packed(fin, time));
            let met = padded(data).len() / 2048 == own.extent.0 && body.len() == own.size;
            &&& met ==> with_directory(data, records, own, parent, time) == Ok::<
                Seq<u8>,
                IsoCreationError,
            >(padded(data) + body + overflow_bytes(fin))
            &&& !met ==> with_directory(data, records, own, parent, time) == Err::<
                Seq<u8>,
                IsoCreationError,
            >(IsoCreationError::DirectoryPrediction)
        }),
{
    reveal(with_directory);
}

/// A file that is planned gets the extents from the cursor on: the first in its entry, the others
/// behind it. Nothing else of the tree changes but the cursor.
pub proof fn planned_files_get_their_extents(root: DirView, f: usize, cursor: int)
    requires
        0 <= f < root.files.len(),
        0 <= cursor,
    ensures
        ({
            let at = (Seq::<usize>::empty(), f);
            let len = contents_of(root.files[f as int].kind).len() as int;
            let list = extent_list(len, cursor, 2048);
            let new = with_file(root, at, cursor);
            &&& new.dirs == root.dirs
            &&& new.files.len() == root.files.len()
            &&& forall|i: int|
                0 <= i < root.files.len() && i != f ==> #[trigger] new.files[i] == root.files[i]
            &&& new.files[f as int].name == root.files[f as int].name
            &&& new.files[f as int].kind == root.files[f as int].kind
            &&& len > 0 ==> seq![new.files[f as int].entry]
                + new.files[f as int].additional_extents == list
            &&& len == 0 ==> new.files[f as int].additional_extents.len() == 0
                && new.files[f as int].entry == (DirectoryRef {
                extent: LogicalSector(0),
                size: 0,
            })
            &&& file_end(root, at, cursor) == extent_end(len, cursor, 2048)
        }),
{
    let len = contents_of(root.files[f as int].kind).len() as int;
    let list = extent_list(len, cursor, 2048);
    extents_cover_the_file(len, cursor, 2048);
    if len > 0 {
        assert(seq![list[0]] + list.drop_first() =~= list);
    }
}

/// Each directory is written in each namespace, one after the other.
pub proof fn every_directory_is_written_in_each_namespace(
    paths: Seq<Seq<usize>>,
    path: Seq<usize>,
    types: Seq<EntryType>,
    j: int,
)
    requires
        0 <= j < types.len(),
    ensures
        pairs(Seq::empty(), types).len() == 0,
        pairs(paths.push(path), types).len() == pairs(paths, types).len() + types.len(),
        pairs(paths.push(path), types)[pairs(paths, types).len() + j] == (path, types[j]),
        pairs(paths.push(path), types).take(pairs(paths, types).len() as int) == pairs(paths, types),
{
    assert(paths.push(path).drop_last() =~= paths);
    assert(pairs(paths.push(path), types).take(pairs(paths, types).len() as int) =~= pairs(
        paths,
        types,
    ));
}

/// The last steps: the catalog is written, the data is filled up to whole sectors, the descriptors
/// go to sector 16, and the disk gets its tables.
pub proof fn images_are_finished(
    data: Seq<u8>,
    root: DirView,
    tables: Seq<PathTableRef>,
    ops: IsoFormatOptions,
    types: Seq<EntryType>,
)
    ensures
        ({
            let r = finalized(data, root, tables, ops, types);
            let booted = match ops.features.el_torito {
                None => Ok::<(Seq<u8>, u32), IsoCreationError>((data, 0)),
                Some(boot) => with_catalog(root, boot, data),
            };
            match booted {
                Err(e) => r == Err::<Seq<u8>, IsoCreationError>(e),
                Ok((all, sector)) => {
                    let whole = padded(all);
                    let catalog = if ops.features.el_torito is Some {
                        Some(sector)
                    } else {
                        None
                    };
                    let space = volume_space(ops.features, (whole.len() / 2048) as int);
                    &&& whole.len() >= 0x4000_0000_0000_0000 ==> r == Err::<
                        Seq<u8>,
                        IsoCreationError,
                    >(IsoCreationError::TooLarge)
                    &&& whole.len() < 0x4000_0000_0000_0000 ==> match descriptors(
                        ops,
                        types,
                        locations(root, types, tables, space),
                        catalog,
                    ) {
                        Err(e) => r == Err::<Seq<u8>, IsoCreationError>(e),
                        Ok(list) => r == with_tables(
                            root,
                            ops,
                            overwritten(whole, 16int * 2048, list),
                        ),
                    }
                },
            }
        }),
{
}

/// The plan of an image: files are first laid out to know their extents, then the directories from
/// the start of the data on, numbered from 1, and at last the files behind them.
pub proof fn layouts_put_directories_first(
    root: DirView,
    types: Seq<EntryType>,
    rrip: Option<RripOptions>,
    time: Seq<u8>,
    start: int,
)
    ensures
        ({
            let jobs = pairs(preorder(root, Seq::empty()), types);
            let order = data_files_in(root, preorder(root, Seq::empty()));
            let none = Seq::new(jobs.len(), |i: int| empty_ref());
            plan_files(root, order, 0) matches Ok((sized, _)) ==> {
                let blank = with_refs(sized, jobs, none);
                match plan_dirs(blank, jobs, rrip, time, ref_map(blank, jobs, none), start, 1) {
                    Err(e) => layout(root, types, rrip, time, start) == Err::<
                        Laid,
                        IsoCreationError,
                    >(e),
                    Ok(p) => match plan_files(with_refs(blank, jobs, p.refs), order, p.cursor) {
                        Err(e) => layout(root, types, rrip, time, start) == Err::<
                            Laid,
                            IsoCreationError,
                        >(e),
                        Ok((full, end)) => layout(root, types, rrip, time, start) matches Ok(laid)
                            && laid.root == full && laid.end == end && laid.inode == p.inode
                            && laid.refs == ref_map(
                            with_refs(blank, jobs, p.refs),
                            jobs,
                            p.refs,
                        ),
                    },
                }
            }
        }),
{
}

/// Planning goes on directory by directory and file by file: each begins where the one before it
/// ends, with what goes on behind a directory counted.
pub proof fn plans_go_on_where_they_ended(
    root: DirView,
    jobs: Seq<(Seq<usize>, EntryType)>,
    job: (Seq<usize>, EntryType),
    rrip: Option<RripOptions>,
    time: Seq<u8>,
    refs: Map<DirKey, DirectoryRef>,
    cursor: int,
    inode: int,
)
    ensures
        plan_dirs(root, Seq::empty(), rrip, time, refs, cursor, inode) matches Ok(p) && p.cursor
            == cursor && p.inode == inode && p.refs.len() == 0,
        plan_dirs(root, jobs, rrip, time, refs, cursor, inode) matches Ok(p) ==> match records_of(
            dir_at(root, job.0),
            job.0.len() == 0,
            job.1,
            p.inode,
            rrip,
            time,
            refs,
        ) {
            Err(e) => plan_dirs(root, jobs.push(job), rrip, time, refs, cursor, inode) is Err,
            Ok(records) => {
                let end = dir_end(p.cursor, records) + overflow_total(records);
                &&& end + 2048 > usize::MAX ==> plan_dirs(
                    root,
                    jobs.push(job),
                    rrip,
                    time,
                    refs,
                    cursor,
                    inode,
                ) is Err
                &&& end + 2048 <= usize::MAX ==> (plan_dirs(
                    root,
                    jobs.push(job),
                    rrip,
                    time,
                    refs,
                    cursor,
                    inode,
                ) matches Ok(q) && q.cursor == end && q.refs == p.refs.push(
                    dir_place(p.cursor, records),
                ) && q.inode == p.inode + inode_step(dir_at(root, job.0), job.1, rrip))
            },
        },
{
    assert(jobs.push(job).drop_last() =~= jobs);
    reveal(plan_step);
}

/// Directories are written in the order of the plan, each with the records of its namespace, its own
/// place and its parent's; files behind them, each with its contents at its place.
pub proof fn directories_and_files_are_written(
    root: DirView,
    jobs: Seq<(Seq<usize>, EntryType)>,
    job: (Seq<usize>, EntryType),
    rrip: Option<RripOptions>,
    time: Seq<u8>,
    refs: Map<DirKey, DirectoryRef>,
    data: Seq<u8>,
    inode: int,
    order: Seq<(Seq<usize>, usize)>,
    file: (Seq<usize>, usize),
)
    ensures
        write_dirs(root, Seq::empty(), rrip, time, refs, data, inode) matches Ok(s) && s.data == data
            && s.inode == inode,
        write_dirs(root, jobs, rrip, time, refs, data, inode) matches Ok(s) ==> (records_of(
            dir_at(root, job.0),
            job.0.len() == 0,
            job.1,
            s.inode,
            rrip,
            time,
            refs,
        ) matches Ok(records) ==> {
            let above = if job.0.len() == 0 {
                job.0
            } else {
                job.0.drop_last()
            };
            match with_directory(
                s.data,
                records,
                entry_of(dir_at(root, job.0), job.1),
                entry_of(dir_at(root, above), job.1),
                time,
            ) {
                Err(e) => write_dirs(root, jobs.push(job), rrip, time, refs, data, inode) is Err,
                Ok(after) => write_dirs(root, jobs.push(job), rrip, time, refs, data, inode) matches
                    Ok(t) && t.data == after && t.inode == s.inode + inode_step(
                    dir_at(root, job.0),
                    job.1,
                    rrip,
                ),
            }
        }),
        write_files(root, Seq::empty(), data) == Ok::<Seq<u8>, IsoCreationError>(data),
        write_files(root, order, data) matches Ok(before) ==> {
            let f = dir_at(root, file.0).files[file.1 as int];
            write_files(root, order.push(file), data) == with_contents(
                before,
                contents_of(f.kind),
                f.entry,
            )
        },
{
    assert(jobs.push(job).drop_last() =~= jobs);
    assert(order.push(file).drop_last() =~= order);
    reveal(write_step);
}

/// The body of an image: what was planned is written from the start of the data on, zeros in front,
/// the directories first, then the files, then the path tables.
pub proof fn bodies_are_written_as_planned(
    root: DirView,
    ops: IsoFormatOptions,
    types: Seq<EntryType>,
    time: Seq<u8>,
    start: int,
)
    ensures
        layout(root, types, ops.features.rock_ridge, time, start) matches Ok(laid) ==> match write_dirs(
            laid.root,
            pairs(preorder(root, Seq::empty()), types),
            ops.features.rock_ridge,
            time,
            laid.refs,
            zeros(start),
            laid.inode,
        ) {
            Err(e) => image_body(root, ops, types, time, start) is Err,
            Ok(s) => match write_files(
                laid.root,
                data_files_in(root, preorder(root, Seq::empty())),
                s.data,
            ) {
                Err(e) => image_body(root, ops, types, time, start) is Err,
                Ok(data) => match with_path_tables(laid.root, types, data) {
                    Err(e) => image_body(root, ops, types, time, start) is Err,
                    Ok((after, tables)) => image_body(root, ops, types, time, start) matches Ok(b)
                        && b.0 == after && b.1 == laid.root && b.2 == tables,
                },
            },
        },
        layout(root, types, ops.features.rock_ridge, time, start) is Err ==> image_body(
            root,
            ops,
            types,
            time,
            start,
        ) is Err,
{
}

/// An image: sectors of other than 2048 bytes are refused, then the first entry that is not allowed,
/// the root being on level 1, then texts that do not fit; and else the image of the input with the
/// catalog's file, directories moved where that is asked for, behind the descriptors.
pub proof fn images_are_made_of_their_parts(
    tree: Seq<EntryView>,
    ops: IsoFormatOptions,
    floor: Option<u32>,
    time: Seq<u8>,
)
    ensures
        ({
            let r = image(tree, ops, floor, time);
            let rrip = ops.features.rock_ridge;
            let types = entry_types_of(ops.features);
            let boot = ops.features.el_torito;
            let input = input_with_catalog(tree, boot);
            let root = with_entries(new_dir(Seq::empty()), input, 1);
            let moved = if relocates(rrip) {
                relocated_root(root)
            } else {
                root
            };
            &&& ops.sector_size != 2048 ==> r == Err::<Seq<u8>, IsoCreationError>(
                IsoCreationError::SectorSize,
            )
            &&& ops.sector_size == 2048 ==> (first_error(tree, rrip, 1, 0) matches Some(e) ==> r
                == Err::<Seq<u8>, IsoCreationError>(e))
            &&& r is Ok ==> {
                &&& ops.sector_size == 2048
                &&& first_error(tree, rrip, 1, 0) is None
                &&& image_body(moved, ops, types, time, data_start(types, boot is Some, floor))
                    matches Ok((data, full, tables)) && r == finalized(
                    data,
                    full,
                    tables,
                    ops,
                    types,
                )
            }
        }),
{
    reveal(image);
}

/// The descriptor of the long names has the name of the volume and the application `HADRIS-ISO`; its
/// other texts are empty.
pub proof fn long_name_texts_are_few(ops: IsoFormatOptions)
    ensures
        enhanced_labels(ops) is Ok <==> parsed_text(
            ops.volume_name@,
            ops.strict_charset,
            false,
            32,
            IdentifierField::VolumeName,
        ) is Ok,
        enhanced_labels(ops) matches Ok(l) ==> {
            &&& parsed_text(
                ops.volume_name@,
                ops.strict_charset,
                false,
                32,
                IdentifierField::VolumeName,
            ) == Ok::<Seq<u8>, IsoCreationError>(l.volume)
            &&& l.application == spaced(encode_utf8("HADRIS-ISO"@), 128)
            &&& l.system == Seq::new(32, |i: int| 0x20u8)
            &&& l.volume_set == Seq::new(128, |i: int| 0x20u8)
            &&& l.publisher == Seq::new(128, |i: int| 0x20u8)
            &&& l.preparer == Seq::new(128, |i: int| 0x20u8)
            &&& l.files == Seq::new(111, |i: int| 0x20u8)
        },
{
}

/// A name is looked for in order: the first directory, and the first file, that has it is found, and
/// where none has it the number behind the last stands for that.
pub proof fn the_first_of_a_name_is_found(
    dirs: Seq<DirView>,
    files: Seq<FileView>,
    name: Seq<u8>,
)
    ensures
        0 <= find_dir(dirs, name) <= dirs.len(),
        find_dir(dirs, name) < dirs.len() ==> encode_utf8(dirs[find_dir(dirs, name)].name) == name,
        forall|j: int|
            0 <= j < find_dir(dirs, name) ==> encode_utf8((#[trigger] dirs[j]).name) != name,
        0 <= find_name(files, name) <= files.len(),
        find_name(files, name) < files.len() ==> encode_utf8(files[find_name(files, name)].name)
            == name,
        forall|j: int|
            0 <= j < find_name(files, name) ==> encode_utf8((#[trigger] files[j]).name) != name,
    decreases dirs.len() + files.len(),
{
    if dirs.len() > 0 || files.len() > 0 {
        let fewer = if dirs.len() > 0 {
            dirs.drop_first()
        } else {
            dirs
        };
        let less = if files.len() > 0 {
            files.drop_first()
        } else {
            files
        };
        the_first_of_a_name_is_found(fewer, less, name);
        assert forall|j: int| 0 <= j < find_dir(dirs, name) implies encode_utf8(
            (#[trigger] dirs[j]).name,
        ) != name by {
            if j > 0 {
                assert(fewer[j - 1] == dirs[j]);
            }
        }
        assert forall|j: int| 0 <= j < find_name(files, name) implies encode_utf8(
            (#[trigger] files[j]).name,
        ) != name by {
            if j > 0 {
                assert(less[j - 1] == files[j]);
            }
        }
    }
}

} // verus!
