//! What lies where in an image.

#[allow(unused_imports)]
use crate::iso::boot::{boot_record_bytes, BootOptions};
#[allow(unused_imports)]
use crate::iso::boot_image::{catalog_bytes, catalog_steps, overwritten, with_catalog};
#[allow(unused_imports)]
use crate::iso::boot_laws::{
    booting_keeps, booting_length, built_tree_is_unplaced, catalog_is_not_empty, catalog_lies,
    clear_of, is_patched, patched_file, steps_keep_length, unplaced,
};
#[allow(unused_imports)]
use crate::iso::chunk::{extent_data, file_data, Extent};
#[allow(unused_imports)]
use crate::iso::extent::{
    align_up, align_up_bounds, extent_end, extent_end_grows, extent_list, extent_size,
};
#[allow(unused_imports)]
use crate::iso::relocate::{data_files, data_files_in, has_data, preorder, preorder_children};
#[allow(unused_imports)]
use crate::iso::emit::{
    continuation_sector, entry_of, finished, overflow_bytes, packed, padded, padded_is_aligned,
    parent_path, with_directory, write_dirs, write_files, write_step, zeros,
};
#[allow(unused_imports)]
use crate::iso::error::IsoCreationError;
#[allow(unused_imports)]
use crate::iso::image::{
    built_tree, data_start, descriptor_list, descriptor_sectors, descriptors, descriptors_len,
    finalized, image, image_body, input_with_catalog, jobs_of, layout, locations, order_of,
    table_end, with_path_tables, with_table, Laid, PathTableRef,
};
#[allow(unused_imports)]
use crate::iso::options::{entry_types_of, IsoFormatOptions, PartitionScheme};
#[allow(unused_imports)]
use crate::iso::partition::{
    boot_code, crc_of, data_prefix, disk_prefix, esp_prefix, gpt_array, gpt_entries_len, gpt_head,
    gpt_header, gpt_parts, guid_of, mbr_bytes, mbr_entry, named_guid, total_512, volume_space,
    with_gpt, with_tables,
};
#[allow(unused_imports)]
use crate::iso::path_table::{path_table, EndianType};
#[allow(unused_imports)]
use crate::iso::plan::{contents_of, records_of};
#[allow(unused_imports)]
use crate::iso::plan_laws::{
    all_extents, built_tree_is_countable, countable, countable_at, namespaces_differ,
    placed_extents, preorder_is_distinct, work_is_distinct,
};
#[allow(unused_imports)]
use crate::iso::records::RecordView;
#[allow(unused_imports)]
use crate::iso::refmap::DirKey;
#[allow(unused_imports)]
use crate::iso::tree::{list_events, EntryView};
#[allow(unused_imports)]
use crate::iso::types::{DirectoryRef, EntryType, RripOptions};
#[allow(unused_imports)]
use crate::iso::volume::{namespace_descriptor, Location};
#[allow(unused_imports)]
use crate::iso::written::{dir_at, valid_path, DirView, FileView};
use vstd::prelude::*;

verus! {

/// Whether `b` starts with `a`.
pub open spec fn starts_with(b: Seq<u8>, a: Seq<u8>) -> bool {
    a.len() <= b.len() && b.take(a.len() as int) == a
}

/// Whether the bytes lie at a place.
pub open spec fn lies_at(data: Seq<u8>, at: int, bytes: Seq<u8>) -> bool {
    0 <= at && at + bytes.len() <= data.len() && data.subrange(at, at + bytes.len()) == bytes
}

proof fn starts_with_itself(a: Seq<u8>)
    ensures
        starts_with(a, a),
{
    assert(a.take(a.len() as int) =~= a);
}

proof fn starts_with_more(c: Seq<u8>, b: Seq<u8>, a: Seq<u8>)
    requires
        starts_with(c, b),
        starts_with(b, a),
    ensures
        starts_with(c, a),
{
    assert(c.take(a.len() as int) =~= c.take(b.len() as int).take(a.len() as int));
}

/// Bytes put behind others leave them in front.
pub proof fn join_starts_with(a: Seq<u8>, b: Seq<u8>)
    ensures
        starts_with(a + b, a),
{
    assert((a + b).take(a.len() as int) =~= a);
}

/// Filling up leaves the bytes in front.
pub proof fn padded_starts_with(a: Seq<u8>)
    ensures
        starts_with(padded(a), a),
{
    padded_is_aligned(a);
}

/// What lies in the front part lies in the whole.
pub proof fn still_lies(b: Seq<u8>, a: Seq<u8>, at: int, bytes: Seq<u8>)
    requires
        starts_with(b, a),
        lies_at(a, at, bytes),
    ensures
        lies_at(b, at, bytes),
{
    assert(b.subrange(at, at + bytes.len()) =~= b.take(a.len() as int).subrange(
        at,
        at + bytes.len(),
    ));
}

/// The data of a file lies at its first extent.
proof fn written_file_lies(
    root: DirView,
    order: Seq<(Seq<usize>, usize)>,
    data: Seq<u8>,
    k: int,
)
    requires
        write_files(root, order, data) is Ok,
        0 <= k < order.len(),
        contents_of(dir_at(root, order[k].0).files[order[k].1 as int].kind).len() > 0,
    ensures
        ({
            let file = dir_at(root, order[k].0).files[order[k].1 as int];
            let after = write_files(root, order, data)->Ok_0;
            &&& data.len() <= file.entry.extent.0 * 2048
            &&& lies_at(after, file.entry.extent.0 * 2048, contents_of(file.kind))
        }),
    decreases order.len(),
{
    let init = order.drop_last();
    let before = write_files(root, init, data)->Ok_0;
    let after = write_files(root, order, data)->Ok_0;
    let file = dir_at(root, order[k].0).files[order[k].1 as int];
    files_append(root, init, data);
    padded_is_aligned(before);
    if k < order.len() - 1 {
        assert(init[k] == order[k]);
        written_file_lies(root, init, data, k);
        files_append_one(root, order, data);
        still_lies(after, before, file.entry.extent.0 * 2048, contents_of(file.kind));
    } else {
        let contents = contents_of(file.kind);
        let at = padded(before).len() as int;
        assert(order.last() == order[k]);
        assert(after == padded(before) + contents);
        assert(at == file.entry.extent.0 * 2048);
        assert(after.subrange(at, at + contents.len()) =~= contents);
    }
}

proof fn files_append_one(root: DirView, order: Seq<(Seq<usize>, usize)>, data: Seq<u8>)
    requires
        order.len() > 0,
        write_files(root, order, data) is Ok,
    ensures
        write_files(root, order.drop_last(), data) is Ok,
        starts_with(
            write_files(root, order, data)->Ok_0,
            write_files(root, order.drop_last(), data)->Ok_0,
        ),
{
    let before = write_files(root, order.drop_last(), data)->Ok_0;
    let file = dir_at(root, order.last().0).files[order.last().1 as int];
    let contents = contents_of(file.kind);
    starts_with_itself(before);
    if contents.len() > 0 {
        padded_starts_with(before);
        join_starts_with(padded(before), contents);
        starts_with_more(padded(before) + contents, padded(before), before);
    }
}

/// Files are written behind what is there.
proof fn files_append(root: DirView, order: Seq<(Seq<usize>, usize)>, data: Seq<u8>)
    requires
        write_files(root, order, data) is Ok,
    ensures
        starts_with(write_files(root, order, data)->Ok_0, data),
    decreases order.len(),
{
    if order.len() == 0 {
        starts_with_itself(data);
    } else {
        files_append(root, order.drop_last(), data);
        files_append_one(root, order, data);
        starts_with_more(
            write_files(root, order, data)->Ok_0,
            write_files(root, order.drop_last(), data)->Ok_0,
            data,
        );
    }
}

proof fn tables_append(root: DirView, types: Seq<EntryType>, data: Seq<u8>)
    requires
        with_path_tables(root, types, data) is Ok,
    ensures
        starts_with(with_path_tables(root, types, data)->Ok_0.0, data),
    decreases types.len(),
{
    if types.len() == 0 {
        starts_with_itself(data);
    } else {
        tables_append(root, types.drop_last(), data);
        let before = with_path_tables(root, types.drop_last(), data)->Ok_0.0;
        let l = path_table(root, types.last(), EndianType::LittleEndian)->Ok_0;
        let m = path_table(root, types.last(), EndianType::BigEndian)->Ok_0;
        let middle = with_table(before, l);
        let after = with_table(middle, m);
        table_appends(before, l);
        table_appends(middle, m);
        starts_with_more(after, middle, before);
        starts_with_more(after, before, data);
    }
}

proof fn table_appends(data: Seq<u8>, table: Seq<u8>)
    ensures
        starts_with(with_table(data, table), data),
{
    padded_starts_with(data);
    join_starts_with(padded(data), table);
    padded_starts_with(padded(data) + table);
    starts_with_more(padded(data) + table, padded(data), data);
    starts_with_more(with_table(data, table), padded(data) + table, data);
}

/// The records of a job's directory as they are written.
pub open spec fn written_records(
    root: DirView,
    job: (Seq<usize>, EntryType),
    inode: int,
    rrip: Option<RripOptions>,
    time: Seq<u8>,
    refs: Map<DirKey, DirectoryRef>,
) -> Seq<RecordView> {
    let (path, ty) = job;
    let dir = dir_at(root, path);
    let own = entry_of(dir, ty);
    finished(
        records_of(dir, path.len() == 0, ty, inode, rrip, time, refs)->Ok_0,
        own,
        entry_of(dir_at(root, parent_path(path)), ty),
        continuation_sector(own),
    )
}

proof fn dirs_append_one(
    root: DirView,
    jobs: Seq<(Seq<usize>, EntryType)>,
    rrip: Option<RripOptions>,
    time: Seq<u8>,
    refs: Map<DirKey, DirectoryRef>,
    data: Seq<u8>,
    inode: int,
)
    requires
        jobs.len() > 0,
        write_dirs(root, jobs, rrip, time, refs, data, inode) is Ok,
    ensures
        ({
            let s = write_dirs(root, jobs.drop_last(), rrip, time, refs, data, inode)->Ok_0;
            let t = write_dirs(root, jobs, rrip, time, refs, data, inode)->Ok_0;
            let own = entry_of(dir_at(root, jobs.last().0), jobs.last().1);
            let fin = written_records(root, jobs.last(), s.inode, rrip, time, refs);
            let area = padded(packed(fin, time));
            &&& write_dirs(root, jobs.drop_last(), rrip, time, refs, data, inode) is Ok
            &&& starts_with(t.data, s.data)
            &&& s.data.len() <= own.extent.0 * 2048
            &&& area.len() == own.size
            &&& lies_at(t.data, own.extent.0 * 2048, area)
            &&& lies_at(t.data, own.extent.0 * 2048 + own.size, overflow_bytes(fin))
        }),
{
    reveal(write_step);
    reveal(with_directory);
    let s = write_dirs(root, jobs.drop_last(), rrip, time, refs, data, inode)->Ok_0;
    let t = write_dirs(root, jobs, rrip, time, refs, data, inode)->Ok_0;
    let own = entry_of(dir_at(root, jobs.last().0), jobs.last().1);
    let fin = written_records(root, jobs.last(), s.inode, rrip, time, refs);
    let area = padded(packed(fin, time));
    let more = overflow_bytes(fin);
    padded_is_aligned(s.data);
    padded_starts_with(s.data);
    assert(t.data == padded(s.data) + area + more);
    join_starts_with(padded(s.data), area);
    join_starts_with(padded(s.data) + area, more);
    starts_with_more(padded(s.data) + area, padded(s.data), s.data);
    starts_with_more(t.data, padded(s.data) + area, s.data);
    let at = padded(s.data).len() as int;
    assert(at == own.extent.0 * 2048);
    assert(t.data.subrange(at, at + area.len()) =~= area);
    let b = at + own.size;
    assert(t.data.subrange(b, b + more.len()) =~= more);
}

/// The sectors of a directory hold its records, and its continuation area follows them.
proof fn written_dir_lies(
    root: DirView,
    jobs: Seq<(Seq<usize>, EntryType)>,
    rrip: Option<RripOptions>,
    time: Seq<u8>,
    refs: Map<DirKey, DirectoryRef>,
    data: Seq<u8>,
    inode: int,
    k: int,
)
    requires
        write_dirs(root, jobs, rrip, time, refs, data, inode) is Ok,
        0 <= k < jobs.len(),
    ensures
        ({
            let before = write_dirs(root, jobs.take(k), rrip, time, refs, data, inode)->Ok_0;
            let after = write_dirs(root, jobs, rrip, time, refs, data, inode)->Ok_0.data;
            let own = entry_of(dir_at(root, jobs[k].0), jobs[k].1);
            let fin = written_records(root, jobs[k], before.inode, rrip, time, refs);
            &&& write_dirs(root, jobs.take(k), rrip, time, refs, data, inode) is Ok
            &&& data.len() <= own.extent.0 * 2048
            &&& padded(packed(fin, time)).len() == own.size
            &&& lies_at(after, own.extent.0 * 2048, padded(packed(fin, time)))
            &&& lies_at(after, own.extent.0 * 2048 + own.size, overflow_bytes(fin))
        }),
    decreases jobs.len(),
{
    let init = jobs.drop_last();
    dirs_append_one(root, jobs, rrip, time, refs, data, inode);
    let s = write_dirs(root, init, rrip, time, refs, data, inode)->Ok_0;
    let t = write_dirs(root, jobs, rrip, time, refs, data, inode)->Ok_0;
    dirs_append(root, init, rrip, time, refs, data, inode);
    if k < jobs.len() - 1 {
        written_dir_lies(root, init, rrip, time, refs, data, inode, k);
        assert(init.take(k) =~= jobs.take(k));
        assert(init[k] == jobs[k]);
        let before = write_dirs(root, jobs.take(k), rrip, time, refs, data, inode)->Ok_0;
        let own = entry_of(dir_at(root, jobs[k].0), jobs[k].1);
        let fin = written_records(root, jobs[k], before.inode, rrip, time, refs);
        still_lies(t.data, s.data, own.extent.0 * 2048, padded(packed(fin, time)));
        still_lies(t.data, s.data, own.extent.0 * 2048 + own.size, overflow_bytes(fin));
    } else {
        assert(jobs.take(k) =~= init);
        assert(jobs.last() == jobs[k]);
    }
}

proof fn dirs_append(
    root: DirView,
    jobs: Seq<(Seq<usize>, EntryType)>,
    rrip: Option<RripOptions>,
    time: Seq<u8>,
    refs: Map<DirKey, DirectoryRef>,
    data: Seq<u8>,
    inode: int,
)
    requires
        write_dirs(root, jobs, rrip, time, refs, data, inode) is Ok,
    ensures
        starts_with(write_dirs(root, jobs, rrip, time, refs, data, inode)->Ok_0.data, data),
    decreases jobs.len(),
{
    if jobs.len() == 0 {
        starts_with_itself(data);
    } else {
        dirs_append_one(root, jobs, rrip, time, refs, data, inode);
        dirs_append(root, jobs.drop_last(), rrip, time, refs, data, inode);
        starts_with_more(
            write_dirs(root, jobs, rrip, time, refs, data, inode)->Ok_0.data,
            write_dirs(root, jobs.drop_last(), rrip, time, refs, data, inode)->Ok_0.data,
            data,
        );
    }
}

proof fn overwriting_elsewhere(data: Seq<u8>, from: int, new: Seq<u8>, at: int, bytes: Seq<u8>)
    requires
        0 <= from,
        from + new.len() <= at,
        lies_at(data, at, bytes),
    ensures
        lies_at(overwritten(data, from, new), at, bytes),
{
    assert(overwritten(data, from, new).subrange(at, at + bytes.len()) =~= data.subrange(
        at,
        at + bytes.len(),
    ));
}

/// An MBR has 512 bytes.
pub proof fn mbr_len(code: Seq<u8>, entries: Seq<u8>)
    requires
        code.len() == 446,
        entries.len() <= 64,
    ensures
        mbr_bytes(code, entries).len() == 512,
{
}

/// An entry of an MBR has 16 bytes.
pub proof fn entry_len(active: bool, kind: u8, first: u32, count: u32)
    ensures
        mbr_entry(active, kind, first, count).len() == 16,
{
    reveal(mbr_entry);
}

/// A partition table leaves alone what lies behind it.
proof fn tables_leave_the_data(
    root: DirView,
    ops: IsoFormatOptions,
    data: Seq<u8>,
    at: int,
    bytes: Seq<u8>,
)
    requires
        with_tables(root, ops, data) is Ok,
        at >= table_end(ops.features),
        lies_at(data, at, bytes),
        data.len() % 2048 == 0,
    ensures
        lies_at(with_tables(root, ops, data)->Ok_0, at, bytes),
{
    let end_sector = (data.len() / 2048) as int;
    match ops.features.hybrid_boot {
        None => {},
        Some(h) => match h.partition_scheme {
            PartitionScheme::NoTable => {},
            PartitionScheme::Mbr => {
                entry_len(h.bootable, 0x17, 0, (end_sector * 4) as u32);
                let entry = mbr_entry(h.bootable, 0x17, 0, (end_sector * 4) as u32);
                mbr_len(boot_code(h.mbr_bootstrap), entry);
                overwriting_elsewhere(
                    data,
                    0,
                    mbr_bytes(boot_code(h.mbr_bootstrap), entry),
                    at,
                    bytes,
                );
            },
            PartitionScheme::Gpt => {
                let parts = gpt_parts(root, ops, end_sector)->Ok_0;
                let total = total_512(end_sector);
                let count = if total - 1 > u32::MAX {
                    u32::MAX
                } else {
                    (total - 1) as u32
                };
                entry_len(false, 0xEE, 1, count);
                let entry = mbr_entry(false, 0xEE, 1, count);
                mbr_len(zeros(446), entry);
                gpt_leaves_the_data(
                    root,
                    ops,
                    data,
                    mbr_bytes(zeros(446), entry),
                    at,
                    bytes,
                );
            },
            PartitionScheme::Hybrid => {
                let parts = gpt_parts(root, ops, end_sector)->Ok_0;
                let entries = crate::iso::partition::hybrid_entries(parts, h.bootable)->Ok_0;
                hybrid_entries_len(parts, h.bootable);
                mbr_len(boot_code(h.mbr_bootstrap), entries);
                gpt_leaves_the_data(
                    root,
                    ops,
                    data,
                    mbr_bytes(boot_code(h.mbr_bootstrap), entries),
                    at,
                    bytes,
                );
            },
        },
    }
}

/// A hybrid MBR has at most four entries.
pub proof fn hybrid_entries_len(parts: Seq<crate::iso::partition::PartitionView>, bootable: bool)
    requires
        crate::iso::partition::hybrid_entries(parts, bootable) is Ok,
        1 <= parts.len() <= 3,
    ensures
        crate::iso::partition::hybrid_entries(parts, bootable)->Ok_0.len() <= 64,
{
    let shown = crate::iso::partition::mirrored(parts);
    entry_len(false, 0xEE, 1, (shown[0].first - 1) as u32);
    mirror_entries_len(shown, bootable);
}

proof fn mirror_entries_len(parts: Seq<crate::iso::partition::PartitionView>, bootable: bool)
    ensures
        crate::iso::partition::mirror_entries(parts, bootable).len() == 16 * parts.len(),
    decreases parts.len(),
{
    if parts.len() > 0 {
        mirror_entries_len(parts.drop_last(), bootable);
        let p = parts.last();
        entry_len(
            !p.esp && bootable,
            if p.esp {
                0xEF
            } else {
                0x17
            },
            p.first as u32,
            (p.last - p.first + 1) as u32,
        );
    }
}

proof fn gpt_leaves_the_data(
    root: DirView,
    ops: IsoFormatOptions,
    data: Seq<u8>,
    mbr: Seq<u8>,
    at: int,
    bytes: Seq<u8>,
)
    requires
        mbr.len() == 512,
        at >= 17408,
        lies_at(data, at, bytes),
        data.len() % 2048 == 0,
        gpt_parts(root, ops, (data.len() / 2048) as int) is Ok,
    ensures
        lies_at(
            with_gpt(
                data,
                mbr,
                gpt_parts(root, ops, (data.len() / 2048) as int)->Ok_0,
                ops.volume_name@,
            ),
            at,
            bytes,
        ),
        ({
            let parts = gpt_parts(
                root,
                ops,
                (data.len() / 2048) as int,
            )->Ok_0;
            1 <= parts.len() <= 3
        }),
{
    reveal(with_gpt);
    let parts = gpt_parts(root, ops, (data.len() / 2048) as int)->Ok_0;
    let name = ops.volume_name@;
    let total = total_512((data.len() / 2048) as int);
    let array = gpt_array(parts);
    let disk = named_guid(disk_prefix(), name);
    let own = gpt_header(
        1,
        (total - 1) as u64,
        (total - 34) as u64,
        disk,
        2,
        crc_of(array),
    );
    let backup = gpt_header(
        (total - 1) as u64,
        1,
        (total - 34) as u64,
        disk,
        (total - 33) as u64,
        crc_of(array),
    );
    guid_len(disk_input(name));
    assert(disk.len() == 16);
    gpt_header_len(
        1,
        (total - 1) as u64,
        (total - 34) as u64,
        disk,
        2,
        crc_of(array),
    );
    gpt_parts_len(root, ops, (data.len() / 2048) as int);
    gpt_entries_len(parts);
    assert(array.len() == 16384);
    let head = mbr + own + array;
    overwriting_elsewhere(data, 0, head, at, bytes);
    let first = overwritten(data, 0, head);
    let gap = zeros(total * 512 - 33 * 512 - data.len());
    join_starts_with(first, gap);
    join_starts_with(first + gap, array);
    join_starts_with(first + gap + array, backup);
    starts_with_more(first + gap + array, first + gap, first);
    starts_with_more(first + gap + array + backup, first + gap + array, first);
    still_lies(first + gap + array + backup, first, at, bytes);
}

/// Replacing bytes keeps the length.
pub proof fn overwritten_len(data: Seq<u8>, at: int, bytes: Seq<u8>)
    requires
        0 <= at,
        at + bytes.len() <= data.len(),
    ensures
        overwritten(data, at, bytes).len() == data.len(),
{
}

/// As many zeros.
pub proof fn zeros_len(n: int)
    requires
        n >= 0,
    ensures
        zeros(n).len() == n,
{
}

/// A GPT header has 512 bytes.
pub proof fn gpt_header_len(own: u64, other: u64, last: u64, disk: Seq<u8>, array: u64, sum: u32)
    requires
        disk.len() == 16,
    ensures
        gpt_header(own, other, last, disk, array, sum).len() == 512,
{
    let head_sum = crc_of(gpt_head(0, own, other, last, disk, array, sum));
    assert(gpt_head(head_sum, own, other, last, disk, array, sum).len() == 92);
}

spec fn disk_input(name: Seq<char>) -> Seq<u8> {
    disk_prefix() + vstd::utf8::encode_utf8(name)
}

/// A GUID has 16 bytes.
pub proof fn guid_len(bytes: Seq<u8>)
    ensures
        guid_of(bytes).len() == 16,
{
}

/// A GPT has at most three partitions.
pub proof fn gpt_parts_len(root: DirView, ops: IsoFormatOptions, end_sector: int)
    requires
        gpt_parts(root, ops, end_sector) is Ok,
    ensures
        ({
            let parts = gpt_parts(root, ops, end_sector)->Ok_0;
            &&& 1 <= parts.len() <= 3
            &&& forall|i: int| 0 <= i < parts.len() ==> (#[trigger] parts[i]).guid.len() == 16
        }),
{
    let name = ops.volume_name@;
    guid_len(vstd::utf8::encode_utf8(name));
    guid_len(esp_prefix() + vstd::utf8::encode_utf8(name));
    guid_len(data_prefix() + vstd::utf8::encode_utf8(name));
}

/// The tree of an image, with the file of its boot catalog.
pub open spec fn root_of(tree: Seq<EntryView>, ops: IsoFormatOptions) -> DirView {
    built_tree(input_with_catalog(tree, ops.features.el_torito), ops.features.rock_ridge)
}

/// Where the data of an image starts.
pub open spec fn start_of(ops: IsoFormatOptions, floor: Option<u32>) -> int {
    data_start(entry_types_of(ops.features), ops.features.el_torito is Some, floor)
}

/// The layout of an image.
pub open spec fn laid_of(
    tree: Seq<EntryView>,
    ops: IsoFormatOptions,
    floor: Option<u32>,
    time: Seq<u8>,
) -> Laid {
    layout(
        root_of(tree, ops),
        entry_types_of(ops.features),
        ops.features.rock_ridge,
        time,
        start_of(ops, floor),
    )->Ok_0
}

/// Directories, files and path tables of an image.
pub open spec fn body_of(
    tree: Seq<EntryView>,
    ops: IsoFormatOptions,
    floor: Option<u32>,
    time: Seq<u8>,
) -> (Seq<u8>, DirView, Seq<PathTableRef>) {
    image_body(
        root_of(tree, ops),
        ops,
        entry_types_of(ops.features),
        time,
        start_of(ops, floor),
    )->Ok_0
}

/// Whether making the image bootable changes the file with the given first extent.
pub open spec fn is_changed(root: DirView, ops: IsoFormatOptions, r: DirectoryRef) -> bool {
    match ops.features.el_torito {
        None => false,
        Some(boot) => is_patched(root, boot, r),
    }
}

/// The data of an image with its boot catalog and boot information tables, and the sector of
/// the catalog.
pub open spec fn booted(data: Seq<u8>, root: DirView, ops: IsoFormatOptions) -> (
    Seq<u8>,
    Option<u32>,
) {
    match ops.features.el_torito {
        None => (data, None),
        Some(boot) => (
            with_catalog(root, boot, data)->Ok_0.0,
            Some(with_catalog(root, boot, data)->Ok_0.1),
        ),
    }
}

/// What is written behind the descriptors stays as it was written, but for the files that
/// booting changes.
proof fn finalizing_keeps_the_data(
    data: Seq<u8>,
    root: DirView,
    tables: Seq<PathTableRef>,
    ops: IsoFormatOptions,
    at: int,
    bytes: Seq<u8>,
)
    requires
        finalized(data, root, tables, ops, entry_types_of(ops.features)) is Ok,
        (16 + descriptor_sectors(entry_types_of(ops.features), ops.features.el_torito is Some))
            * 2048 <= at,
        lies_at(data, at, bytes),
        forall|r: DirectoryRef|
            r.size > 0 && #[trigger] is_changed(root, ops, r) ==> clear_of(
                r,
                at,
                bytes.len() as int,
            ),
    ensures
        lies_at(
            finalized(data, root, tables, ops, entry_types_of(ops.features))->Ok_0,
            at,
            bytes,
        ),
{
    let (with_boot, catalog) = booted(data, root, ops);
    match ops.features.el_torito {
        None => {},
        Some(boot) => {
            assert forall|r: DirectoryRef|
                r.size > 0 && #[trigger] is_patched(root, boot, r) implies clear_of(
                r,
                at,
                bytes.len() as int,
            ) by {
                assert(is_changed(root, ops, r));
            }
            booting_keeps(root, boot, data, at, bytes);
        },
    }
    describing_keeps_the_data(with_boot, catalog, root, tables, ops, at, bytes);
}

/// Descriptors and partition tables leave alone what lies behind the descriptors.
proof fn describing_keeps_the_data(
    data: Seq<u8>,
    catalog: Option<u32>,
    root: DirView,
    tables: Seq<PathTableRef>,
    ops: IsoFormatOptions,
    at: int,
    bytes: Seq<u8>,
)
    requires
        described(data, catalog, root, tables, ops) is Ok,
        (16 + descriptor_sectors(entry_types_of(ops.features), catalog is Some)) * 2048 <= at,
        lies_at(data, at, bytes),
    ensures
        lies_at(described(data, catalog, root, tables, ops)->Ok_0, at, bytes),
{
    let types = entry_types_of(ops.features);
    let whole = padded(data);
    padded_is_aligned(data);
    padded_starts_with(data);
    still_lies(whole, data, at, bytes);
    let list = descriptors_of(data, catalog, root, tables, ops);
    namespaces_differ(ops.features);
    let space = volume_space(ops.features, (whole.len() / 2048) as int);
    descriptors_len(ops, types, locations(root, types, tables, space), catalog);
    overwriting_elsewhere(whole, 32768, list, at, bytes);
    tables_leave_the_data(root, ops, overwritten(whole, 32768, list), at, bytes);
}

/// The descriptors of an image.
pub open spec fn descriptors_of(
    data: Seq<u8>,
    catalog: Option<u32>,
    root: DirView,
    tables: Seq<PathTableRef>,
    ops: IsoFormatOptions,
) -> Seq<u8> {
    let types = entry_types_of(ops.features);
    let space = volume_space(ops.features, (padded(data).len() / 2048) as int);
    descriptors(ops, types, locations(root, types, tables, space), catalog)->Ok_0
}

/// The image with descriptors and partition table.
pub open spec fn described(
    data: Seq<u8>,
    catalog: Option<u32>,
    root: DirView,
    tables: Seq<PathTableRef>,
    ops: IsoFormatOptions,
) -> Result<Seq<u8>, IsoCreationError> {
    let types = entry_types_of(ops.features);
    let whole = padded(data);
    let space = volume_space(ops.features, (whole.len() / 2048) as int);
    match descriptors(ops, types, locations(root, types, tables, space), catalog) {
        Err(e) => Err(e),
        Ok(list) => with_tables(root, ops, overwritten(whole, 32768, list)),
    }
}

/// Files follow one another.
proof fn files_ascend(
    root: DirView,
    order: Seq<(Seq<usize>, usize)>,
    data: Seq<u8>,
    i: int,
    j: int,
)
    requires
        write_files(root, order, data) is Ok,
        0 <= i < j < order.len(),
        contents_of(dir_at(root, order[i].0).files[order[i].1 as int].kind).len() > 0,
        contents_of(dir_at(root, order[j].0).files[order[j].1 as int].kind).len() > 0,
    ensures
        ({
            let a = dir_at(root, order[i].0).files[order[i].1 as int];
            let b = dir_at(root, order[j].0).files[order[j].1 as int];
            a.entry.extent.0 * 2048 + contents_of(a.kind).len() <= b.entry.extent.0 * 2048
        }),
    decreases order.len(),
{
    let init = order.drop_last();
    let before = write_files(root, init, data)->Ok_0;
    files_append_one(root, order, data);
    assert(init[i] == order[i]);
    if j < order.len() - 1 {
        assert(init[j] == order[j]);
        files_ascend(root, init, data, i, j);
    } else {
        assert(order.last() == order[j]);
        written_file_lies(root, init, data, i);
        padded_is_aligned(before);
    }
}

/// What an image holds is what was put in: the data of every file lies where the file's
/// records say, in one piece, unless making the image bootable changes the file.
pub proof fn file_data_is_in_the_image(
    tree: Seq<EntryView>,
    ops: IsoFormatOptions,
    floor: Option<u32>,
    time: Seq<u8>,
    k: int,
)
    requires
        image(tree, ops, floor, time) is Ok,
        0 <= k < order_of(root_of(tree, ops)).len(),
        ({
            let at = order_of(root_of(tree, ops))[k];
            let full = laid_of(tree, ops, floor, time).root;
            let file = dir_at(full, at.0).files[at.1 as int];
            &&& contents_of(file.kind).len() > 0
            &&& !is_changed(full, ops, file.entry)
        }),
    ensures
        ({
            let at = order_of(root_of(tree, ops))[k];
            let file = dir_at(laid_of(tree, ops, floor, time).root, at.0).files[at.1 as int];
            lies_at(
                image(tree, ops, floor, time)->Ok_0,
                file.entry.extent.0 * 2048,
                contents_of(file.kind),
            )
        }),
{
    reveal(image);
    let rrip = ops.features.rock_ridge;
    let types = entry_types_of(ops.features);
    let input = input_with_catalog(tree, ops.features.el_torito);
    let root = root_of(tree, ops);
    let jobs = jobs_of(root, types);
    let order = order_of(root);
    let start = start_of(ops, floor);
    let laid = laid_of(tree, ops, floor, time);
    let s = write_dirs(laid.root, jobs, rrip, time, laid.refs, zeros(start), laid.inode)->Ok_0;
    let files = write_files(laid.root, order, s.data)->Ok_0;
    let (body, full, tables) = body_of(tree, ops, floor, time);
    written_file_lies(laid.root, order, s.data, k);
    dirs_append(laid.root, jobs, rrip, time, laid.refs, zeros(start), laid.inode);
    tables_append(laid.root, types, files);
    let file = dir_at(full, order[k].0).files[order[k].1 as int];
    let at = file.entry.extent.0 * 2048;
    let bytes = contents_of(file.kind);
    still_lies(body, files, at, bytes);
    built_tree_is_countable(input, rrip);
    namespaces_differ(ops.features);
    assert forall|r: DirectoryRef|
        r.size > 0 && #[trigger] is_changed(full, ops, r) implies clear_of(
        r,
        at,
        bytes.len() as int,
    ) by {
        let boot = ops.features.el_torito->Some_0;
        let j = patched_file(input, types, rrip, time, start, boot, r);
        if j < k {
            files_ascend(full, order, s.data, j, k);
        } else if j > k {
            files_ascend(full, order, s.data, k, j);
        }
    }
    finalizing_keeps_the_data(body, full, tables, ops, at, bytes);
}

/// The sectors of every directory in every namespace hold its records, filled up with
/// zeros, and the continuation area follows them.
pub proof fn directory_is_in_the_image(
    tree: Seq<EntryView>,
    ops: IsoFormatOptions,
    floor: Option<u32>,
    time: Seq<u8>,
    k: int,
)
    requires
        image(tree, ops, floor, time) is Ok,
        0 <= k < jobs_of(root_of(tree, ops), entry_types_of(ops.features)).len(),
    ensures
        ({
            let rrip = ops.features.rock_ridge;
            let jobs = jobs_of(root_of(tree, ops), entry_types_of(ops.features));
            let laid = laid_of(tree, ops, floor, time);
            let before = write_dirs(
                laid.root,
                jobs.take(k),
                rrip,
                time,
                laid.refs,
                zeros(start_of(ops, floor)),
                laid.inode,
            )->Ok_0;
            let own = entry_of(dir_at(laid.root, jobs[k].0), jobs[k].1);
            let fin = written_records(laid.root, jobs[k], before.inode, rrip, time, laid.refs);
            let result = image(tree, ops, floor, time)->Ok_0;
            &&& padded(packed(fin, time)).len() == own.size
            &&& lies_at(result, own.extent.0 * 2048, padded(packed(fin, time)))
            &&& lies_at(result, own.extent.0 * 2048 + own.size, overflow_bytes(fin))
        }),
{
    reveal(image);
    let rrip = ops.features.rock_ridge;
    let types = entry_types_of(ops.features);
    let input = input_with_catalog(tree, ops.features.el_torito);
    let root = root_of(tree, ops);
    let jobs = jobs_of(root, types);
    let order = order_of(root);
    let start = start_of(ops, floor);
    let laid = laid_of(tree, ops, floor, time);
    let s = write_dirs(laid.root, jobs, rrip, time, laid.refs, zeros(start), laid.inode)->Ok_0;
    let files = write_files(laid.root, order, s.data)->Ok_0;
    let (body, full, tables) = body_of(tree, ops, floor, time);
    written_dir_lies(laid.root, jobs, rrip, time, laid.refs, zeros(start), laid.inode, k);
    let before = write_dirs(
        laid.root,
        jobs.take(k),
        rrip,
        time,
        laid.refs,
        zeros(start),
        laid.inode,
    )->Ok_0;
    let own = entry_of(dir_at(laid.root, jobs[k].0), jobs[k].1);
    let fin = written_records(laid.root, jobs[k], before.inode, rrip, time, laid.refs);
    let at = own.extent.0 * 2048;
    let area = padded(packed(fin, time));
    let more = overflow_bytes(fin);
    files_append(laid.root, order, s.data);
    tables_append(laid.root, types, files);
    still_lies(files, s.data, at, area);
    still_lies(body, files, at, area);
    still_lies(files, s.data, at + own.size, more);
    still_lies(body, files, at + own.size, more);
    built_tree_is_countable(input, rrip);
    namespaces_differ(ops.features);
    assert forall|r: DirectoryRef| r.size > 0 && #[trigger] is_changed(full, ops, r) implies clear_of(
        r,
        at,
        area.len() as int,
    ) && clear_of(r, at + own.size, more.len() as int) by {
        let boot = ops.features.el_torito->Some_0;
        let j = patched_file(input, types, rrip, time, start, boot, r);
        written_file_lies(full, order, s.data, j);
    }
    finalizing_keeps_the_data(body, full, tables, ops, at, area);
    finalizing_keeps_the_data(body, full, tables, ops, at + own.size, more);
}

/// The gaps of an image hold nothing: behind the partition table the system area is empty,
/// and behind the descriptors everything is up to the allocation floor.
pub proof fn gaps_are_empty(
    tree: Seq<EntryView>,
    ops: IsoFormatOptions,
    floor: Option<u32>,
    time: Seq<u8>,
)
    requires
        image(tree, ops, floor, time) is Ok,
    ensures
        ({
            let end = table_end(ops.features);
            let behind = start_of(ops, None);
            let result = image(tree, ops, floor, time)->Ok_0;
            &&& lies_at(result, end, zeros(32768 - end))
            &&& lies_at(result, behind, zeros(start_of(ops, floor) - behind))
        }),
{
    reveal(image);
    let rrip = ops.features.rock_ridge;
    let types = entry_types_of(ops.features);
    let input = input_with_catalog(tree, ops.features.el_torito);
    let root = root_of(tree, ops);
    let jobs = jobs_of(root, types);
    let order = order_of(root);
    let start = start_of(ops, floor);
    let laid = laid_of(tree, ops, floor, time);
    let s = write_dirs(laid.root, jobs, rrip, time, laid.refs, zeros(start), laid.inode)->Ok_0;
    let files = write_files(laid.root, order, s.data)->Ok_0;
    let (body, full, tables) = body_of(tree, ops, floor, time);
    dirs_append(laid.root, jobs, rrip, time, laid.refs, zeros(start), laid.inode);
    files_append(laid.root, order, s.data);
    tables_append(laid.root, types, files);
    starts_with_more(files, s.data, zeros(start));
    starts_with_more(body, files, zeros(start));
    let end = table_end(ops.features);
    let behind = start_of(ops, None);
    let (a, b) = (zeros(32768 - end), zeros(start - behind));
    assert(zeros(start).subrange(end, 32768) =~= a);
    assert(zeros(start).subrange(behind, start) =~= b);
    still_lies(body, zeros(start), end, a);
    still_lies(body, zeros(start), behind, b);
    built_tree_is_countable(input, rrip);
    namespaces_differ(ops.features);
    assert forall|r: DirectoryRef|
        r.size > 0 && #[trigger] is_changed(full, ops, r) implies r.extent.0 * 2048 >= start by {
        let boot = ops.features.el_torito->Some_0;
        let j = patched_file(input, types, rrip, time, start, boot, r);
        written_file_lies(full, order, s.data, j);
    }
    finalizing_keeps_the_data(body, full, tables, ops, behind, b);
    finalizing_keeps_the_system_area(body, full, tables, ops, end, a);
}

/// What lies between the partition table and the descriptors stays, where booting changes
/// nothing before them.
proof fn finalizing_keeps_the_system_area(
    data: Seq<u8>,
    root: DirView,
    tables: Seq<PathTableRef>,
    ops: IsoFormatOptions,
    at: int,
    bytes: Seq<u8>,
)
    requires
        finalized(data, root, tables, ops, entry_types_of(ops.features)) is Ok,
        table_end(ops.features) <= at,
        at + bytes.len() <= 32768,
        start_of(ops, None) <= data.len(),
        lies_at(data, at, bytes),
        forall|r: DirectoryRef|
            r.size > 0 && #[trigger] is_changed(root, ops, r) ==> r.extent.0 * 2048 >= 32768,
    ensures
        lies_at(
            finalized(data, root, tables, ops, entry_types_of(ops.features))->Ok_0,
            at,
            bytes,
        ),
{
    let types = entry_types_of(ops.features);
    let (with_boot, catalog) = booted(data, root, ops);
    match ops.features.el_torito {
        None => {},
        Some(boot) => {
            assert forall|r: DirectoryRef|
                r.size > 0 && #[trigger] is_patched(root, boot, r) implies clear_of(
                r,
                at,
                bytes.len() as int,
            ) by {
                assert(is_changed(root, ops, r));
            }
            booting_keeps(root, boot, data, at, bytes);
            padded_is_aligned(data);
            booting_length(root, boot, data);
        },
    }
    let whole = padded(with_boot);
    padded_is_aligned(with_boot);
    padded_starts_with(with_boot);
    still_lies(whole, with_boot, at, bytes);
    let list = descriptors_of(with_boot, catalog, root, tables, ops);
    let space = volume_space(ops.features, (whole.len() / 2048) as int);
    namespaces_differ(ops.features);
    descriptors_len(ops, types, locations(root, types, tables, space), catalog);
    let after = overwritten(whole, 32768, list);
    assert(after.subrange(at, at + bytes.len()) =~= whole.subrange(at, at + bytes.len()));
    assert(after.len() == whole.len());
    tables_leave_the_data(root, ops, after, at, bytes);
}

/// The descriptors lie behind the system area, from sector 16 on.
pub proof fn descriptors_are_in_the_image(
    tree: Seq<EntryView>,
    ops: IsoFormatOptions,
    floor: Option<u32>,
    time: Seq<u8>,
)
    requires
        image(tree, ops, floor, time) is Ok,
    ensures
        ({
            let (body, full, tables) = body_of(tree, ops, floor, time);
            let (data, catalog) = booted(body, full, ops);
            lies_at(
                image(tree, ops, floor, time)->Ok_0,
                32768,
                descriptors_of(data, catalog, full, tables, ops),
            )
        }),
{
    reveal(image);
    let types = entry_types_of(ops.features);
    let (body, full, tables) = body_of(tree, ops, floor, time);
    let (data, catalog) = booted(body, full, ops);
    body_is_behind(root_of(tree, ops), ops, types, time, start_of(ops, floor));
    match ops.features.el_torito {
        None => {},
        Some(boot) => {
            padded_is_aligned(body);
            booting_length(full, boot, body);
        },
    }
    let whole = padded(data);
    padded_is_aligned(data);
    let list = descriptors_of(data, catalog, full, tables, ops);
    let space = volume_space(ops.features, (whole.len() / 2048) as int);
    namespaces_differ(ops.features);
    descriptors_len(ops, types, locations(full, types, tables, space), catalog);
    let after = overwritten(whole, 32768, list);
    assert(after.subrange(32768, 32768 + list.len() as int) =~= list);
    assert(after.len() == whole.len());
    tables_leave_the_data(full, ops, after, 32768, list);
}

/// The descriptor of the first namespace stands first, and behind it the boot record, if any.
proof fn boot_record_is_second(
    ops: IsoFormatOptions,
    types: Seq<EntryType>,
    at: Seq<Location>,
    catalog: u32,
    n: int,
)
    requires
        1 <= n <= types.len(),
        descriptor_list(ops, types, at, Some(catalog), n) is Ok,
    ensures
        lies_at(
            descriptor_list(ops, types, at, Some(catalog), n)->Ok_0,
            2048,
            boot_record_bytes(catalog),
        ),
    decreases n,
{
    let list = descriptor_list(ops, types, at, Some(catalog), n)->Ok_0;
    let record = boot_record_bytes(catalog);
    if n == 1 {
        let first = namespace_descriptor(ops, types[0], at[0])->Ok_0;
        crate::iso::volume::namespace_descriptors_fill_sectors(ops, types[0], at[0]);
        assert(descriptor_list(ops, types, at, Some(catalog), 0) == Ok::<
            Seq<u8>,
            IsoCreationError,
        >(Seq::empty()));
        assert(list == Seq::<u8>::empty() + first + record);
        assert(list.subrange(2048, 2048 + record.len() as int) =~= record);
    } else {
        boot_record_is_second(ops, types, at, catalog, n - 1);
        let before = descriptor_list(ops, types, at, Some(catalog), n - 1)->Ok_0;
        let last = namespace_descriptor(ops, types[n - 1], at[n - 1])->Ok_0;
        join_starts_with(before, last);
        still_lies(before + last, before, 2048, record);
    }
}

/// In a bootable image sector 17 holds the boot record, and the sector that it names holds
/// the boot catalog, as long as sectors can be numbered in 32 bits.
pub proof fn catalog_is_in_the_image(
    tree: Seq<EntryView>,
    ops: IsoFormatOptions,
    floor: Option<u32>,
    time: Seq<u8>,
    boot: BootOptions,
)
    requires
        image(tree, ops, floor, time) is Ok,
        ops.features.el_torito == Some(boot),
        image(tree, ops, floor, time)->Ok_0.len() <= 2048 * u32::MAX,
    ensures
        ({
            let result = image(tree, ops, floor, time)->Ok_0;
            let (body, full, tables) = body_of(tree, ops, floor, time);
            let sector = with_catalog(full, boot, body)->Ok_0.1;
            let s = catalog_steps(full, boot, padded(body), boot.entries@.len() as int)->Ok_0;
            &&& lies_at(result, 34816, boot_record_bytes(sector))
            &&& lies_at(result, sector * 2048, catalog_bytes(s))
        }),
{
    reveal(image);
    let (body, full, tables) = body_of(tree, ops, floor, time);
    let (data, catalog) = booted(body, full, ops);
    let s = catalog_steps(full, boot, padded(body), boot.entries@.len() as int)->Ok_0;
    boot_record_lies(tree, ops, floor, time, boot);
    image_is_described(tree, ops, floor, time);
    data_only_grows(data, catalog, full, tables, ops);
    catalog_lies(full, boot, body);
    catalog_is_behind(tree, ops, floor, time, boot);
    let at = catalog->Some_0 * 2048;
    describing_keeps_the_data(data, catalog, full, tables, ops, at, catalog_bytes(s));
}

/// Descriptors and partition table are put last.
pub proof fn image_is_described(
    tree: Seq<EntryView>,
    ops: IsoFormatOptions,
    floor: Option<u32>,
    time: Seq<u8>,
)
    requires
        image(tree, ops, floor, time) is Ok,
    ensures
        ({
            let (body, full, tables) = body_of(tree, ops, floor, time);
            let (data, catalog) = booted(body, full, ops);
            &&& image(tree, ops, floor, time) == described(data, catalog, full, tables, ops)
            &&& catalog is Some <==> ops.features.el_torito is Some
            &&& ops.features.el_torito matches Some(boot) ==> with_catalog(full, boot, body) is Ok
            &&& data.len() >= start_of(ops, floor)
        }),
{
    reveal(image);
    let (body, full, tables) = body_of(tree, ops, floor, time);
    body_is_behind(
        root_of(tree, ops),
        ops,
        entry_types_of(ops.features),
        time,
        start_of(ops, floor),
    );
    match ops.features.el_torito {
        None => {},
        Some(boot) => {
            padded_is_aligned(body);
            booting_length(full, boot, body);
        },
    }
}

proof fn boot_record_lies(
    tree: Seq<EntryView>,
    ops: IsoFormatOptions,
    floor: Option<u32>,
    time: Seq<u8>,
    boot: BootOptions,
)
    requires
        image(tree, ops, floor, time) is Ok,
        ops.features.el_torito == Some(boot),
    ensures
        ({
            let (body, full, tables) = body_of(tree, ops, floor, time);
            lies_at(
                image(tree, ops, floor, time)->Ok_0,
                34816,
                boot_record_bytes(with_catalog(full, boot, body)->Ok_0.1),
            )
        }),
{
    reveal(image);
    let types = entry_types_of(ops.features);
    let result = image(tree, ops, floor, time)->Ok_0;
    let (body, full, tables) = body_of(tree, ops, floor, time);
    let (data, catalog) = booted(body, full, ops);
    let sector = catalog->Some_0;
    image_is_described(tree, ops, floor, time);
    descriptors_are_in_the_image(tree, ops, floor, time);
    let list = descriptors_of(data, catalog, full, tables, ops);
    let space = volume_space(ops.features, (padded(data).len() / 2048) as int);
    let places = locations(full, types, tables, space);
    namespaces_differ(ops.features);
    boot_record_is_second(ops, types, places, sector, types.len() as int);
    let namespaces = descriptor_list(ops, types, places, catalog, types.len() as int)->Ok_0;
    join_starts_with(namespaces, crate::iso::volume::terminator_bytes());
    still_lies(list, namespaces, 2048, boot_record_bytes(sector));
    lies_within(result, 32768, list, 2048, boot_record_bytes(sector));
}

proof fn lies_within(data: Seq<u8>, at: int, list: Seq<u8>, from: int, bytes: Seq<u8>)
    requires
        lies_at(data, at, list),
        lies_at(list, from, bytes),
    ensures
        lies_at(data, at + from, bytes),
{
    assert(data.subrange(at + from, at + from + bytes.len()) =~= data.subrange(
        at,
        at + list.len(),
    ).subrange(from, from + bytes.len()));
}

/// What is written lies behind the descriptors.
pub proof fn body_is_behind(
    root: DirView,
    ops: IsoFormatOptions,
    types: Seq<EntryType>,
    time: Seq<u8>,
    start: int,
)
    requires
        start >= 0,
        image_body(root, ops, types, time, start) is Ok,
    ensures
        image_body(root, ops, types, time, start)->Ok_0.0.len() >= start,
{
    let rrip = ops.features.rock_ridge;
    let laid = layout(root, types, rrip, time, start)->Ok_0;
    let jobs = jobs_of(root, types);
    let s = write_dirs(laid.root, jobs, rrip, time, laid.refs, zeros(start), laid.inode)->Ok_0;
    let files = write_files(laid.root, order_of(root), s.data)->Ok_0;
    dirs_append(laid.root, jobs, rrip, time, laid.refs, zeros(start), laid.inode);
    files_append(laid.root, order_of(root), s.data);
    tables_append(laid.root, types, files);
}

/// The catalog lies behind the descriptors.
proof fn catalog_is_behind(
    tree: Seq<EntryView>,
    ops: IsoFormatOptions,
    floor: Option<u32>,
    time: Seq<u8>,
    boot: BootOptions,
)
    requires
        image(tree, ops, floor, time) is Ok,
        ops.features.el_torito == Some(boot),
        ({
            let (body, full, tables) = body_of(tree, ops, floor, time);
            with_catalog(full, boot, body)->Ok_0.0.len() <= 2048 * u32::MAX
        }),
    ensures
        ({
            let (body, full, tables) = body_of(tree, ops, floor, time);
            with_catalog(full, boot, body)->Ok_0.1 * 2048 >= start_of(ops, floor)
        }),
{
    reveal(image);
    let rrip = ops.features.rock_ridge;
    let types = entry_types_of(ops.features);
    let input = input_with_catalog(tree, ops.features.el_torito);
    let root = root_of(tree, ops);
    let start = start_of(ops, floor);
    let (body, full, tables) = body_of(tree, ops, floor, time);
    let s = catalog_steps(full, boot, padded(body), boot.entries@.len() as int)->Ok_0;
    body_is_behind(root, ops, types, time, start);
    padded_is_aligned(body);
    steps_keep_length(full, boot, padded(body), boot.entries@.len() as int);
    catalog_is_not_empty(s);
    built_tree_is_countable(input, rrip);
    namespaces_differ(ops.features);
    if boot.write_boot_catalog {
        let laid = laid_of(tree, ops, floor, time);
        let jobs = jobs_of(root, types);
        let dirs =
            write_dirs(laid.root, jobs, rrip, time, laid.refs, zeros(start), laid.inode)->Ok_0;
        let file = crate::iso::written::find_parts(
            full,
            crate::iso::written::lookup_parts(crate::iso::boot::catalog_file_name()),
        )->Some_0;
        let j = patched_file(input, types, rrip, time, start, boot, file);
        dirs_append(laid.root, jobs, rrip, time, laid.refs, zeros(start), laid.inode);
        written_file_lies(full, order_of(root), dirs.data, j);
        assert(file.extent.0 * 2048 <= with_catalog(full, boot, body)->Ok_0.0.len());
    } else {
        padded_is_aligned(s.data + catalog_bytes(s));
    }
}

/// Descriptors and partition tables make an image no shorter.
proof fn data_only_grows(
    data: Seq<u8>,
    catalog: Option<u32>,
    root: DirView,
    tables: Seq<PathTableRef>,
    ops: IsoFormatOptions,
)
    requires
        described(data, catalog, root, tables, ops) is Ok,
        data.len() >= (16 + descriptor_sectors(entry_types_of(ops.features), catalog is Some))
            * 2048,
    ensures
        described(data, catalog, root, tables, ops)->Ok_0.len() >= data.len(),
{
    let at = (16 + descriptor_sectors(entry_types_of(ops.features), catalog is Some)) * 2048;
    let rest = data.skip(at);
    assert(data.subrange(at, at + rest.len()) =~= rest);
    describing_keeps_the_data(data, catalog, root, tables, ops, at, rest);
}

/// The extents of a file as they are read.
pub open spec fn read_extents(extents: Seq<DirectoryRef>) -> Seq<Extent> {
    Seq::new(
        extents.len(),
        |i: int| Extent { sector: extents[i].extent, length: extents[i].size as u32 },
    )
}

proof fn file_data_from_the_front(image: Seq<u8>, extents: Seq<Extent>)
    requires
        extents.len() > 0,
    ensures
        file_data(image, extents) == extent_data(image, extents[0]) + file_data(
            image,
            extents.drop_first(),
        ),
    decreases extents.len(),
{
    let init = extents.drop_last();
    if extents.len() == 1 {
        assert(init =~= Seq::empty());
        assert(file_data(image, init) =~= Seq::empty());
        assert(extents.drop_first() =~= Seq::empty());
        assert(file_data(image, extents.drop_first()) =~= Seq::empty());
        assert(file_data(image, extents) =~= extent_data(image, extents[0]) + Seq::<u8>::empty());
    } else {
        file_data_from_the_front(image, init);
        assert(init.drop_first() =~= extents.drop_first().drop_last());
        assert(extents.drop_first().last() == extents.last());
        assert(file_data(image, extents) =~= extent_data(image, extents[0]) + file_data(
            image,
            extents.drop_first(),
        ));
    }
}

/// Extents in a row are read as one piece.
proof fn extents_are_read(image: Seq<u8>, len: int, cursor: int)
    requires
        0 <= len,
        0 <= cursor,
        len > 0 ==> align_up(cursor, 2048) + len <= image.len(),
        extent_end(len, cursor, 2048) <= usize::MAX,
    ensures
        file_data(image, read_extents(extent_list(len, cursor, 2048))) == (if len == 0 {
            Seq::empty()
        } else {
            image.subrange(align_up(cursor, 2048), align_up(cursor, 2048) + len)
        }),
    decreases len,
{
    let all = extent_list(len, cursor, 2048);
    let extents = read_extents(all);
    if len == 0 {
        assert(extents =~= Seq::empty());
    } else {
        let chunk = extent_size(len);
        let start = align_up(cursor, 2048);
        align_up_bounds(cursor, 2048);
        extent_end_grows(len, cursor, 2048);
        align_up_bounds(start + chunk, 2048);
        if len > chunk {
            assert((start + chunk) % 2048 == 0);
        }
        extents_are_read(image, len - chunk, start + chunk);
        let rest = extent_list(len - chunk, start + chunk, 2048);
        assert(extents.drop_first() =~= read_extents(rest));
        file_data_from_the_front(image, extents);
        assert(extents[0].sector.0 * 2048 == start && extents[0].length == chunk);
        assert(file_data(image, extents) =~= image.subrange(start, start + len));
    }
}

/// What was put in is read back: the bytes that a file's extents lead to in the image are
/// the file's data, unless making the image bootable changes the file.
pub proof fn written_files_are_read_back(
    tree: Seq<EntryView>,
    ops: IsoFormatOptions,
    floor: Option<u32>,
    time: Seq<u8>,
    k: int,
)
    requires
        image(tree, ops, floor, time) is Ok,
        0 <= k < order_of(root_of(tree, ops)).len(),
        ({
            let at = order_of(root_of(tree, ops))[k];
            let full = laid_of(tree, ops, floor, time).root;
            !is_changed(full, ops, dir_at(full, at.0).files[at.1 as int].entry)
        }),
    ensures
        ({
            let at = order_of(root_of(tree, ops))[k];
            let file = dir_at(laid_of(tree, ops, floor, time).root, at.0).files[at.1 as int];
            &&& file.kind == dir_at(root_of(tree, ops), at.0).files[at.1 as int].kind
            &&& file_data(
                image(tree, ops, floor, time)->Ok_0,
                read_extents(all_extents(file)),
            ) == contents_of(file.kind)
        }),
{
    reveal(image);
    let rrip = ops.features.rock_ridge;
    let types = entry_types_of(ops.features);
    let input = input_with_catalog(tree, ops.features.el_torito);
    let root = root_of(tree, ops);
    built_tree_is_countable(input, rrip);
    namespaces_differ(ops.features);
    ordered_files_have_data(root, k);
    let cursor = placed_extents(root, types, rrip, time, start_of(ops, floor), k);
    file_data_is_in_the_image(tree, ops, floor, time, k);
    let at = order_of(root)[k];
    let file = dir_at(laid_of(tree, ops, floor, time).root, at.0).files[at.1 as int];
    let len = contents_of(file.kind).len() as int;
    extents_are_read(image(tree, ops, floor, time)->Ok_0, len, cursor);
}

/// The files that are laid out are those with data.
proof fn ordered_files_have_data(root: DirView, k: int)
    requires
        countable(root),
        0 <= k < order_of(root).len(),
    ensures
        ({
            let at = order_of(root)[k];
            contents_of(dir_at(root, at.0).files[at.1 as int].kind).len() > 0
        }),
{
    let paths = preorder(root, Seq::empty());
    preorder_is_distinct(root, Seq::empty());
    assert forall|i: int| 0 <= i < paths.len() implies dir_at(
        root,
        #[trigger] paths[i],
    ).files.len() <= usize::MAX by {
        assert(paths[i].skip(0) =~= paths[i]);
        countable_at(root, paths[i]);
    }
    files_in_have_data(root, paths, k);
}

proof fn files_in_have_data(root: DirView, paths: Seq<Seq<usize>>, k: int)
    requires
        0 <= k < data_files_in(root, paths).len(),
        forall|i: int|
            0 <= i < paths.len() ==> dir_at(root, #[trigger] paths[i]).files.len() <= usize::MAX,
    ensures
        ({
            let at = data_files_in(root, paths)[k];
            has_data(dir_at(root, at.0).files[at.1 as int])
        }),
    decreases paths.len(),
{
    let init = paths.drop_last();
    let before = data_files_in(root, init);
    let dir = dir_at(root, paths.last());
    assert forall|i: int| 0 <= i < init.len() implies dir_at(
        root,
        #[trigger] init[i],
    ).files.len() <= usize::MAX by {
        assert(init[i] == paths[i]);
    }
    if k < before.len() {
        files_in_have_data(root, init, k);
    } else {
        assert(dir_at(root, paths[paths.len() - 1]).files.len() <= usize::MAX);
        own_files_have_data(dir.files, paths.last(), dir.files.len() as int, k - before.len());
    }
}

proof fn own_files_have_data(files: Seq<FileView>, path: Seq<usize>, n: int, k: int)
    requires
        0 <= n <= files.len() <= usize::MAX,
        0 <= k < data_files(files, path, n).len(),
    ensures
        data_files(files, path, n)[k].0 == path,
        data_files(files, path, n)[k].1 < n,
        has_data(files[data_files(files, path, n)[k].1 as int]),
    decreases n,
{
    if k < data_files(files, path, n - 1).len() {
        own_files_have_data(files, path, n - 1, k);
    }
}

/// Every file with data is laid out, and no file twice.
pub proof fn every_file_is_laid_out(
    tree: Seq<EntryView>,
    rrip: Option<RripOptions>,
    q: (Seq<usize>, usize),
)
    requires
        list_events(tree).len() < usize::MAX,
        valid_path(built_tree(tree, rrip), q.0),
        q.1 < dir_at(built_tree(tree, rrip), q.0).files.len(),
        has_data(dir_at(built_tree(tree, rrip), q.0).files[q.1 as int]),
    ensures
        order_of(built_tree(tree, rrip)).contains(q),
        order_of(built_tree(tree, rrip)).no_duplicates(),
{
    let root = built_tree(tree, rrip);
    let empty = Seq::<usize>::empty();
    let paths = preorder(root, empty);
    built_tree_is_countable(tree, rrip);
    built_tree_is_unplaced(tree, rrip);
    work_is_distinct(root, Seq::empty());
    preorder_has_all(root, empty, q.0);
    assert(empty + q.0 =~= q.0);
    let i = choose|i: int| 0 <= i < paths.len() && paths[i] == q.0;
    assert(paths.take(paths.len() as int) =~= paths);
    order_has_all(root, paths, i, q.1);
}

proof fn preorder_has_all(dir: DirView, path: Seq<usize>, q: Seq<usize>)
    requires
        unplaced(dir),
        countable(dir),
        valid_path(dir, q),
        dir_at(dir, q).files.len() > 0,
    ensures
        preorder(dir, path).contains(path + q),
    decreases q.len(),
{
    let all = preorder(dir, path);
    let rest = preorder_children(dir.dirs, path);
    if q.len() == 0 {
        assert(path + q =~= path);
        assert(all[0] == path);
    } else {
        let i = q[0] as int;
        let child = dir.dirs[i];
        assert(unplaced(child) && countable(child));
        let step = path.push(q[0]);
        preorder_has_all(child, step, q.drop_first());
        assert(step + q.drop_first() =~= path + q);
        if child.relocation is Placeholder {
            assert(q.drop_first().len() == 0 || q.drop_first()[0] < child.dirs.len());
            assert(false);
        }
        assert(dir.dirs.take(dir.dirs.len() as int) =~= dir.dirs);
        children_have_all(dir.dirs, path, i, dir.dirs.len() as int, path + q);
        let k = choose|k: int| 0 <= k < rest.len() && rest[k] == path + q;
        assert(all[k + 1] == path + q);
    }
}

/// The ways below a child are among the ways.
pub proof fn children_have_all(
    dirs: Seq<DirView>,
    path: Seq<usize>,
    i: int,
    n: int,
    way: Seq<usize>,
)
    requires
        0 <= i < n <= dirs.len() <= usize::MAX,
        !(dirs[i].relocation is Placeholder),
        preorder(dirs[i], path.push(i as usize)).contains(way),
    ensures
        preorder_children(dirs.take(n), path).contains(way),
    decreases n,
{
    let part = dirs.take(n);
    let all = preorder_children(part, path);
    assert(part.drop_last() =~= dirs.take(n - 1));
    let before = preorder_children(dirs.take(n - 1), path);
    if i == n - 1 {
        assert(part.last() == dirs[i]);
        let own = preorder(dirs[i], path.push(i as usize));
        let k = choose|k: int| 0 <= k < own.len() && own[k] == way;
        assert(all[before.len() + k] == way);
    } else {
        children_have_all(dirs, path, i, n - 1, way);
        let k = choose|k: int| 0 <= k < before.len() && before[k] == way;
        assert(all[k] == way);
    }
}

/// A file with data in one of the directories is laid out.
pub proof fn order_has_all(root: DirView, paths: Seq<Seq<usize>>, i: int, f: usize)
    requires
        0 <= i < paths.len(),
        f < dir_at(root, paths[i]).files.len(),
        has_data(dir_at(root, paths[i]).files[f as int]),
    ensures
        data_files_in(root, paths).contains((paths[i], f)),
    decreases paths.len(),
{
    let init = paths.drop_last();
    let before = data_files_in(root, init);
    let all = data_files_in(root, paths);
    let want = (paths[i], f);
    if i < paths.len() - 1 {
        order_has_all(root, init, i, f);
        let k = choose|k: int| 0 <= k < before.len() && before[k] == want;
        assert(all[k] == want);
    } else {
        let files = dir_at(root, paths.last()).files;
        own_files_have_all(files, paths.last(), files.len() as int, f);
        let own = data_files(files, paths.last(), files.len() as int);
        let k = choose|k: int| 0 <= k < own.len() && own[k] == want;
        assert(all[before.len() + k] == want);
    }
}

proof fn own_files_have_all(files: Seq<FileView>, path: Seq<usize>, n: int, f: usize)
    requires
        f < n <= files.len(),
        has_data(files[f as int]),
    ensures
        data_files(files, path, n).contains((path, f)),
    decreases n,
{
    let all = data_files(files, path, n);
    let before = data_files(files, path, n - 1);
    if f == n - 1 {
        assert(all[all.len() - 1] == (path, f));
    } else {
        own_files_have_all(files, path, n - 1, f);
        let k = choose|k: int| 0 <= k < before.len() && before[k] == (path, f);
        assert(all[k] == (path, f));
    }
}

} // verus!
