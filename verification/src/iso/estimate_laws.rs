//! The estimated size of an image is never below its size.

#[allow(unused_imports)]
use crate::iso::boot::{catalog_file_name, catalog_file_size, first_directory};
#[allow(unused_imports)]
use crate::iso::boot_image::{catalog_bytes, catalog_steps, overwritten};
#[allow(unused_imports)]
use crate::iso::boot_laws::{booting_length, catalog_len};
#[allow(unused_imports)]
use crate::iso::content_laws::{
    body_of, booted, descriptors_of, entry_len, gpt_header_len, gpt_parts_len, guid_len,
    hybrid_entries_len, image_is_described, laid_of, mbr_len, overwritten_len, root_of, start_of,
    zeros_len,
};
#[allow(unused_imports)]
use crate::civil::CivilTime;
#[allow(unused_imports)]
use crate::iso::error::IsoCreationError;
#[allow(unused_imports)]
use crate::iso::emit::{padded, padded_is_aligned, write_dirs, write_files, zeros};
#[allow(unused_imports)]
use crate::iso::estimator::{
    any_rrip, area_space, area_total, backup_len, catalog_bytes_len, catalog_records, dir_space,
    dir_total, entry_stats, estimate_of, estimate_total, estimated_name_len, estimated_overflow,
    estimated_record, fields_len, is_estimate, list_stats, longest_name_len, name_len_natural,
    needed_of, packed_sectors, path_table_len, record_count, record_natural, relocated_len, sectors,
    stats_natural, tree_stats, usual_of, whole, widest_bounds, widest_record, IsoSizeEstimate,
};
#[allow(unused_imports)]
use crate::iso::extent::{align_up, align_up_bounds};
#[allow(unused_imports)]
use crate::iso::image::{
    built_tree, data_start, descriptors_len, image, image_body, input_with_catalog, jobs_of, layout,
    locations, no_refs, order_of, with_path_tables, with_table,
};
#[allow(unused_imports)]
use crate::iso::layout::{pack_end, pack_end_grows};
#[allow(unused_imports)]
use crate::iso::options::{entry_types_of, CreationFeatures, IsoFormatOptions, PartitionScheme};
#[allow(unused_imports)]
use crate::iso::order::before;
#[allow(unused_imports)]
use crate::iso::partition::{
    boot_code, crc_of, disk_prefix, gpt_array, gpt_entries_len, gpt_header, gpt_parts,
    hybrid_entries, mbr_bytes, mbr_entry, named_guid, total_512, volume_space, with_gpt,
    with_tables, PartitionView,
};
#[allow(unused_imports)]
use crate::iso::path_table::{path_table, EndianType};
#[allow(unused_imports)]
use crate::iso::plan::{
    contents_of, dir_end, pairs, plan_dirs, plan_files, plan_files_same, plan_step, records_of,
    ref_map, same_file, same_tree, same_tree_at, same_tree_transitive, with_refs, with_refs_same,
};
#[allow(unused_imports)]
use crate::iso::plan_laws::{
    built_tree_is_countable, countable, countable_at, layout_is_met, layout_keeps_the_tree,
    namespaces_differ, pack_end_shift, preorder_is_distinct, work_is_distinct, work_stays_valid,
};
#[allow(unused_imports)]
use crate::iso::records::{overflow_total, overflow_total_prefix, RecordView};
#[allow(unused_imports)]
use crate::iso::refmap::DirKey;
#[allow(unused_imports)]
use crate::iso::relocate::{preorder, preorder_children, relocate_list, tree_size};
#[allow(unused_imports)]
use crate::iso::time::rrip_time_bytes;
#[allow(unused_imports)]
use crate::iso::tree::{
    files_view, list_events, relocates, EntryView, InputFiles, InputTree, KindView,
};
#[allow(unused_imports)]
use crate::iso::types::{DirectoryRef, EntryType, RripOptions};
#[allow(unused_imports)]
use crate::iso::written::{
    dir_at, directory_count, fresh_dir, new_dir, valid_path, with_entries, DirView,
    DirectoryRelocation, FileView,
};

#[allow(unused_imports)]
use crate::iso::boot_laws::{built_tree_is_unplaced, unplaced_at};
#[allow(unused_imports)]
use crate::iso::content_laws::{children_have_all, order_has_all};
#[allow(unused_imports)]
use crate::iso::extent::{extent_count, MAX_EXTENT_SIZE};
#[allow(unused_imports)]
use crate::iso::image::tree_size_counts;
#[allow(unused_imports)]
use crate::iso::plan_laws::planned_extents;
#[allow(unused_imports)]
use crate::iso::planned::{images_take_what_was_planned, loose_catalog};
#[allow(unused_imports)]
use crate::iso::usual_size::tree_usual;
#[allow(unused_imports)]
use crate::iso::record_sizes::{
    child_fields_len, children_fields_len, dir_entries, dir_entry, file_entries, file_entry,
    files_are_sized, records_are_within, shows_names, totals_join,
};
#[allow(unused_imports)]
use crate::iso::relocation_sums::{
    built_tree_shows_names, built_tree_tables, cover, entries_are_plain, holder_is_known, is_local,
    is_plain, is_relocated, names_of, plain_tree, relocation_adds, relocation_fields,
    relocation_is_counted, root_is_kept, tree_fields,
};
#[allow(unused_imports)]
use crate::iso::sums::{listing, sum, sum_joins};
#[allow(unused_imports)]
use crate::iso::tree_sums::{
    added_file, file_space, files_take_their_space, list_sum, order_is_all_files, order_space,
    path_table_has_every_directory, paths_have_few_files, preorder_sum, same_records_len, space_of,
    tree_sum,
};
use vstd::prelude::*;
#[allow(unused_imports)]
use vstd::utf8::encode_utf8;

verus! {

/// The bytes that are estimated for the records of a directory and its continuation areas.
pub open spec fn estimated_space(dir: DirView, types: Seq<EntryType>) -> int {
    dir_space(listing(dir), types, 2048) + area_space(listing(dir), types, 2048)
}

spec fn data_each() -> spec_fn(DirView) -> int {
    |d: DirView| space_of(d.files)
}

spec fn estimate_each(types: Seq<EntryType>) -> spec_fn(DirView) -> int {
    |d: DirView| estimated_space(d, types)
}

proof fn pushed_totals(a: Seq<EntryView>, x: EntryView, ty: EntryType, n: int)
    ensures
        dir_total(a.push(x), ty, n) == dir_total(a, ty, n) + estimated_record(x, ty, n),
        area_total(a.push(x), ty) == area_total(a, ty) + estimated_overflow(x, ty),
{
    assert(a.push(x).drop_last() =~= a);
    assert(a.push(x).last() == x);
}

/// An entry more in a directory counts for its record, wherever it stands.
proof fn totals_grow(a: Seq<EntryView>, b: Seq<EntryView>, x: EntryView, ty: EntryType, n: int)
    ensures
        dir_total(a.push(x) + b, ty, n) == dir_total(a + b, ty, n) + estimated_record(x, ty, n),
        area_total(a.push(x) + b, ty) == area_total(a + b, ty) + estimated_overflow(x, ty),
{
    totals_join(a, b, ty, n);
    totals_join(a.push(x), b, ty, n);
    pushed_totals(a, x, ty, n);
}

/// What a directory lists is what was put into it.
proof fn listing_is_input(
    dir: DirView,
    entries: Seq<EntryView>,
    id: int,
    ty: EntryType,
    n: int,
)
    ensures
        ({
            let all = listing(with_entries(dir, entries, id));
            let none = Seq::<EntryView>::empty();
            &&& all.len() == listing(dir).len() + entries.len()
            &&& dir_total(all, ty, n) == dir_total(listing(dir), ty, n) + dir_total(
                entries,
                ty,
                n,
            ) - dir_total(none, ty, n)
            &&& area_total(all, ty) == area_total(listing(dir), ty) + area_total(entries, ty)
                - area_total(none, ty)
            &&& with_entries(dir, entries, id).name == dir.name
            &&& with_entries(dir, entries, id).rrip_name == dir.rrip_name
        }),
    decreases entries,
{
    if entries.len() == 0 {
        assert(entries =~= Seq::empty());
    } else {
        let init = entries.drop_last();
        let last = entries.last();
        listing_is_input(dir, init, id, ty, n);
        let before = with_entries(dir, init, id);
        let all = with_entries(dir, entries, id);
        let a = dir_entries(before.dirs);
        let b = file_entries(before.files);
        assert(listing(before) =~= a + b);
        match last.kind {
            KindView::Directory(children) => {
                let next = id + directory_count(init);
                let fresh = fresh_dir(last, next);
                let child = with_entries(fresh, children, next + 1);
                listing_is_input(fresh, children, next + 1, ty, n);
                let x = dir_entry(child);
                assert(all.dirs == before.dirs.push(child));
                assert(listing(all) =~= a.push(x) + b);
                totals_grow(a, b, x, ty, n);
                assert(x.name == last.name);
                assert(estimated_record(x, ty, n) == estimated_record(last, ty, n));
                assert(estimated_overflow(x, ty) == estimated_overflow(last, ty));
            },
            _ => {
                let file = crate::iso::written::fresh_file(last);
                assert(all.files == before.files.push(file));
                assert(listing(all) =~= listing(before).push(last));
                pushed_totals(listing(before), last, ty, n);
            },
        }
    }
}

proof fn spaces_are_equal(a: Seq<EntryView>, b: Seq<EntryView>, types: Seq<EntryType>)
    requires
        a.len() == b.len(),
        forall|ty: EntryType, n: int| #[trigger] dir_total(a, ty, n) == dir_total(b, ty, n),
        forall|ty: EntryType| #[trigger] area_total(a, ty) == area_total(b, ty),
    ensures
        dir_space(a, types, 2048) == dir_space(b, types, 2048),
        area_space(a, types, 2048) == area_space(b, types, 2048),
    decreases types.len(),
{
    if types.len() > 0 {
        spaces_are_equal(a, b, types.drop_last());
        let ty = types.last();
        assert(dir_total(a, ty, a.len() as int) == dir_total(b, ty, a.len() as int));
        assert(area_total(a, ty) == area_total(b, ty));
    }
}

/// The space that is estimated for a directory is that for its entries.
proof fn child_space(fresh: DirView, children: Seq<EntryView>, id: int, types: Seq<EntryType>)
    requires
        fresh.dirs.len() == 0,
        fresh.files.len() == 0,
    ensures
        estimated_space(with_entries(fresh, children, id), types) == dir_space(
            children,
            types,
            2048,
        ) + area_space(children, types, 2048),
{
    let child = with_entries(fresh, children, id);
    assert(listing(fresh) =~= Seq::empty());
    assert forall|ty: EntryType, n: int| #[trigger] dir_total(listing(child), ty, n) == dir_total(
        children,
        ty,
        n,
    ) by {
        listing_is_input(fresh, children, id, ty, n);
    }
    assert forall|ty: EntryType| #[trigger] area_total(listing(child), ty) == area_total(
        children,
        ty,
    ) by {
        listing_is_input(fresh, children, id, ty, 0);
    }
    listing_is_input(fresh, children, id, EntryType::Level1 {
        supports_lowercase: false,
        supports_rrip: false,
    }, 0);
    spaces_are_equal(listing(child), children, types);
}

/// What the estimate counts of a tree is there: its directories, their names, the space for
/// their records and their files' data.
proof fn counted(dir: DirView, entries: Seq<EntryView>, id: int, types: Seq<EntryType>)
    requires
        dir.relocation == DirectoryRelocation::InPlace,
    ensures
        ({
            let stats = list_stats(entries, types, 2048);
            let all = with_entries(dir, entries, id);
            &&& list_sum(all.dirs, estimate_each(types)) == list_sum(
                dir.dirs,
                estimate_each(types),
            ) + stats.record_bytes + stats.area_bytes
            &&& space_of(all.files) + list_sum(all.dirs, data_each()) == space_of(dir.files)
                + list_sum(dir.dirs, data_each()) + stats.file_bytes
            &&& cover(all.dirs, types) == cover(dir.dirs, types) + 9 * stats.dirs
                + stats.name_bytes
            &&& tree_fields(all.dirs) == tree_fields(dir.dirs) + stats.field_bytes
            &&& stats.dirs == directory_count(entries)
            &&& all.relocation == DirectoryRelocation::InPlace
            &&& all.name == dir.name && all.rrip_name == dir.rrip_name
        }),
    decreases entries,
{
    if entries.len() > 0 {
        let init = entries.drop_last();
        let last = entries.last();
        counted(dir, init, id, types);
        let before = with_entries(dir, init, id);
        assert(list_stats(entries, types, 2048) == list_stats(init, types, 2048).plus(
            entry_stats(last, types, 2048),
        ));
        match last.kind {
            KindView::Directory(children) => {
                let next = id + directory_count(init);
                let fresh = fresh_dir(last, next);
                counted(fresh, children, next + 1, types);
                let child = with_entries(fresh, children, next + 1);
                let all = before.dirs.push(child);
                assert(all.drop_last() =~= before.dirs);
                assert(all.last() == child);
                child_space(fresh, children, next + 1, types);
                child_counts(before.dirs, child, types);
                assert(list_sum(fresh.dirs, data_each()) == 0);
                assert(list_sum(fresh.dirs, estimate_each(types)) == 0);
                no_files_no_space(fresh.files);
                assert(cover(fresh.dirs, types) == 0);
                assert(tree_fields(fresh.dirs) == 0);
                assert(child_fields_len(child) == fields_len(last));
                let sub = list_stats(children, types, 2048);
                let t = tree_stats(children, types, 2048);
                let e = entry_stats(last, types, 2048);
                assert(t.dirs == sub.dirs && t.file_bytes == sub.file_bytes);
                assert(e.dirs == 1 + sub.dirs);
                assert(e.file_bytes == sub.file_bytes);
                assert(e.record_bytes == t.record_bytes && e.area_bytes == t.area_bytes);
                assert(e.name_bytes == longest_name_len(last.name, types) + sub.name_bytes);
                assert(e.field_bytes == fields_len(last) + sub.field_bytes);
            },
            KindView::File(contents) => {
                whole_is_align(contents.len() as int);
                added_file(before.files, crate::iso::written::fresh_file(last));
                let e = entry_stats(last, types, 2048);
                assert(e.dirs == 0 && e.record_bytes == 0 && e.area_bytes == 0);
                assert(e.name_bytes == 0 && e.field_bytes == 0);
                assert(e.file_bytes == whole(contents.len() as int, 2048));
            },
            _ => {
                added_file(before.files, crate::iso::written::fresh_file(last));
                align_up_bounds(0, 2048);
                let e = entry_stats(last, types, 2048);
                assert(e.dirs == 0 && e.record_bytes == 0 && e.area_bytes == 0);
                assert(e.name_bytes == 0 && e.field_bytes == 0);
                assert(e.file_bytes == 0);
            },
        }
    }
}

proof fn child_counts(dirs: Seq<DirView>, child: DirView, types: Seq<EntryType>)
    requires
        child.relocation == DirectoryRelocation::InPlace,
    ensures
        list_sum(dirs.push(child), data_each()) == list_sum(dirs, data_each()) + space_of(
            child.files,
        ) + list_sum(child.dirs, data_each()),
        list_sum(dirs.push(child), estimate_each(types)) == list_sum(dirs, estimate_each(types))
            + estimated_space(child, types) + list_sum(child.dirs, estimate_each(types)),
{
    let all = dirs.push(child);
    assert(all.drop_last() =~= dirs);
    assert(all.last() == child);
    assert(tree_sum(child, data_each()) == space_of(child.files) + list_sum(
        child.dirs,
        data_each(),
    ));
    assert(tree_sum(child, estimate_each(types)) == estimated_space(child, types) + list_sum(
        child.dirs,
        estimate_each(types),
    ));
}

/// Whole sectors by division are whole sectors by rounding.
proof fn whole_is_align(n: int)
    requires
        n >= 0,
    ensures
        whole(n, 2048) == align_up(n, 2048),
        n > 0 ==> whole(n, 2048) >= 2048,
        whole(n, 2048) >= n,
        whole(n, 2048) % 2048 == 0,
{
    align_up_bounds(n, 2048);
    if n % 2048 == 0 {
        assert((n + 2047) / 2048 == n / 2048);
    } else {
        assert((n + 2047) / 2048 == n / 2048 + 1);
    }
}

proof fn no_files_no_space(files: Seq<FileView>)
    requires
        files.len() == 0,
    ensures
        space_of(files) == 0,
{
    assert(Seq::new(files.len(), |i: int| file_space(files[i])) =~= Seq::empty());
}

/// The records of directory number `k` as they are planned.
pub open spec fn planned_records(
    blank: DirView,
    jobs: Seq<(Seq<usize>, EntryType)>,
    rrip: Option<RripOptions>,
    time: Seq<u8>,
    refs: Map<DirKey, DirectoryRef>,
    start: int,
    k: int,
) -> Seq<RecordView> {
    let p = plan_dirs(blank, jobs.take(k), rrip, time, refs, start, 1)->Ok_0;
    let (path, ty) = jobs[k];
    records_of(dir_at(blank, path), path.len() == 0, ty, p.inode, rrip, time, refs)->Ok_0
}

proof fn plan_prefix_ok(
    blank: DirView,
    jobs: Seq<(Seq<usize>, EntryType)>,
    rrip: Option<RripOptions>,
    time: Seq<u8>,
    refs: Map<DirKey, DirectoryRef>,
    start: int,
    k: int,
)
    requires
        plan_dirs(blank, jobs, rrip, time, refs, start, 1) is Ok,
        0 <= k <= jobs.len(),
    ensures
        plan_dirs(blank, jobs.take(k), rrip, time, refs, start, 1) is Ok,
    decreases jobs.len(),
{
    if k == jobs.len() {
        assert(jobs.take(k) =~= jobs);
    } else {
        plan_prefix_ok(blank, jobs.drop_last(), rrip, time, refs, start, k);
        assert(jobs.drop_last().take(k) =~= jobs.take(k));
    }
}

/// What a directory takes: its records and its continuation area in whole sectors.
spec fn taken_by(records: Seq<RecordView>) -> int {
    align_up(pack_end(0, records, 2048), 2048) + align_up(overflow_total(records), 2048)
}

spec fn needs(
    jobs: Seq<(Seq<usize>, EntryType)>,
    need: spec_fn(Seq<usize>, EntryType) -> int,
) -> int {
    sum(Seq::new(jobs.len(), |i: int| need(jobs[i].0, jobs[i].1)))
}

/// Directories take what each needs.
proof fn directories_take_their_space(
    blank: DirView,
    jobs: Seq<(Seq<usize>, EntryType)>,
    rrip: Option<RripOptions>,
    time: Seq<u8>,
    refs: Map<DirKey, DirectoryRef>,
    start: int,
    n: int,
    need: spec_fn(Seq<usize>, EntryType) -> int,
)
    requires
        start >= 0,
        start % 2048 == 0,
        plan_dirs(blank, jobs, rrip, time, refs, start, 1) is Ok,
        0 <= n <= jobs.len(),
        forall|k: int|
            0 <= k < jobs.len() ==> taken_by(
                #[trigger] planned_records(blank, jobs, rrip, time, refs, start, k),
            ) <= need(jobs[k].0, jobs[k].1),
    ensures
        ({
            let p = plan_dirs(blank, jobs.take(n), rrip, time, refs, start, 1)->Ok_0;
            &&& plan_dirs(blank, jobs.take(n), rrip, time, refs, start, 1) is Ok
            &&& start <= p.cursor
            &&& align_up(p.cursor, 2048) <= start + needs(jobs.take(n), need)
        }),
    decreases n,
{
    plan_prefix_ok(blank, jobs, rrip, time, refs, start, n);
    let part = jobs.take(n);
    let w = Seq::new(part.len(), |i: int| need(part[i].0, part[i].1));
    if n == 0 {
        align_up_bounds(start, 2048);
        assert(w =~= Seq::empty());
    } else {
        directories_take_their_space(blank, jobs, rrip, time, refs, start, n - 1, need);
        let shorter = jobs.take(n - 1);
        assert(part.drop_last() =~= shorter);
        assert(part.last() == jobs[n - 1]);
        assert(w.drop_last() =~= Seq::new(
            shorter.len(),
            |i: int| need(shorter[i].0, shorter[i].1),
        ));
        assert(w.last() == need(jobs[n - 1].0, jobs[n - 1].1));
        reveal(plan_step);
        let q = plan_dirs(blank, shorter, rrip, time, refs, start, 1)->Ok_0;
        let records = planned_records(blank, jobs, rrip, time, refs, start, n - 1);
        assert(taken_by(records) <= need(jobs[n - 1].0, jobs[n - 1].1));
        one_directory(q.cursor, records);
    }
}

proof fn one_directory(cursor: int, records: Seq<RecordView>)
    requires
        cursor >= 0,
    ensures
        align_up(dir_end(cursor, records) + overflow_total(records), 2048) <= align_up(
            cursor,
            2048,
        ) + taken_by(records),
        dir_end(cursor, records) + overflow_total(records) >= cursor,
{
    let first = align_up(cursor, 2048);
    align_up_bounds(cursor, 2048);
    pack_end_shift(first, records);
    pack_end_grows(0, records, 0, 2048);
    let e = pack_end(0, records, 2048);
    align_up_bounds(first + e, 2048);
    align_up_bounds(e, 2048);
    assert(align_up(first + e, 2048) == first + align_up(e, 2048)) by {
        assert((first + e + 2047) / 2048 == first / 2048 + (e + 2047) / 2048);
    }
    overflow_total_prefix(records, 0);
    let o = overflow_total(records);
    let end = dir_end(cursor, records);
    align_up_bounds(end + o, 2048);
    align_up_bounds(o, 2048);
    assert(align_up(end + o, 2048) == end + align_up(o, 2048)) by {
        assert((end + o + 2047) / 2048 == end / 2048 + (o + 2047) / 2048);
    }
}

/// What a directory needs in all namespaces.
spec fn path_need(
    path: Seq<usize>,
    types: Seq<EntryType>,
    need: spec_fn(Seq<usize>, EntryType) -> int,
) -> int
    decreases types.len(),
{
    if types.len() == 0 {
        0
    } else {
        path_need(path, types.drop_last(), need) + need(path, types.last())
    }
}

spec fn path_total(paths: Seq<Seq<usize>>, f: spec_fn(Seq<usize>) -> int) -> int {
    sum(Seq::new(paths.len(), |i: int| f(paths[i])))
}

proof fn one_path_needs(
    path: Seq<usize>,
    types: Seq<EntryType>,
    need: spec_fn(Seq<usize>, EntryType) -> int,
)
    ensures
        sum(Seq::new(types.len(), |i: int| need(path, types[i]))) == path_need(path, types, need),
    decreases types.len(),
{
    let x = Seq::new(types.len(), |i: int| need(path, types[i]));
    if types.len() == 0 {
        assert(x =~= Seq::empty());
    } else {
        let init = types.drop_last();
        one_path_needs(path, init, need);
        assert(x.drop_last() =~= Seq::new(init.len(), |i: int| need(path, init[i])));
    }
}

proof fn pairs_need(
    paths: Seq<Seq<usize>>,
    types: Seq<EntryType>,
    need: spec_fn(Seq<usize>, EntryType) -> int,
)
    ensures
        needs(pairs(paths, types), need) == path_total(
            paths,
            |p: Seq<usize>| path_need(p, types, need),
        ),
    decreases paths.len(),
{
    let f = |p: Seq<usize>| path_need(p, types, need);
    let jobs = pairs(paths, types);
    let w = Seq::new(jobs.len(), |i: int| need(jobs[i].0, jobs[i].1));
    let sums = Seq::new(paths.len(), |i: int| f(paths[i]));
    if paths.len() == 0 {
        assert(w =~= Seq::empty());
        assert(sums =~= Seq::empty());
    } else {
        let init = paths.drop_last();
        pairs_need(init, types, need);
        let before = pairs(init, types);
        let x = Seq::new(before.len(), |i: int| need(before[i].0, before[i].1));
        let y = Seq::new(types.len(), |i: int| need(paths.last(), types[i]));
        assert(w =~= x + y);
        sum_joins(x, y);
        one_path_needs(paths.last(), types, need);
        assert(sums.drop_last() =~= Seq::new(init.len(), |i: int| f(init[i])));
    }
}

/// Two sums that differ at one way.
proof fn total_changes(
    paths: Seq<Seq<usize>>,
    f: spec_fn(Seq<usize>) -> int,
    g: spec_fn(Seq<usize>) -> int,
    p: Seq<usize>,
)
    requires
        paths.no_duplicates(),
        forall|i: int| 0 <= i < paths.len() && paths[i] != p ==> f(#[trigger] paths[i]) == g(paths[i]),
    ensures
        path_total(paths, f) == path_total(paths, g) + (if paths.contains(p) {
            f(p) - g(p)
        } else {
            0
        }),
    decreases paths.len(),
{
    let x = Seq::new(paths.len(), |i: int| f(paths[i]));
    let y = Seq::new(paths.len(), |i: int| g(paths[i]));
    if paths.len() == 0 {
        assert(x =~= Seq::empty());
        assert(y =~= Seq::empty());
    } else {
        let init = paths.drop_last();
        let n = paths.len() - 1;
        assert(init.no_duplicates()) by {
            assert forall|i: int, j: int| 0 <= i < j < init.len() implies init[i] != init[j] by {
                assert(paths[i] != paths[j]);
            }
        }
        assert forall|i: int| 0 <= i < init.len() && init[i] != p implies f(#[trigger] init[i])
            == g(init[i]) by {
            assert(paths[i] == init[i]);
        }
        total_changes(init, f, g, p);
        assert(x.drop_last() =~= Seq::new(init.len(), |i: int| f(init[i])));
        assert(y.drop_last() =~= Seq::new(init.len(), |i: int| g(init[i])));
        assert(paths[n] == paths.last());
        if paths[n] == p {
            if init.contains(p) {
                let i = choose|i: int| 0 <= i < init.len() && init[i] == p;
                assert(paths[i] == paths[n]);
            }
            assert(paths.contains(p));
        } else {
            if paths.contains(p) {
                let i = choose|i: int| 0 <= i < paths.len() && paths[i] == p;
                assert(init[i] == p);
            }
            if init.contains(p) {
                let i = choose|i: int| 0 <= i < init.len() && init[i] == p;
                assert(paths[i] == p);
            }
        }
    }
}

/// What a directory needs at most in a namespace. The root is estimated for the entries that
/// were put in, and the directory that holds relocated ones by how many there are.
spec fn need_of(
    root: DirView,
    tree: Seq<EntryView>,
    relocated: bool,
    path: Seq<usize>,
    ty: EntryType,
) -> int {
    let dir = dir_at(root, path);
    if path.len() == 0 {
        packed_sectors(
            dir_total(listing(dir), ty, tree.len() as int),
            widest_record(ty, tree.len() as int),
            2048,
        ) * 2048 + (if ty.rrip() {
            whole(320 + area_total(listing(dir), ty), 2048)
        } else {
            0
        })
    } else if relocated && path == seq![0usize] {
        packed_sectors(255 * (2 + dir.dirs.len() as int), 255, 2048) * 2048 + (if ty.rrip() {
            whole(children_fields_len(dir.dirs), 2048)
        } else {
            0
        })
    } else {
        packed_sectors(
            dir_total(listing(dir), ty, listing(dir).len() as int),
            widest_record(ty, listing(dir).len() as int),
            2048,
        ) * 2048 + (if ty.rrip() {
            whole(area_total(listing(dir), ty), 2048)
        } else {
            0
        })
    }
}

spec fn need_fn(root: DirView, tree: Seq<EntryView>, relocated: bool) -> spec_fn(
    Seq<usize>,
    EntryType,
) -> int {
    |path: Seq<usize>, ty: EntryType| need_of(root, tree, relocated, path, ty)
}

/// Directories that are neither the root nor hold relocated ones need what is estimated.
proof fn usual_need(
    root: DirView,
    tree: Seq<EntryView>,
    relocated: bool,
    path: Seq<usize>,
    types: Seq<EntryType>,
)
    requires
        path.len() > 0,
        !(relocated && path == seq![0usize]),
    ensures
        path_need(path, types, need_fn(root, tree, relocated)) == estimated_space(
            dir_at(root, path),
            types,
        ),
    decreases types.len(),
{
    if types.len() > 0 {
        usual_need(root, tree, relocated, path, types.drop_last());
    }
}

/// A record more takes at most a sector more.
proof fn more_records(total: int, more: int, k: int, widest: int)
    requires
        total >= 0,
        0 <= more <= 255 * k,
        k >= 0,
        34 <= widest <= 255,
    ensures
        packed_sectors(total + more, widest, 2048) <= packed_sectors(total, widest, 2048) + k,
{
    let f = 2049 - widest;
    let (d, e) = (total / f, (total + more) / f);
    vstd::arithmetic::div_mod::lemma_fundamental_div_mod(total, f);
    vstd::arithmetic::div_mod::lemma_mod_bound(total, f);
    vstd::arithmetic::div_mod::lemma_fundamental_div_mod(total + more, f);
    vstd::arithmetic::div_mod::lemma_mod_bound(total + more, f);
    if k > 0 && total + more > 2048 {
        if total <= 2048 {
            assert(e <= k) by (nonlinear_arith)
                requires
                    f * e <= 2048 + 255 * k,
                    f >= 1794,
                    k >= 1,
            ;
        } else {
            assert(e <= d + k) by (nonlinear_arith)
                requires
                    f * e <= total + 255 * k,
                    total < f * d + f,
                    f >= 1794,
                    k >= 1,
            ;
        }
    }
}

/// What the root needs: what is estimated for its entries, and as many sectors more as it
/// has records more.
proof fn root_need(
    root: DirView,
    tree: Seq<EntryView>,
    relocated: bool,
    types: Seq<EntryType>,
    more: int,
)
    requires
        more >= 0,
        forall|ty: EntryType|
            0 <= #[trigger] dir_total(listing(root), ty, tree.len() as int) - dir_total(
                tree,
                ty,
                tree.len() as int,
            ) <= 255 * more,
        forall|ty: EntryType| #[trigger] area_total(listing(root), ty) == area_total(tree, ty),
        forall|i: int| 1 <= i < types.len() ==> !(#[trigger] types[i]).rrip(),
    ensures
        path_need(Seq::empty(), types, need_fn(root, tree, relocated)) <= dir_space(
            tree,
            types,
            2048,
        ) + area_space(tree, types, 2048) + more * types.len() * 2048 + (if any_rrip(types) {
            2048int
        } else {
            0
        }),
    decreases types.len(),
{
    let empty = Seq::<usize>::empty();
    if types.len() > 0 {
        let init = types.drop_last();
        let ty = types.last();
        assert forall|i: int| 1 <= i < init.len() implies !(#[trigger] init[i]).rrip() by {
            assert(types[i] == init[i]);
        }
        root_need(root, tree, relocated, init, more);
        one_has_fields(types);
        let n = tree.len() as int;
        let a = dir_total(tree, ty, n);
        let b = dir_total(listing(root), ty, n);
        totals_are_natural(tree, ty, n);
        widest_bounds(ty, n);
        more_records(a, b - a, more, widest_record(ty, n));
        assert(area_total(listing(root), ty) == area_total(tree, ty));
        let area = area_total(tree, ty);
        whole_is_align(320 + area);
        whole_is_align(area);
        assert((320 + area + 2047) / 2048 <= (area + 2047) / 2048 + 1);
        let k = init.len() as int;
        assert(more * (k + 1) * 2048 == more * k * 2048 + more * 2048) by (nonlinear_arith);
    } else {
        assert(more * 0 * 2048 == 0) by (nonlinear_arith);
    }
}

proof fn totals_are_natural(entries: Seq<EntryView>, ty: EntryType, n: int)
    ensures
        dir_total(entries, ty, n) >= 0,
        area_total(entries, ty) >= 0,
    decreases entries.len(),
{
    if entries.len() > 0 {
        totals_are_natural(entries.drop_last(), ty, n);
        record_natural(entries.last(), ty, n);
    }
}

/// What the directory needs that holds `m` relocated ones: no more than a sector for each,
/// and a continuation area where there are Rock Ridge fields.
proof fn holder_need(
    root: DirView,
    tree: Seq<EntryView>,
    types: Seq<EntryType>,
    fields: int,
)
    requires
        dir_at(root, seq![0usize]).dirs.len() >= 1,
        children_fields_len(dir_at(root, seq![0usize]).dirs) <= fields,
        children_fields_len(dir_at(root, seq![0usize]).dirs) >= 0,
        forall|i: int| 1 <= i < types.len() ==> !(#[trigger] types[i]).rrip(),
    ensures
        path_need(seq![0usize], types, need_fn(root, tree, true)) <= dir_at(
            root,
            seq![0usize],
        ).dirs.len() * types.len() * 2048 + (if any_rrip(types) {
            whole(fields, 2048)
        } else {
            0
        }),
    decreases types.len(),
{
    let path = seq![0usize];
    let dir = dir_at(root, path);
    let m = dir.dirs.len() as int;
    if types.len() == 0 {
        assert(m * 0 * 2048 == 0) by (nonlinear_arith);
    } else {
        let init = types.drop_last();
        let ty = types.last();
        assert forall|i: int| 1 <= i < init.len() implies !(#[trigger] init[i]).rrip() by {
            assert(types[i] == init[i]);
        }
        holder_need(root, tree, init, fields);
        assert(packed_sectors(255 * (2 + m), 255, 2048) <= m) by {
            if 255 * (2 + m) > 2048 {
                assert(m >= 7);
                assert(255 * (2 + m) / 1794 + 1 <= m);
            }
        }
        let k = init.len() as int;
        assert(m * (k + 1) * 2048 == m * k * 2048 + m * 2048) by (nonlinear_arith);
        whole_ascends(children_fields_len(dir.dirs), fields);
        one_has_fields(types);
    }
}

/// Only the first namespace has Rock Ridge fields.
proof fn one_has_fields(types: Seq<EntryType>)
    requires
        types.len() > 0,
        forall|i: int| 1 <= i < types.len() ==> !(#[trigger] types[i]).rrip(),
    ensures
        any_rrip(types) == (any_rrip(types.drop_last()) || types.last().rrip()),
        types.last().rrip() ==> !any_rrip(types.drop_last()),
{
    let init = types.drop_last();
    if types.last().rrip() {
        assert(types[types.len() - 1].rrip());
        assert(types.len() == 1);
    }
    if any_rrip(init) {
        let i = choose|i: int| 0 <= i < init.len() && (#[trigger] init[i]).rrip();
        assert(types[i].rrip());
    }
    if any_rrip(types) {
        let i = choose|i: int| 0 <= i < types.len() && (#[trigger] types[i]).rrip();
        if i < init.len() {
            assert(init[i].rrip());
        }
    }
}

proof fn whole_ascends(a: int, b: int)
    requires
        0 <= a <= b,
    ensures
        whole(a, 2048) <= whole(b, 2048),
        whole(a, 2048) >= 0,
{
    whole_is_align(a);
    whole_is_align(b);
    assert((a + 2047) / 2048 <= (b + 2047) / 2048);
}

spec fn table_within(root: DirView, ty: EntryType, endian: EndianType, bound: int) -> bool {
    path_table(root, ty, endian) is Ok ==> path_table(root, ty, endian)->Ok_0.len() <= bound
}

/// Path tables take at most their bound in whole sectors, twice for each namespace.
proof fn tables_take_their_space(root: DirView, types: Seq<EntryType>, data: Seq<u8>, bound: int)
    requires
        with_path_tables(root, types, data) is Ok,
        bound >= 0,
        forall|i: int, endian: EndianType|
            0 <= i < types.len() ==> #[trigger] table_within(root, types[i], endian, bound),
    ensures
        align_up(with_path_tables(root, types, data)->Ok_0.0.len() as int, 2048) <= align_up(
            data.len() as int,
            2048,
        ) + types.len() * (2 * align_up(bound, 2048)),
    decreases types.len(),
{
    if types.len() > 0 {
        let init = types.drop_last();
        let last = types.len() - 1;
        assert forall|i: int, endian: EndianType|
            0 <= i < init.len() implies #[trigger] table_within(root, init[i], endian, bound) by {
            assert(table_within(root, types[i], endian, bound));
        }
        tables_take_their_space(root, init, data, bound);
        let before = with_path_tables(root, init, data)->Ok_0.0;
        let l = path_table(root, types[last], EndianType::LittleEndian)->Ok_0;
        let m = path_table(root, types[last], EndianType::BigEndian)->Ok_0;
        assert(table_within(root, types[last], EndianType::LittleEndian, bound));
        assert(table_within(root, types[last], EndianType::BigEndian, bound));
        let middle = with_table(before, l);
        table_takes_its_space(before, l, bound);
        table_takes_its_space(middle, m, bound);
        let a = align_up(bound, 2048);
        assert((last + 1) * (2 * a) == last * (2 * a) + 2 * a) by (nonlinear_arith);
    }
}

proof fn table_takes_its_space(data: Seq<u8>, table: Seq<u8>, bound: int)
    requires
        table.len() <= bound,
    ensures
        align_up(with_table(data, table).len() as int, 2048) <= align_up(data.len() as int, 2048)
            + align_up(bound, 2048),
{
    padded_is_aligned(data);
    padded_is_aligned(padded(data) + table);
    let a = align_up(data.len() as int, 2048);
    let n = table.len() as int;
    align_up_bounds(data.len() as int, 2048);
    align_up_bounds(a + n, 2048);
    align_up_bounds(bound, 2048);
    assert(align_up(a + n, 2048) == a + align_up(n, 2048)) by {
        assert((a + n + 2047) / 2048 == a / 2048 + (n + 2047) / 2048);
    }
    assert(align_up(n, 2048) <= align_up(bound, 2048)) by {
        assert((n + 2047) / 2048 <= (bound + 2047) / 2048);
    }
    align_up_bounds(align_up(a + n, 2048), 2048);
}

/// A GPT adds 36 blocks of 512 bytes, any other table nothing.
proof fn tables_len(root: DirView, ops: IsoFormatOptions, data: Seq<u8>)
    requires
        with_tables(root, ops, data) is Ok,
        data.len() % 2048 == 0,
        data.len() >= 32768,
    ensures
        with_tables(root, ops, data)->Ok_0.len() == data.len() + backup_len(ops.features, 2048),
{
    let end_sector = (data.len() / 2048) as int;
    assert(sectors(33, 2048int / 512) == 9);
    match ops.features.hybrid_boot {
        None => {},
        Some(h) => match h.partition_scheme {
            PartitionScheme::NoTable => {},
            PartitionScheme::Mbr => {
                let entry = mbr_entry(h.bootable, 0x17, 0, (end_sector * 4) as u32);
                entry_len(h.bootable, 0x17, 0, (end_sector * 4) as u32);
                mbr_len(boot_code(h.mbr_bootstrap), entry);
            },
            PartitionScheme::Gpt => {
                let total = total_512(end_sector);
                let count = if total - 1 > u32::MAX {
                    u32::MAX
                } else {
                    (total - 1) as u32
                };
                entry_len(false, 0xEE, 1, count);
                mbr_len(zeros(446), mbr_entry(false, 0xEE, 1, count));
                gpt_parts_len(root, ops, end_sector);
                gpt_len(
                    data,
                    mbr_bytes(zeros(446), mbr_entry(false, 0xEE, 1, count)),
                    gpt_parts(root, ops, end_sector)->Ok_0,
                    ops.volume_name@,
                );
            },
            PartitionScheme::Hybrid => {
                let parts = gpt_parts(root, ops, end_sector)->Ok_0;
                gpt_parts_len(root, ops, end_sector);
                hybrid_entries_len(parts, h.bootable);
                let entries = hybrid_entries(parts, h.bootable)->Ok_0;
                mbr_len(boot_code(h.mbr_bootstrap), entries);
                gpt_len(
                    data,
                    mbr_bytes(boot_code(h.mbr_bootstrap), entries),
                    parts,
                    ops.volume_name@,
                );
            },
        },
    }
}

proof fn gpt_len(data: Seq<u8>, mbr: Seq<u8>, parts: Seq<PartitionView>, name: Seq<char>)
    requires
        mbr.len() == 512,
        data.len() % 2048 == 0,
        data.len() >= 32768,
        parts.len() <= 3,
        forall|i: int| 0 <= i < parts.len() ==> (#[trigger] parts[i]).guid.len() == 16,
    ensures
        with_gpt(data, mbr, parts, name).len() == data.len() + 18432,
{
    reveal(with_gpt);
    let blocks = (data.len() / 2048) as int;
    let total = total_512(blocks);
    assert(total == 4 * blocks + 36);
    assert(data.len() == 2048 * blocks);
    let array = gpt_array(parts);
    let disk = named_guid(disk_prefix(), name);
    guid_len(disk_prefix() + vstd::utf8::encode_utf8(name));
    gpt_entries_len(parts);
    assert(array.len() == 16384);
    let sum = crc_of(array);
    gpt_header_len(1, (total - 1) as u64, (total - 34) as u64, disk, 2, sum);
    gpt_header_len((total - 1) as u64, 1, (total - 34) as u64, disk, (total - 33) as u64, sum);
    let own = gpt_header(1, (total - 1) as u64, (total - 34) as u64, disk, 2, sum);
    overwritten_len(data, 0, mbr + own + array);
    zeros_len(total * 512 - 33 * 512 - data.len());
}

/// The length of an image: that of its data in whole sectors, with the boot catalog where it
/// has no file, and of the backup GPT.
pub proof fn image_length(
    tree: Seq<EntryView>,
    ops: IsoFormatOptions,
    floor: Option<u32>,
    time: Seq<u8>,
)
    requires
        image(tree, ops, floor, time) is Ok,
    ensures
        ({
            let body = body_of(tree, ops, floor, time).0;
            image(tree, ops, floor, time)->Ok_0.len() == align_up(body.len() as int, 2048)
                + loose_catalog(ops.features) + backup_len(ops.features, 2048)
        }),
{
    reveal(image);
    let types = entry_types_of(ops.features);
    let (body, full, tables) = body_of(tree, ops, floor, time);
    let (data, catalog) = booted(body, full, ops);
    image_is_described(tree, ops, floor, time);
    padded_is_aligned(body);
    padded_is_aligned(data);
    match ops.features.el_torito {
        None => {},
        Some(boot) => {
            let n = boot.entries@.len() as int;
            booting_length(full, boot, body);
            catalog_len(full, boot, padded(body), n);
            let s = catalog_steps(full, boot, padded(body), n)->Ok_0;
            padded_is_aligned(catalog_bytes(s));
            align_up_bounds(data.len() as int, 2048);
        },
    }
    let list = descriptors_of(data, catalog, full, tables, ops);
    let space = volume_space(ops.features, (padded(data).len() / 2048) as int);
    namespaces_differ(ops.features);
    descriptors_len(ops, types, locations(full, types, tables, space), catalog);
    overwritten_len(padded(data), 32768, list);
    tables_len(full, ops, overwritten(padded(data), 32768, list));
}

proof fn first_directory_is_there(tree: Seq<EntryView>)
    ensures
        0 <= first_directory(tree) <= tree.len(),
    decreases tree.len(),
{
    if tree.len() > 0 {
        first_directory_is_there(tree.drop_first());
    }
}

proof fn image_has_a_body(
    tree: Seq<EntryView>,
    ops: IsoFormatOptions,
    floor: Option<u32>,
    time: Seq<u8>,
)
    requires
        image(tree, ops, floor, time) is Ok,
    ensures
        image_body(
            root_of(tree, ops),
            ops,
            entry_types_of(ops.features),
            time,
            start_of(ops, floor),
        ) is Ok,
        list_events(input_with_catalog(tree, ops.features.el_torito)).len() < usize::MAX,
{
    reveal(image);
}

proof fn sums_are_local(types: Seq<EntryType>)
    ensures
        is_local(data_each()),
        is_local(estimate_each(types)),
{
    let f = estimate_each(types);
    assert forall|d: DirView, e: DirView|
        d.files == e.files && names_of(d.dirs) == names_of(e.dirs) implies #[trigger] f(d)
        == #[trigger] f(e) by {
        same_names_same_space(d, e, types);
    }
}

proof fn same_names_same_space(d: DirView, e: DirView, types: Seq<EntryType>)
    requires
        d.files == e.files,
        names_of(d.dirs) == names_of(e.dirs),
    ensures
        estimated_space(d, types) == estimated_space(e, types),
{
    let (x, y) = (listing(d), listing(e));
    assert(names_of(d.dirs).len() == d.dirs.len() && names_of(e.dirs).len() == e.dirs.len());
    assert forall|ty: EntryType, n: int| #[trigger] dir_total(x, ty, n) == dir_total(y, ty, n) by {
        same_names_same_totals(d, e, ty, n);
    }
    assert forall|ty: EntryType| #[trigger] area_total(x, ty) == area_total(y, ty) by {
        same_names_same_totals(d, e, ty, 0);
    }
    spaces_are_equal(x, y, types);
}

/// What records take depends on names and files only.
proof fn same_names_same_totals(d: DirView, e: DirView, ty: EntryType, n: int)
    requires
        d.files == e.files,
        names_of(d.dirs) == names_of(e.dirs),
    ensures
        dir_total(listing(d), ty, n) == dir_total(listing(e), ty, n),
        area_total(listing(d), ty) == area_total(listing(e), ty),
        listing(d).len() == listing(e).len(),
{
    let (a, b) = (dir_entries(d.dirs), dir_entries(e.dirs));
    let files = file_entries(d.files);
    assert(names_of(d.dirs).len() == d.dirs.len() && names_of(e.dirs).len() == e.dirs.len());
    assert(listing(d) =~= a + files);
    assert(listing(e) =~= b + files);
    assert forall|i: int| 0 <= i < a.len() implies (#[trigger] a[i]).name == b[i].name by {
        assert(names_of(d.dirs)[i] == names_of(e.dirs)[i]);
    }
    same_dirs_same_totals(a, b, ty, n);
    totals_join(a, files, ty, n);
    totals_join(b, files, ty, n);
}

proof fn same_dirs_same_totals(a: Seq<EntryView>, b: Seq<EntryView>, ty: EntryType, n: int)
    requires
        a.len() == b.len(),
        forall|i: int| 0 <= i < a.len() ==> (#[trigger] a[i]).name == b[i].name,
        forall|i: int| 0 <= i < a.len() ==> (#[trigger] a[i]).kind is Directory,
        forall|i: int| 0 <= i < b.len() ==> (#[trigger] b[i]).kind is Directory,
    ensures
        dir_total(a, ty, n) == dir_total(b, ty, n),
        area_total(a, ty) == area_total(b, ty),
    decreases a.len(),
{
    if a.len() > 0 {
        let (x, y) = (a.drop_last(), b.drop_last());
        assert forall|i: int| 0 <= i < x.len() implies (#[trigger] x[i]).name == y[i].name by {
            assert(a[i].name == b[i].name);
        }
        assert forall|i: int| 0 <= i < x.len() implies (#[trigger] x[i]).kind is Directory by {
            assert(a[i].kind is Directory);
        }
        assert forall|i: int| 0 <= i < y.len() implies (#[trigger] y[i]).kind is Directory by {
            assert(b[i].kind is Directory);
        }
        same_dirs_same_totals(x, y, ty, n);
        let k = a.len() - 1;
        assert(a[k].name == b[k].name);
        assert(a[k].kind is Directory && b[k].kind is Directory);
    }
}

/// What is estimated for all directories below the root of an input, and the space of all
/// files.
proof fn input_is_counted(input: Seq<EntryView>, types: Seq<EntryType>)
    ensures
        ({
            let plain = plain_tree(input);
            let stats = list_stats(input, types, 2048);
            &&& list_sum(plain.dirs, estimate_each(types)) == stats.record_bytes
                + stats.area_bytes
            &&& tree_sum(plain, data_each()) == stats.file_bytes
            &&& cover(plain.dirs, types) == 9 * stats.dirs + stats.name_bytes
            &&& tree_fields(plain.dirs) == stats.field_bytes
            &&& stats.dirs == directory_count(input)
            &&& tree_size(plain.dirs) == directory_count(input)
            &&& is_plain(plain)
        }),
{
    let empty = new_dir(Seq::empty());
    let plain = plain_tree(input);
    counted(empty, input, 1, types);
    tree_size_counts(empty, input, 1);
    assert(tree_size(empty.dirs) == 0);
    assert(list_sum(empty.dirs, data_each()) == 0);
    assert(list_sum(empty.dirs, estimate_each(types)) == 0);
    assert(cover(empty.dirs, types) == 0);
    assert(tree_fields(empty.dirs) == 0);
    no_files_no_space(empty.files);
    assert(tree_sum(plain, data_each()) == space_of(plain.files) + list_sum(
        plain.dirs,
        data_each(),
    ));
    assert(is_plain(empty));
    entries_are_plain(empty, input, 1);
}

/// The files of an image take what is estimated for them.
proof fn data_is_counted(input: Seq<EntryView>, types: Seq<EntryType>, rrip: Option<RripOptions>)
    requires
        countable(built_tree(input, rrip)),
    ensures
        order_space(built_tree(input, rrip), order_of(built_tree(input, rrip))) == list_stats(
            input,
            types,
            2048,
        ).file_bytes,
{
    let root = built_tree(input, rrip);
    let plain = plain_tree(input);
    let paths = preorder(root, Seq::empty());
    input_is_counted(input, types);
    sums_are_local(types);
    relocation_adds(input, rrip, data_each());
    if is_relocated(input, rrip) {
        assert(root.files == plain.files);
        no_files_no_space(root.dirs[0].files);
    }
    preorder_sum(root, root, Seq::empty(), data_each());
    paths_have_few_files(root);
    order_is_all_files(root, paths);
}

/// The most that the directories of an image need.
spec fn directories_bound(
    tree: Seq<EntryView>,
    input: Seq<EntryView>,
    types: Seq<EntryType>,
    rrip: Option<RripOptions>,
    more: int,
) -> int {
    let stats = list_stats(input, types, 2048);
    stats.record_bytes + stats.area_bytes + dir_space(tree, types, 2048) + area_space(
        tree,
        types,
        2048,
    ) + more * types.len() * 2048 + (if any_rrip(types) {
        2048int
    } else {
        0
    }) + (if is_relocated(input, rrip) {
        (stats.dirs + 1) * types.len() * 2048 + (if any_rrip(types) {
            whole(stats.field_bytes, 2048)
        } else {
            0
        })
    } else {
        0
    })
}

/// What all directories of an image need together.
proof fn needs_are_covered(
    tree: Seq<EntryView>,
    input: Seq<EntryView>,
    types: Seq<EntryType>,
    rrip: Option<RripOptions>,
    more: int,
)
    requires
        countable(built_tree(input, rrip)),
        plain_tree(input).dirs.len() <= usize::MAX,
        more >= 0,
        input_has_more(tree, input, more),
        forall|i: int| 1 <= i < types.len() ==> !(#[trigger] types[i]).rrip(),
    ensures
        needs(
            jobs_of(built_tree(input, rrip), types),
            need_fn(built_tree(input, rrip), tree, is_relocated(input, rrip)),
        ) <= directories_bound(tree, input, types, rrip, more),
{
    let root = built_tree(input, rrip);
    let plain = plain_tree(input);
    let relocated = is_relocated(input, rrip);
    let paths = preorder(root, Seq::empty());
    let need = need_fn(root, tree, relocated);
    let each = estimate_each(types);
    let empty = Seq::<usize>::empty();
    let zero = seq![0usize];
    let stats = list_stats(input, types, 2048);
    input_is_counted(input, types);
    sums_are_local(types);
    relocation_adds(input, rrip, each);
    preorder_sum(root, root, empty, each);
    preorder_is_distinct(root, empty);
    pairs_need(paths, types, need);
    let f = |p: Seq<usize>| path_need(p, types, need);
    let g = |p: Seq<usize>| each(dir_at(root, p));
    let h = |p: Seq<usize>|
        if p == empty {
            path_need(p, types, need)
        } else {
            each(dir_at(root, p))
        };
    assert(Seq::new(paths.len(), |i: int| g(paths[i])) =~= Seq::new(
        paths.len(),
        |i: int| each(dir_at(root, paths[i])),
    ));
    assert(path_total(paths, g) == tree_sum(root, each));
    total_changes(paths, h, g, empty);
    assert(paths[0] == empty);
    assert(paths.contains(empty));
    assert(path_total(paths, h) == tree_sum(root, each) + path_need(empty, types, need) - each(
        root,
    ));
    assert forall|i: int| 0 <= i < paths.len() && paths[i] != zero implies f(#[trigger] paths[i])
        == h(paths[i]) by {
        if paths[i] != empty {
            assert(paths[i].len() > 0) by {
                if paths[i].len() == 0 {
                    assert(paths[i] =~= empty);
                }
            }
            usual_need(root, tree, relocated, paths[i], types);
        }
    }
    total_changes(paths, f, h, zero);
    assert(zero.len() == 1 && zero != empty);
    root_lists_more(tree, input, types, rrip, more);
    let extra = more + (if relocated {
        1int
    } else {
        0
    });
    root_need(root, tree, relocated, types, extra);
    let n = types.len() as int;
    assert(tree_sum(plain, each) == each(plain) + list_sum(plain.dirs, each));
    if relocated {
        let r = relocate_list(plain.dirs, plain.id, 1, 0, Seq::empty(), 1);
        holder_is_known(input, rrip);
        let holder = root.dirs[0];
        first_child_way(root);
        assert(preorder(holder, empty.push(0usize))[0] == empty.push(0usize));
        assert(empty.push(0usize) =~= zero);
        assert(preorder(holder, empty.push(0usize)).contains(zero));
        assert(root.dirs.len() <= usize::MAX);
        children_have_all(root.dirs, empty, 0, root.dirs.len() as int, zero);
        assert(root.dirs.take(root.dirs.len() as int) =~= root.dirs);
        let rest = preorder_children(root.dirs, empty);
        let k = choose|k: int| 0 <= k < rest.len() && rest[k] == zero;
        assert(paths[k + 1] == zero);
        assert(paths.contains(zero));
        relocation_fields(plain.dirs, plain.id, 1, 0, Seq::empty(), 1);
        relocation_is_counted(plain.dirs, plain.id, 1, 0, Seq::empty(), 1);
        assert(children_fields_len(Seq::empty()) == 0);
        fields_are_natural(holder.dirs);
        holder_need(root, tree, types, stats.field_bytes);
        let m = holder.dirs.len() as int;
        assert(m * n * 2048 + extra * n * 2048 <= more * n * 2048 + (stats.dirs + 1) * n * 2048)
            by (nonlinear_arith)
            requires
                m <= stats.dirs,
                extra == more + 1,
                n >= 0,
        ;
    } else {
        root_is_kept(input, rrip);
        same_names_same_space(root, plain, types);
        if paths.contains(zero) {
            usual_need(root, tree, relocated, zero, types);
        }
    }
}

proof fn fields_are_natural(dirs: Seq<DirView>)
    ensures
        children_fields_len(dirs) >= 0,
    decreases dirs.len(),
{
    if dirs.len() > 0 {
        fields_are_natural(dirs.drop_last());
    }
}

/// Whether the second list is the first, or has the file of the boot catalog too, which has
/// no more than the given number of records.
spec fn input_has_more(tree: Seq<EntryView>, input: Seq<EntryView>, more: int) -> bool {
    &&& input.len() <= tree.len() + 1
    &&& forall|ty: EntryType, n: int|
        0 <= #[trigger] dir_total(input, ty, n) - dir_total(tree, ty, n) <= 255 * more
    &&& forall|ty: EntryType| #[trigger] area_total(input, ty) == area_total(tree, ty)
}

/// What the root of an image lists besides the entries that were put in.
proof fn root_lists_more(
    tree: Seq<EntryView>,
    input: Seq<EntryView>,
    types: Seq<EntryType>,
    rrip: Option<RripOptions>,
    more: int,
)
    requires
        more >= 0,
        plain_tree(input).dirs.len() <= usize::MAX,
        input_has_more(tree, input, more),
    ensures
        ({
            let root = built_tree(input, rrip);
            let extra = more + (if is_relocated(input, rrip) {
                1int
            } else {
                0
            });
            &&& forall|ty: EntryType|
                0 <= #[trigger] dir_total(listing(root), ty, tree.len() as int) - dir_total(
                    tree,
                    ty,
                    tree.len() as int,
                ) <= 255 * extra
            &&& forall|ty: EntryType| #[trigger] area_total(listing(root), ty) == area_total(
                tree,
                ty,
            )
            &&& listing(root).len() <= tree.len() + 2
        }),
{
    let root = built_tree(input, rrip);
    let extra = more + (if is_relocated(input, rrip) {
        1int
    } else {
        0
    });
    let n = tree.len() as int;
    assert forall|ty: EntryType|
        0 <= #[trigger] dir_total(listing(root), ty, n) - dir_total(tree, ty, n) <= 255
            * extra by {
        root_totals(input, rrip, ty, n);
        assert(dir_total(input, ty, n) - dir_total(tree, ty, n) <= 255 * more);
    }
    assert forall|ty: EntryType| #[trigger] area_total(listing(root), ty) == area_total(
        tree,
        ty,
    ) by {
        root_totals(input, rrip, ty, n);
        assert(area_total(input, ty) == area_total(tree, ty));
    }
    root_totals(
        input,
        rrip,
        EntryType::Level1 { supports_lowercase: false, supports_rrip: false },
        n,
    );
}

proof fn root_totals(input: Seq<EntryView>, rrip: Option<RripOptions>, ty: EntryType, n: int)
    requires
        plain_tree(input).dirs.len() <= usize::MAX,
    ensures
        ({
            let root = built_tree(input, rrip);
            let d = dir_total(listing(root), ty, n) - dir_total(input, ty, n);
            &&& 0 <= d
            &&& is_relocated(input, rrip) ==> d <= 255 && listing(root).len() == input.len() + 1
            &&& !is_relocated(input, rrip) ==> d == 0 && listing(root).len() == input.len()
            &&& area_total(listing(root), ty) == area_total(input, ty)
        }),
{
    let root = built_tree(input, rrip);
    let plain = plain_tree(input);
    let empty = new_dir(Seq::empty());
    listing_is_input(empty, input, 1, ty, n);
    assert(listing(empty) =~= Seq::empty());
    if is_relocated(input, rrip) {
        holder_is_known(input, rrip);
        let r = relocate_list(plain.dirs, plain.id, 1, 0, Seq::empty(), 1);
        let holder = root.dirs[0];
        let rest = DirView { dirs: r.retained, ..root };
        same_names_same_totals(rest, plain, ty, n);
        let x = dir_entry(holder);
        let none = Seq::<EntryView>::empty();
        assert(listing(root) =~= none.push(x) + listing(rest));
        assert(none + listing(rest) =~= listing(rest));
        totals_grow(none, listing(rest), x, ty, n);
        record_natural(x, ty, n);
        name_len_natural(holder.name, ty);
        assert(encode_utf8(holder.name).len() <= 29);
        assert(fields_len(x) <= 116);
        short_name_len(holder.name, ty, 29);
        assert(estimated_overflow(x, ty) == 0);
    } else {
        root_is_kept(input, rrip);
        same_names_same_totals(root, plain, ty, n);
    }
}

/// Short ASCII names have short identifiers.
proof fn short_name_len(name: Seq<char>, ty: EntryType, n: int)
    requires
        name.len() <= n,
        encode_utf8(name).len() == name.len(),
        vstd::utf8::is_ascii_chars(name),
    ensures
        estimated_name_len(name, ty) <= 2 * n + 4,
{
    crate::iso::name::first_dot_bounds(encode_utf8(name));
    ascii_units(name);
}

proof fn ascii_units(s: Seq<char>)
    requires
        vstd::utf8::is_ascii_chars(s),
    ensures
        crate::text::utf16(s).len() <= s.len(),
    decreases s.len(),
{
    if s.len() > 0 {
        let init = s.drop_last();
        assert(vstd::utf8::is_ascii_chars(init)) by {
            assert forall|i: int| 0 <= i < init.len() implies '\0' <= #[trigger] init[i]
                <= '\u{7f}' by {
                assert(s[i] == init[i]);
            }
        }
        ascii_units(init);
        assert('\0' <= s[s.len() - 1] <= '\u{7f}');
    }
}

proof fn first_child_way(root: DirView)
    requires
        root.dirs.len() > 0,
    ensures
        valid_path(root, seq![0usize]),
        dir_at(root, seq![0usize]) == root.dirs[0],
{
    let way = seq![0usize];
    assert(way.drop_first() =~= Seq::empty());
    assert(valid_path(root.dirs[0], way.drop_first()));
    assert(dir_at(root.dirs[0], way.drop_first()) == root.dirs[0]);
    assert(way[0] == 0);
}

/// Every directory of an image takes no more than it needs.
proof fn records_meet_needs(
    tree: Seq<EntryView>,
    input: Seq<EntryView>,
    types: Seq<EntryType>,
    rrip: Option<RripOptions>,
    time: Seq<u8>,
    start: int,
    k: int,
)
    requires
        time.len() == 7,
        types.no_duplicates(),
        countable(built_tree(input, rrip)),
        layout(built_tree(input, rrip), types, rrip, time, start) is Ok,
        0 <= k < jobs_of(built_tree(input, rrip), types).len(),
        listing(built_tree(input, rrip)).len() <= tree.len() + 2,
        plain_tree(input).dirs.len() <= usize::MAX,
    ensures
        ({
            let root = built_tree(input, rrip);
            let jobs = jobs_of(root, types);
            let none = no_refs(jobs.len());
            let blank = with_refs(plan_files(root, order_of(root), 0)->Ok_0.0, jobs, none);
            let r = planned_records(
                blank,
                jobs,
                rrip,
                time,
                ref_map(blank, jobs, none),
                start,
                k,
            );
            taken_by(r) <= need_of(root, tree, is_relocated(input, rrip), jobs[k].0, jobs[k].1)
        }),
{
    let root = built_tree(input, rrip);
    let relocated = is_relocated(input, rrip);
    let jobs = jobs_of(root, types);
    let order = order_of(root);
    let none = no_refs(jobs.len());
    work_is_distinct(root, types);
    let sized = plan_files(root, order, 0)->Ok_0.0;
    plan_files_same(root, order, 0);
    work_stays_valid(root, sized, jobs, order, false);
    let blank = with_refs(sized, jobs, none);
    with_refs_same(sized, jobs, none, false);
    same_tree_transitive(root, sized, blank, false);
    let m0 = ref_map(blank, jobs, none);
    let (path, ty) = jobs[k];
    assert(valid_path(root, jobs[k].0));
    same_tree_at(root, blank, path, false);
    let dir = dir_at(root, path);
    let there = dir_at(blank, path);
    let p = plan_dirs(blank, jobs.take(k), rrip, time, m0, start, 1)->Ok_0;
    plan_prefix_ok(blank, jobs, rrip, time, m0, start, k + 1);
    assert(jobs.take(k + 1).drop_last() =~= jobs.take(k));
    assert(jobs.take(k + 1).last() == jobs[k]);
    reveal(plan_step);
    job_path_is_listed(root, types, k);
    planned_files_are_sized(input, rrip, types, path);
    same_listing(dir, there);
    let n = if path.len() == 0 {
        tree.len() as int
    } else {
        listing(dir).len() as int
    };
    assert(dir_at(root, Seq::empty()) == root);
    if path.len() == 0 {
        assert(path =~= Seq::empty());
    }
    records_are_within(there, path.len() == 0, ty, p.inode, rrip, time, m0, n);
    let r = planned_records(blank, jobs, rrip, time, m0, start, k);
    overflow_total_prefix(r, 0);
    let o = overflow_total(r);
    align_up_bounds(0, 2048);
    if relocated && path == seq![0usize] {
        holder_is_known(input, rrip);
        first_child_way(root);
        whole_is_align(o);
        if ty.rrip() {
            same_fields_len(dir.dirs, there.dirs);
            fields_are_natural(dir.dirs);
            whole_ascends(o, children_fields_len(dir.dirs));
        }
    } else {
        built_tree_shows_names(input, rrip, path);
        assert(shows_names(there.dirs)) by {
            assert forall|i: int| 0 <= i < there.dirs.len() implies (
            #[trigger] there.dirs[i]).rrip_name == there.dirs[i].name by {
                assert(dir.dirs[i].rrip_name == dir.dirs[i].name);
                assert(same_tree(dir.dirs[i], there.dirs[i], false));
            }
        }
        assert(listing(dir).len() == dir.dirs.len() + dir.files.len());
        whole_is_align(o);
        if ty.rrip() {
            whole_ascends(o, area_total(listing(dir), ty) + (if path.len() == 0 {
                320
            } else {
                0int
            }));
        }
    }
}

/// Directories of the same tree list the same.
proof fn same_listing(a: DirView, b: DirView)
    requires
        same_tree(a, b, false),
    ensures
        listing(a) == listing(b),
{
    assert forall|i: int| 0 <= i < a.dirs.len() implies dir_entry(#[trigger] a.dirs[i])
        == dir_entry(b.dirs[i]) by {
        assert(same_tree(a.dirs[i], b.dirs[i], false));
    }
    assert forall|i: int| 0 <= i < a.files.len() implies file_entry(#[trigger] a.files[i])
        == file_entry(b.files[i]) by {
        assert(same_file(a.files[i], b.files[i], false));
    }
    let (x, y) = (listing(a), listing(b));
    assert(x.len() == y.len());
    assert forall|i: int| 0 <= i < x.len() implies x[i] == y[i] by {
        if i < a.dirs.len() {
            assert(dir_entry(a.dirs[i]) == dir_entry(b.dirs[i]));
        } else {
            let j = i - a.dirs.len();
            assert(file_entry(a.files[j]) == file_entry(b.files[j]));
        }
    }
    assert(x =~= y);
}

proof fn same_fields_len(a: Seq<DirView>, b: Seq<DirView>)
    requires
        a.len() == b.len(),
        forall|i: int| 0 <= i < a.len() ==> same_tree(#[trigger] a[i], b[i], false),
    ensures
        children_fields_len(a) == children_fields_len(b),
    decreases a.len(),
{
    if a.len() > 0 {
        let (x, y) = (a.drop_last(), b.drop_last());
        assert forall|i: int| 0 <= i < x.len() implies same_tree(#[trigger] x[i], y[i], false) by {
            assert(same_tree(a[i], b[i], false));
        }
        same_fields_len(x, y);
        assert(same_tree(a[a.len() - 1], b[a.len() - 1], false));
    }
}

/// The ways of jobs are those of the layout.
proof fn job_path_is_listed(root: DirView, types: Seq<EntryType>, k: int)
    requires
        0 <= k < jobs_of(root, types).len(),
    ensures
        preorder(root, Seq::empty()).contains(jobs_of(root, types)[k].0),
{
    pair_is_listed(preorder(root, Seq::empty()), types, k);
}

proof fn pair_is_listed(paths: Seq<Seq<usize>>, types: Seq<EntryType>, k: int)
    requires
        0 <= k < pairs(paths, types).len(),
    ensures
        paths.contains(pairs(paths, types)[k].0),
    decreases paths.len(),
{
    let init = paths.drop_last();
    let before = pairs(init, types);
    if k < before.len() {
        pair_is_listed(init, types, k);
        let way = pairs(paths, types)[k].0;
        assert(way == before[k].0);
        let i = choose|i: int| 0 <= i < init.len() && init[i] == way;
        assert(paths[i] == way);
    } else {
        assert(paths[paths.len() - 1] == pairs(paths, types)[k].0);
    }
}

/// Every file has the extents that it needs when directories are planned.
proof fn planned_files_are_sized(
    input: Seq<EntryView>,
    rrip: Option<RripOptions>,
    types: Seq<EntryType>,
    path: Seq<usize>,
)
    requires
        types.no_duplicates(),
        countable(built_tree(input, rrip)),
        plan_files(built_tree(input, rrip), order_of(built_tree(input, rrip)), 0) is Ok,
        preorder(built_tree(input, rrip), Seq::empty()).contains(path),
    ensures
        ({
            let root = built_tree(input, rrip);
            let jobs = jobs_of(root, types);
            let blank = with_refs(
                plan_files(root, order_of(root), 0)->Ok_0.0,
                jobs,
                no_refs(jobs.len()),
            );
            files_are_sized(dir_at(blank, path).files)
        }),
{
    let root = built_tree(input, rrip);
    let jobs = jobs_of(root, types);
    let none = no_refs(jobs.len());
    let order = order_of(root);
    let paths = preorder(root, Seq::empty());
    work_is_distinct(root, types);
    preorder_is_distinct(root, Seq::empty());
    let at = choose|at: int| 0 <= at < paths.len() && paths[at] == path;
    assert(valid_path(root, paths[at].skip(0)));
    assert(paths[at].skip(0) =~= path);
    let sized = plan_files(root, order, 0)->Ok_0.0;
    plan_files_same(root, order, 0);
    work_stays_valid(root, sized, jobs, order, false);
    let blank = with_refs(sized, jobs, none);
    with_refs_same(sized, jobs, none, false);
    same_tree_transitive(root, sized, blank, false);
    same_tree_at(root, blank, path, false);
    built_tree_is_unplaced(input, rrip);
    unplaced_at(root, path);
    countable_at(root, path);
    let files = dir_at(blank, path).files;
    let before = dir_at(root, path).files;
    assert forall|i: int| 0 <= i < files.len() implies !((#[trigger] files[i]).kind is Directory)
        && files[i].additional_extents.len() + 1 == record_count(files[i].kind) by {
        let f = before[i];
        assert(f.additional_extents.len() == 0 && !(f.kind is Directory));
        if contents_of(f.kind).len() > 0 {
            order_has_all(root, paths, at, i as usize);
        }
        planned_extents(root, jobs, none, (path, i as usize));
        let len = contents_of(f.kind).len() as int;
        if len > 0 {
            extent_count(len, 0, 2048);
        }
    }
}

/// The bytes of a layout.
proof fn layout_is_covered(
    tree: Seq<EntryView>,
    input: Seq<EntryView>,
    types: Seq<EntryType>,
    rrip: Option<RripOptions>,
    time: Seq<u8>,
    start: int,
    more: int,
)
    requires
        time.len() == 7,
        start >= 0,
        start % 2048 == 0,
        types.no_duplicates(),
        countable(built_tree(input, rrip)),
        plain_tree(input).dirs.len() <= usize::MAX,
        more >= 0,
        input_has_more(tree, input, more),
        forall|i: int| 1 <= i < types.len() ==> !(#[trigger] types[i]).rrip(),
        layout(built_tree(input, rrip), types, rrip, time, start) is Ok,
    ensures
        align_up(layout(built_tree(input, rrip), types, rrip, time, start)->Ok_0.end, 2048)
            <= start + directories_bound(tree, input, types, rrip, more) + list_stats(
            input,
            types,
            2048,
        ).file_bytes,
{
    let root = built_tree(input, rrip);
    let relocated = is_relocated(input, rrip);
    let jobs = jobs_of(root, types);
    let order = order_of(root);
    let none = no_refs(jobs.len());
    work_is_distinct(root, types);
    data_is_counted(input, types, rrip);
    let sized = plan_files(root, order, 0)->Ok_0.0;
    plan_files_same(root, order, 0);
    work_stays_valid(root, sized, jobs, order, false);
    let blank = with_refs(sized, jobs, none);
    with_refs_same(sized, jobs, none, false);
    same_tree_transitive(root, sized, blank, false);
    work_stays_valid(sized, blank, jobs, order, false);
    let m0 = ref_map(blank, jobs, none);
    let p = plan_dirs(blank, jobs, rrip, time, m0, start, 1)->Ok_0;
    let n = jobs.len() as int;
    let need = need_fn(root, tree, relocated);
    root_lists_more(tree, input, types, rrip, more);
    assert forall|k: int| 0 <= k < jobs.len() implies taken_by(
        #[trigger] planned_records(blank, jobs, rrip, time, m0, start, k),
    ) <= need(jobs[k].0, jobs[k].1) by {
        records_meet_needs(tree, input, types, rrip, time, start, k);
    }
    directories_take_their_space(blank, jobs, rrip, time, m0, start, n, need);
    assert(jobs.take(n) =~= jobs);
    needs_are_covered(tree, input, types, rrip, more);
    let placed = with_refs(blank, jobs, p.refs);
    with_refs_same(blank, jobs, p.refs, false);
    same_tree_transitive(root, blank, placed, false);
    files_take_their_space(root, placed, order, p.cursor);
}

/// The bytes of path tables.
proof fn tables_are_covered(
    input: Seq<EntryView>,
    types: Seq<EntryType>,
    rrip: Option<RripOptions>,
    full: DirView,
    data: Seq<u8>,
)
    requires
        same_tree(built_tree(input, rrip), full, false),
        with_path_tables(full, types, data) is Ok,
        tree_size(plain_tree(input).dirs) < usize::MAX,
        plain_tree(input).dirs.len() <= usize::MAX,
    ensures
        align_up(with_path_tables(full, types, data)->Ok_0.0.len() as int, 2048) <= align_up(
            data.len() as int,
            2048,
        ) + types.len() * (2 * align_up(
            path_table_len(list_stats(input, types, 2048), relocates(rrip)),
            2048,
        )),
{
    let root = built_tree(input, rrip);
    let stats = list_stats(input, types, 2048);
    let bound = path_table_len(stats, relocates(rrip));
    stats_natural(input, types, 2048);
    input_is_counted(input, types);
    assert(stats.dirs * relocated_len(stats.dirs) >= 0) by (nonlinear_arith)
        requires
            stats.dirs >= 0,
            relocated_len(stats.dirs) >= 0,
    ;
    assert forall|i: int, endian: EndianType| 0 <= i < types.len() implies #[trigger] table_within(
        full,
        types[i],
        endian,
        bound,
    ) by {
        if path_table(full, types[i], endian) is Ok {
            path_table_has_every_directory(full, types[i], endian);
            same_records_len(root, full, types[i]);
            assert(types.contains(types[i]));
            built_tree_tables(input, rrip, types[i], types);
        }
    }
    tables_take_their_space(full, types, data, bound);
}

/// A file more in a directory counts for its data and its records.
proof fn one_more_file(
    tree: Seq<EntryView>,
    at: int,
    x: EntryView,
    types: Seq<EntryType>,
    ty: EntryType,
    n: int,
)
    requires
        0 <= at <= tree.len(),
        x.kind is File,
    ensures
        list_stats(tree.insert(at, x), types, 2048) == list_stats(tree, types, 2048).plus(
            entry_stats(x, types, 2048),
        ),
        dir_total(tree.insert(at, x), ty, n) == dir_total(tree, ty, n) + estimated_record(
            x,
            ty,
            n,
        ),
        area_total(tree.insert(at, x), ty) == area_total(tree, ty) + estimated_overflow(x, ty),
    decreases tree.len(),
{
    let more = tree.insert(at, x);
    if at == tree.len() {
        assert(more.drop_last() =~= tree);
        assert(more.last() == x);
    } else {
        let init = tree.drop_last();
        one_more_file(init, at, x, types, ty, n);
        assert(more.drop_last() =~= init.insert(at, x));
        assert(more.last() == tree.last());
    }
}

/// The entry of the boot catalog's file.
spec fn catalog_entry(n: int) -> EntryView {
    EntryView {
        name: catalog_file_name(),
        kind: KindView::File(zeros(catalog_file_size(n))),
        metadata: crate::iso::tree::no_metadata(),
    }
}

/// What the file of the boot catalog adds to what is counted of a tree.
proof fn catalog_is_counted(tree: Seq<EntryView>, features: CreationFeatures)
    ensures
        ({
            let types = entry_types_of(features);
            let input = input_with_catalog(tree, features.el_torito);
            let a = list_stats(tree, types, 2048);
            let b = list_stats(input, types, 2048);
            &&& b.dirs == a.dirs
            &&& b.name_bytes == a.name_bytes
            &&& b.record_bytes == a.record_bytes
            &&& b.area_bytes == a.area_bytes
            &&& b.field_bytes == a.field_bytes
            &&& b.file_bytes + loose_catalog(features) == a.file_bytes + whole(
                catalog_bytes_len(features),
                2048,
            )
            &&& input_has_more(tree, input, catalog_records(features))
        }),
{
    let types = entry_types_of(features);
    let input = input_with_catalog(tree, features.el_torito);
    whole_is_align(0);
    align_up_bounds(0, 2048);
    match features.el_torito {
        Some(boot) => {
            let n = boot.entries@.len() as int;
            let bytes = catalog_bytes_len(features);
            whole_is_align(bytes);
            if boot.write_boot_catalog {
                let at = crate::iso::dedup::minus(first_directory(tree), 1);
                let x = catalog_entry(n);
                first_directory_is_there(tree);
                assert(input == tree.insert(at, x));
                let size = catalog_file_size(n);
                assert(size == align_up(bytes, 2048));
                zeros_len(size);
                align_up_bounds(bytes, 2048);
                whole_is_align(size);
                align_up_bounds(size, 2048);
                one_more_file(tree, at, x, types, types[0], 0);
                assert(entry_stats(x, types, 2048).file_bytes == size);
                assert(record_count(x.kind) <= catalog_records(features)) by {
                    catalog_record_count(bytes, size);
                }
                assert forall|ty: EntryType, m: int|
                    0 <= #[trigger] dir_total(input, ty, m) - dir_total(tree, ty, m) <= 255
                        * catalog_records(features) by {
                    one_more_file(tree, at, x, types, ty, m);
                    record_natural(x, ty, m);
                }
                assert forall|ty: EntryType| #[trigger] area_total(input, ty) == area_total(
                    tree,
                    ty,
                ) by {
                    one_more_file(tree, at, x, types, ty, 0);
                    catalog_name_is_short();
                    short_name_len(x.name, ty, 12);
                    assert(estimated_overflow(x, ty) == 0);
                }
            } else {
                assert(input == tree);
            }
        },
        None => {
            assert(input == tree);
        },
    }
}

proof fn catalog_name_is_short()
    ensures
        catalog_file_name().len() <= 12,
        vstd::utf8::is_ascii_chars(catalog_file_name()),
        encode_utf8(catalog_file_name()).len() == catalog_file_name().len(),
{
    reveal_strlit("boot.catalog");
    vstd::utf8::is_ascii_chars_encode_utf8(catalog_file_name());
}

proof fn catalog_record_count(bytes: int, size: int)
    requires
        bytes >= 0,
        size == align_up(bytes, 2048),
        size >= 0,
    ensures
        (if size <= MAX_EXTENT_SIZE {
            1
        } else {
            (size + MAX_EXTENT_SIZE - 1) / (MAX_EXTENT_SIZE as int)
        }) <= bytes / (MAX_EXTENT_SIZE as int) + 1,
{
    let m = MAX_EXTENT_SIZE as int;
    align_up_bounds(bytes, 2048);
    let q = bytes / m;
    let r = bytes % m;
    assert(m == 2048 * 2097151);
    assert(bytes == m * q + r);
    assert(size <= m * q + m) by {
        assert((bytes + 2047) / 2048 <= 2097151 * q + 2097151);
    }
}

/// Only the first namespace can have Rock Ridge fields.
proof fn further_namespaces_are_plain(features: CreationFeatures)
    ensures
        forall|i: int| 1 <= i < entry_types_of(features).len() ==> !(#[trigger] entry_types_of(
            features,
        )[i]).rrip(),
{
}

/// The bytes of directories, files and path tables.
proof fn body_is_covered(tree: Seq<EntryView>, ops: IsoFormatOptions, time: Seq<u8>)
    requires
        time.len() == 7,
        image_body(
            root_of(tree, ops),
            ops,
            entry_types_of(ops.features),
            time,
            start_of(ops, None),
        ) is Ok,
        list_events(input_with_catalog(tree, ops.features.el_torito)).len() < usize::MAX,
    ensures
        ({
            let types = entry_types_of(ops.features);
            let rrip = ops.features.rock_ridge;
            let input = input_with_catalog(tree, ops.features.el_torito);
            let stats = list_stats(input, types, 2048);
            align_up(body_of(tree, ops, None, time).0.len() as int, 2048) <= start_of(ops, None)
                + directories_bound(tree, input, types, rrip, catalog_records(ops.features))
                + stats.file_bytes + types.len() * (2 * align_up(
                path_table_len(stats, relocates(rrip)),
                2048,
            ))
        }),
{
    let rrip = ops.features.rock_ridge;
    let types = entry_types_of(ops.features);
    let input = input_with_catalog(tree, ops.features.el_torito);
    let root = root_of(tree, ops);
    let start = start_of(ops, None);
    let plain = plain_tree(input);
    built_tree_is_countable(input, rrip);
    namespaces_differ(ops.features);
    catalog_is_counted(tree, ops.features);
    further_namespaces_are_plain(ops.features);
    tree_size_counts(new_dir(Seq::empty()), input, 1);
    assert(tree_size(new_dir(Seq::empty()).dirs) == 0);
    dirs_are_few(plain.dirs);
    catalog_records_natural(ops.features);
    layout_is_covered(
        tree,
        input,
        types,
        rrip,
        time,
        start,
        catalog_records(ops.features),
    );
    zeros_len(start);
    layout_is_met(root, types, rrip, time, zeros(start));
    layout_keeps_the_tree(root, types, rrip, time, start);
    let laid = laid_of(tree, ops, None, time);
    let s = write_dirs(
        laid.root,
        jobs_of(root, types),
        rrip,
        time,
        laid.refs,
        zeros(start),
        laid.inode,
    )->Ok_0;
    let files = write_files(laid.root, order_of(root), s.data)->Ok_0;
    assert(files.len() == laid.end);
    tables_are_covered(input, types, rrip, laid.root, files);
}

proof fn dirs_are_few(dirs: Seq<DirView>)
    ensures
        dirs.len() <= tree_size(dirs),
    decreases dirs.len(),
{
    if dirs.len() > 0 {
        dirs_are_few(dirs.drop_last());
    }
}

proof fn catalog_records_natural(features: CreationFeatures)
    ensures
        catalog_records(features) >= 0,
        catalog_bytes_len(features) >= 0,
{
}

/// The parts of what a tree needs at most add up to the bound.
proof fn estimate_adds_up(tree: Seq<EntryView>, features: CreationFeatures)
    ensures
        estimate_total(
            needed_of(tree_stats(tree, entry_types_of(features), 2048), features, 2048),
        ) >= 0,
        ({
            let types = entry_types_of(features);
            let rrip = features.rock_ridge;
            let input = input_with_catalog(tree, features.el_torito);
            let stats = list_stats(input, types, 2048);
            let e = needed_of(tree_stats(tree, types, 2048), features, 2048);
            data_start(types, features.el_torito is Some, None) + directories_bound(
                tree,
                input,
                types,
                rrip,
                catalog_records(features),
            ) + stats.file_bytes + types.len() * (2 * align_up(
                path_table_len(stats, relocates(rrip)),
                2048,
            )) + loose_catalog(features) + backup_len(features, 2048) <= whole(
                estimate_total(e),
                2048,
            )
        }),
{
    let types = entry_types_of(features);
    let n = types.len() as int;
    let rrip = features.rock_ridge;
    let input = input_with_catalog(tree, features.el_torito);
    let list = list_stats(tree, types, 2048);
    let stats = tree_stats(tree, types, 2048);
    let given = list_stats(input, types, 2048);
    let e = needed_of(stats, features, 2048);
    let more = catalog_records(features);
    catalog_is_counted(tree, features);
    catalog_records_natural(features);
    stats_natural(tree, types, 2048);
    let k = stats.dirs + 1;
    let bound = path_table_len(stats, relocates(rrip));
    assert(bound == path_table_len(given, relocates(rrip)));
    assert(stats.dirs * relocated_len(stats.dirs) >= 0) by (nonlinear_arith)
        requires
            stats.dirs >= 0,
            relocated_len(stats.dirs) >= 0,
    ;
    whole_is_align(bound);
    let a = align_up(bound, 2048);
    assert(sectors(bound, 2048) * 2 * n * 2048 == n * (2 * a)) by (nonlinear_arith)
        requires
            sectors(bound, 2048) * 2048 == a,
    ;
    assert(k * n * 2048 >= 0 && more * n * 2048 >= 0) by (nonlinear_arith)
        requires
            n >= 0,
            k >= 0,
            more >= 0,
    ;
    whole_ascends(0, stats.field_bytes);
    assert(whole(320, 2048) == 2048);
    whole_ascends(0, catalog_bytes_len(features));
    assert(e.2 == n * (2 * a));
    assert(estimate_total(e) >= 0) by {
        align_up_bounds(bound, 2048);
        assert(n * (2 * a) >= 0) by (nonlinear_arith)
            requires
                n >= 0,
                a >= 0,
        ;
        assert(backup_len(features, 2048) >= 0);
    }
    whole_is_align(estimate_total(e));
    assert(e.0 + e.1 == data_start(types, features.el_torito is Some, None));
    assert(is_relocated(input, rrip) ==> relocates(rrip));
}

/// An image is never larger than estimated from the same input and options.
pub proof fn images_are_not_underestimated(
    tree: Seq<EntryView>,
    ops: IsoFormatOptions,
    time: Seq<u8>,
    r: IsoSizeEstimate,
)
    requires
        time.len() == 7,
        image(tree, ops, None, time) is Ok,
        is_estimate(
            r,
            estimate_of(tree, ops),
            ops.sector_size as int,
        ),
    ensures
        image(tree, ops, None, time)->Ok_0.len() <= r.minimum_sectors * 2048,
{
    reveal(image);
    image_has_a_body(tree, ops, None, time);
    body_is_covered(tree, ops, time);
    image_length(tree, ops, None, time);
    estimate_adds_up(tree, ops.features);
    images_take_what_was_planned(tree, ops, time);
    let types = entry_types_of(ops.features);
    let stats = tree_stats(tree, types, 2048);
    let usual = usual_of(stats, tree_usual(tree, types, 2048), ops.features, 2048);
    let needed = needed_of(stats, ops.features, 2048);
    if estimate_total(usual) >= estimate_total(needed) {
        whole_ascends(estimate_total(needed), estimate_total(usual));
    }
}

/// An image that was created is never larger than estimated from the same input and options,
/// whenever it was created.
pub proof fn created_images_fit_their_estimate(
    tree: Seq<EntryView>,
    ops: IsoFormatOptions,
    made: Seq<u8>,
    r: IsoSizeEstimate,
)
    requires
        exists|now: CivilTime|
            #![trigger rrip_time_bytes(now)]
            now.wf() && image(tree, ops, None, rrip_time_bytes(now)) == Ok::<
                Seq<u8>,
                IsoCreationError,
            >(made),
        is_estimate(
            r,
            estimate_of(tree, ops),
            ops.sector_size as int,
        ),
    ensures
        made.len() <= r.minimum_sectors * 2048,
{
    let now = choose|now: CivilTime|
        #![trigger rrip_time_bytes(now)]
        now.wf() && image(tree, ops, None, rrip_time_bytes(now)) == Ok::<
            Seq<u8>,
            IsoCreationError,
        >(made);
    images_are_not_underestimated(tree, ops, rrip_time_bytes(now), r);
}

/// Files and directories are estimated alike as they are and as a tree.
pub proof fn files_and_trees_are_estimated_alike(
    files: InputFiles,
    tree: InputTree,
    ops: IsoFormatOptions,
    a: IsoSizeEstimate,
    b: IsoSizeEstimate,
)
    requires
        tree@ == files_view(files.files@),
        is_estimate(
            a,
            estimate_of(files_view(files.files@), ops),
            ops.sector_size as int,
        ),
        is_estimate(
            b,
            estimate_of(tree@, ops),
            ops.sector_size as int,
        ),
    ensures
        a == b,
{
}

} // verus!
