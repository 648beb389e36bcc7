//! What is planned is what is written.

#[allow(unused_imports)]
use crate::iso::emit::{
    continuation_sector, entry_of, finished, finished_sizes, overflow_bytes, packed, packed_len,
    padded, padded_is_aligned, parent_path, with_directory, write_dirs, write_files, write_step,
    zeros,
};
#[allow(unused_imports)]
use crate::iso::error::IsoCreationError;
#[allow(unused_imports)]
use crate::iso::extent::{
    align_up, align_up_bounds, extent_count_is_fixed, extent_end, extent_end_grows, extent_list,
    extent_size, extents_cover_the_file, extents_end_behind_the_data,
};
#[allow(unused_imports)]
use crate::iso::image::{
    built_tree, image_body, jobs_of, layout, no_refs, order_of, with_path_tables,
};
#[allow(unused_imports)]
use crate::iso::layout::{pack_end, pack_end_grows, record_size};
#[allow(unused_imports)]
use crate::iso::plan::{
    contents_of, dir_end, dir_place, has_long_record, inode_step, jobs_valid, order_valid, pairs,
    plan_dirs, plan_files, plan_files_same, plan_step, records_of, ref_map, same_file, same_tree,
    same_tree_at, same_tree_reflexive, same_tree_transitive, with_file, with_file_same, with_refs,
    with_refs_same,
};
#[allow(unused_imports)]
use crate::iso::records::{
    context, deduped, dir_fits, overflow_total, raw_records, sorted, RecordView,
};
#[allow(unused_imports)]
use crate::iso::refmap::DirKey;
#[allow(unused_imports)]
use crate::iso::options::{entry_types_of, CreationFeatures, IsoFormatOptions};
#[allow(unused_imports)]
use crate::iso::path_table::{records_below, EndianType};
#[allow(unused_imports)]
use crate::iso::relocate::{
    child_path_len, data_files, data_files_in, first_free, holder_name, preorder, preorder_children,
    relocate_list, relocated_name, relocated_root, tree_size,
};
#[allow(unused_imports)]
use crate::iso::shapes::{
    same_child_shape, same_dir_shape, same_file_shape, shape_decides_size, shapes,
    sizes_do_not_depend_on_extents,
};
#[allow(unused_imports)]
use crate::iso::tree::{entry_events, list_events, name_len, relocates, EntryView, KindView};
#[allow(unused_imports)]
use crate::iso::types::{empty_ref, DirectoryRef, EntryType, RripOptions};
#[allow(unused_imports)]
use crate::iso::written::{
    dir_at, directory_count, fresh_dir, new_dir, valid_path, with_dir_at, with_entries, DirView,
    FileView,
};
use vstd::prelude::*;

verus! {

/// Where records end depends on where they start by whole sectors only.
pub proof fn pack_end_shift(start: int, records: Seq<RecordView>)
    requires
        start >= 0,
        start % 2048 == 0,
    ensures
        pack_end(start, records, 2048) == start + pack_end(0, records, 2048),
    decreases records.len(),
{
    if records.len() > 0 {
        let init = records.drop_last();
        pack_end_shift(start, init);
        pack_end_grows(0, init, 0, 2048);
        let p = pack_end(0, init, 2048);
        assert((start + p) % 2048 == p % 2048);
    }
}

/// What is counted as continuation data is what is written as such.
pub proof fn overflow_len(records: Seq<RecordView>)
    ensures
        overflow_bytes(records).len() == overflow_total(records),
    decreases records.len(),
{
    if records.len() > 0 {
        overflow_len(records.drop_last());
    }
}

/// Replacing a directory by one with the same children changes no other directory's
/// extents or files.
proof fn other_dirs_stay(root: DirView, p: Seq<usize>, x: DirView, q: Seq<usize>)
    requires
        valid_path(root, p),
        valid_path(root, q),
        x.dirs == dir_at(root, p).dirs,
    ensures
        valid_path(with_dir_at(root, p, x), q),
        q == p ==> dir_at(with_dir_at(root, p, x), q) == x,
        q != p ==> dir_at(with_dir_at(root, p, x), q).entries == dir_at(root, q).entries,
        q != p ==> dir_at(with_dir_at(root, p, x), q).files == dir_at(root, q).files,
    decreases p.len(),
{
    let new = with_dir_at(root, p, x);
    if p.len() == 0 {
        if q.len() == 0 {
            assert(q =~= p);
        }
    } else if q.len() > 0 {
        if q[0] == p[0] {
            let i = p[0] as int;
            other_dirs_stay(root.dirs[i], p.drop_first(), x, q.drop_first());
            assert(new.dirs[i] == with_dir_at(root.dirs[i], p.drop_first(), x));
            if q.drop_first() == p.drop_first() {
                assert(q =~= seq![q[0]] + q.drop_first());
                assert(p =~= seq![p[0]] + p.drop_first());
                assert(q == p);
            }
        } else {
            assert(new.dirs[q[0] as int] == root.dirs[q[0] as int]);
        }
    }
}

/// Extents that are set are found.
pub proof fn refs_are_found(
    root: DirView,
    jobs: Seq<(Seq<usize>, EntryType)>,
    refs: Seq<DirectoryRef>,
)
    requires
        jobs_valid(root, jobs),
        jobs.no_duplicates(),
    ensures
        forall|k: int|
            0 <= k < jobs.len() ==> {
                let dir = dir_at(with_refs(root, jobs, refs), (#[trigger] jobs[k]).0);
                dir.entries.dom().contains(jobs[k].1) && dir.entries[jobs[k].1] == refs[k]
            },
        forall|q: Seq<usize>|
            valid_path(root, q) ==> #[trigger] dir_at(with_refs(root, jobs, refs), q).files
                == dir_at(root, q).files,
    decreases jobs.len(),
{
    if jobs.len() > 0 {
        let init = jobs.drop_last();
        let last = jobs.len() - 1;
        assert(jobs_valid(root, init)) by {
            assert forall|i: int| 0 <= i < init.len() implies valid_path(
                root,
                (#[trigger] init[i]).0,
            ) by {
                assert(valid_path(root, jobs[i].0));
            }
        }
        refs_are_found(root, init, refs);
        with_refs_same(root, init, refs, true);
        let mid = with_refs(root, init, refs);
        let new = with_refs(root, jobs, refs);
        let path = jobs[last].0;
        assert(valid_path(root, path));
        same_tree_at(root, mid, path, true);
        let dir = dir_at(mid, path);
        let x = DirView { entries: dir.entries.insert(jobs[last].1, refs[last]), ..dir };
        assert(new == with_dir_at(mid, path, x));
        assert forall|k: int| 0 <= k < jobs.len() implies {
            let dir = dir_at(new, (#[trigger] jobs[k]).0);
            dir.entries.dom().contains(jobs[k].1) && dir.entries[jobs[k].1] == refs[k]
        } by {
            assert(valid_path(root, jobs[k].0));
            same_tree_at(root, mid, jobs[k].0, true);
            other_dirs_stay(mid, path, x, jobs[k].0);
            if k < last {
                assert(init[k] == jobs[k]);
                assert(jobs[k] != jobs[last]);
            }
        }
        assert forall|q: Seq<usize>| valid_path(root, q) implies #[trigger] dir_at(new, q).files
            == dir_at(root, q).files by {
            same_tree_at(root, mid, q, true);
            other_dirs_stay(mid, path, x, q);
            assert(dir_at(mid, q).files == dir_at(root, q).files);
        }
    }
}

/// How many extents a file has beyond the first.
spec fn more_extents(file: FileView) -> nat {
    let n = extent_list(contents_of(file.kind).len() as int, 0, 2048).len();
    if n == 0 {
        0
    } else {
        (n - 1) as nat
    }
}

spec fn file_at(root: DirView, at: (Seq<usize>, usize)) -> FileView {
    dir_at(root, at.0).files[at.1 as int]
}

/// All extents of a file.
pub open spec fn all_extents(file: FileView) -> Seq<DirectoryRef> {
    seq![file.entry] + file.additional_extents
}

/// Whether a file has the extents that it gets behind `cursor`.
spec fn starts_at(file: FileView, cursor: int) -> bool {
    let len = contents_of(file.kind).len() as int;
    if len > 0 {
        &&& file.entry.extent.0 == (align_up(cursor, 2048) / 2048) as usize
        &&& file.entry.size == extent_size(len)
        &&& all_extents(file) == extent_list(len, cursor, 2048)
    } else {
        file.entry.size == 0
    }
}

proof fn file_step(root: DirView, at: (Seq<usize>, usize), cursor: int, q: (Seq<usize>, usize))
    requires
        valid_path(root, at.0),
        at.1 < dir_at(root, at.0).files.len(),
        valid_path(root, q.0),
        q.1 < dir_at(root, q.0).files.len(),
    ensures
        valid_path(with_file(root, at, cursor), q.0),
        q.1 < dir_at(with_file(root, at, cursor), q.0).files.len(),
        dir_at(with_file(root, at, cursor), q.0).entries == dir_at(root, q.0).entries,
        q != at ==> file_at(with_file(root, at, cursor), q) == file_at(root, q),
        q == at ==> {
            let file = file_at(with_file(root, at, cursor), q);
            &&& file.kind == file_at(root, q).kind
            &&& file.additional_extents.len() == more_extents(file_at(root, q))
            &&& starts_at(file, cursor)
        },
{
    let dir = dir_at(root, at.0);
    let file = dir.files[at.1 as int];
    let len = contents_of(file.kind).len() as int;
    let extents = extent_list(len, cursor, 2048);
    let new = if extents.len() == 0 {
        FileView { entry: empty_ref(), additional_extents: Seq::empty(), ..file }
    } else {
        FileView { entry: extents[0], additional_extents: extents.drop_first(), ..file }
    };
    let x = DirView { files: dir.files.update(at.1 as int, new), ..dir };
    assert(with_file(root, at, cursor) == with_dir_at(root, at.0, x));
    other_dirs_stay(root, at.0, x, q.0);
    extent_count_is_fixed(len, cursor, 0, 2048);
    if extents.len() > 0 {
        assert(seq![extents[0]] + extents.drop_first() =~= extents);
    }
}

/// The byte behind the first `k` files.
spec fn cursor_at(root: DirView, order: Seq<(Seq<usize>, usize)>, cursor: int, k: int) -> int {
    plan_files(root, order.take(k), cursor)->Ok_0.1
}

/// All positions but the last are positions of files too.
pub proof fn order_prefix_valid(root: DirView, order: Seq<(Seq<usize>, usize)>)
    requires
        order_valid(root, order),
        order.len() > 0,
    ensures
        order_valid(root, order.drop_last()),
        valid_path(root, order.last().0),
        order.last().1 < dir_at(root, order.last().0).files.len(),
{
    let init = order.drop_last();
    assert forall|i: int| 0 <= i < init.len() implies valid_path(root, (#[trigger] init[i]).0)
        && init[i].1 < dir_at(root, init[i].0).files.len() by {
        assert(valid_path(root, order[i].0));
    }
    assert(valid_path(root, order[order.len() - 1].0));
}

proof fn entries_are_kept(
    root: DirView,
    order: Seq<(Seq<usize>, usize)>,
    cursor: int,
    q: Seq<usize>,
)
    requires
        order_valid(root, order),
        cursor >= 0,
        plan_files(root, order, cursor) is Ok,
        valid_path(root, q),
    ensures
        dir_at(plan_files(root, order, cursor)->Ok_0.0, q).entries == dir_at(root, q).entries,
    decreases order.len(),
{
    if order.len() > 0 {
        let init = order.drop_last();
        order_prefix_valid(root, order);
        entries_are_kept(root, init, cursor, q);
        plan_files_same(root, init, cursor);
        let (mid, at) = plan_files(root, init, cursor)->Ok_0;
        same_tree_at(root, mid, q, false);
        same_tree_at(root, mid, order.last().0, false);
        entries_stay(mid, order.last(), at, q);
    }
}

proof fn other_files_stay(
    root: DirView,
    order: Seq<(Seq<usize>, usize)>,
    cursor: int,
    q: (Seq<usize>, usize),
)
    requires
        order_valid(root, order),
        cursor >= 0,
        plan_files(root, order, cursor) is Ok,
        valid_path(root, q.0),
        q.1 < dir_at(root, q.0).files.len(),
        !order.contains(q),
    ensures
        file_at(plan_files(root, order, cursor)->Ok_0.0, q) == file_at(root, q),
    decreases order.len(),
{
    if order.len() > 0 {
        let init = order.drop_last();
        let here = order.last();
        order_prefix_valid(root, order);
        if init.contains(q) {
            let j = choose|j: int| 0 <= j < init.len() && init[j] == q;
            assert(order[j] == q);
        }
        if q == here {
            assert(order[order.len() - 1] == q);
        }
        other_files_stay(root, init, cursor, q);
        plan_files_same(root, init, cursor);
        let (mid, at) = plan_files(root, init, cursor)->Ok_0;
        same_tree_at(root, mid, q.0, false);
        same_tree_at(root, mid, here.0, false);
        file_step(mid, here, at, q);
    }
}

/// A file that is laid out lies behind those before it, in as many extents as it needs.
proof fn file_is_found(root: DirView, order: Seq<(Seq<usize>, usize)>, cursor: int, k: int)
    requires
        order_valid(root, order),
        order.no_duplicates(),
        cursor >= 0,
        plan_files(root, order, cursor) is Ok,
        0 <= k < order.len(),
    ensures
        ({
            let file = file_at(plan_files(root, order, cursor)->Ok_0.0, order[k]);
            &&& file.kind == file_at(root, order[k]).kind
            &&& file.additional_extents.len() == more_extents(file_at(root, order[k]))
            &&& plan_files(root, order.take(k), cursor) is Ok
            &&& starts_at(file, cursor_at(root, order, cursor, k))
        }),
    decreases order.len(),
{
    let init = order.drop_last();
    let last = order.len() - 1;
    let here = order.last();
    order_prefix_valid(root, order);
    plan_files_same(root, init, cursor);
    let (mid, at) = plan_files(root, init, cursor)->Ok_0;
    assert(valid_path(root, order[k].0));
    same_tree_at(root, mid, order[k].0, false);
    same_tree_at(root, mid, here.0, false);
    file_step(mid, here, at, order[k]);
    if k < last {
        file_is_found(root, init, cursor, k);
        assert(init[k] == order[k]);
        assert(order[k] != order[last]);
        assert(init.take(k) =~= order.take(k));
    } else {
        assert(order.take(k) =~= init);
        if init.contains(here) {
            let j = choose|j: int| 0 <= j < init.len() && init[j] == here;
            assert(order[j] == order[last]);
        }
        other_files_stay(root, init, cursor, here);
    }
}

proof fn entries_stay(
    mid: DirView,
    here: (Seq<usize>, usize),
    at: int,
    q: Seq<usize>,
)
    requires
        valid_path(mid, here.0),
        here.1 < dir_at(mid, here.0).files.len(),
        valid_path(mid, q),
    ensures
        dir_at(with_file(mid, here, at), q).entries == dir_at(mid, q).entries,
{
    let dir = dir_at(mid, here.0);
    let file = dir.files[here.1 as int];
    let extents = extent_list(contents_of(file.kind).len() as int, at, 2048);
    let new = if extents.len() == 0 {
        FileView { entry: empty_ref(), additional_extents: Seq::empty(), ..file }
    } else {
        FileView { entry: extents[0], additional_extents: extents.drop_first(), ..file }
    };
    let x = DirView { files: dir.files.update(here.1 as int, new), ..dir };
    other_dirs_stay(mid, here.0, x, q);
}

/// Whether the children and files of every directory can be counted.
pub open spec fn countable(dir: DirView) -> bool
    decreases dir,
{
    &&& dir.dirs.len() <= usize::MAX
    &&& dir.files.len() <= usize::MAX
    &&& forall|i: int| 0 <= i < dir.dirs.len() ==> countable(#[trigger] dir.dirs[i])
}

/// Whether a way starts with another.
pub open spec fn under(q: Seq<usize>, path: Seq<usize>) -> bool {
    q.len() >= path.len() && q.take(path.len() as int) == path
}

/// Whether a way goes down to one of the first `n` children of another and maybe further.
pub open spec fn below(q: Seq<usize>, path: Seq<usize>, n: int) -> bool {
    q.len() > path.len() && q.take(path.len() as int) == path && q[path.len() as int] < n
}

/// No directory is listed twice, and each lies below the start.
pub proof fn preorder_is_distinct(dir: DirView, path: Seq<usize>)
    requires
        countable(dir),
    ensures
        preorder(dir, path).no_duplicates(),
        forall|i: int|
            0 <= i < preorder(dir, path).len() ==> under(#[trigger] preorder(dir, path)[i], path),
        forall|i: int|
            0 <= i < preorder(dir, path).len() ==> valid_path(
                dir,
                (#[trigger] preorder(dir, path)[i]).skip(path.len() as int),
            ),
    decreases dir, 0nat,
{
    let all = preorder(dir, path);
    let rest = preorder_children(dir.dirs, path);
    children_are_distinct(dir.dirs, path);
    assert(all == seq![path] + rest);
    assert(path.take(path.len() as int) =~= path);
    assert(path.skip(path.len() as int) =~= Seq::empty());
    assert forall|i: int, j: int| 0 <= i < j < all.len() implies all[i] != all[j] by {
        assert(all[j] == rest[j - 1]);
        if i > 0 {
            assert(all[i] == rest[i - 1]);
        } else {
            assert(below(rest[j - 1], path, dir.dirs.len() as int));
        }
    }
    assert forall|i: int| 0 <= i < all.len() implies under(#[trigger] all[i], path) by {
        if i > 0 {
            assert(all[i] == rest[i - 1]);
            assert(below(rest[i - 1], path, dir.dirs.len() as int));
        }
    }
    assert forall|i: int| 0 <= i < all.len() implies valid_path(
        dir,
        (#[trigger] all[i]).skip(path.len() as int),
    ) by {
        if i > 0 {
            let q = rest[i - 1];
            assert(all[i] == q);
            assert(below(q, path, dir.dirs.len() as int));
            let tail = q.skip(path.len() as int);
            assert(tail[0] == q[path.len() as int]);
            assert(tail.drop_first() =~= q.skip(path.len() as int + 1));
        }
    }
}

/// No directory below children is listed twice.
pub proof fn children_are_distinct(dirs: Seq<DirView>, path: Seq<usize>)
    requires
        dirs.len() <= usize::MAX,
        forall|i: int| 0 <= i < dirs.len() ==> countable(#[trigger] dirs[i]),
    ensures
        preorder_children(dirs, path).no_duplicates(),
        forall|i: int|
            0 <= i < preorder_children(dirs, path).len() ==> below(
                #[trigger] preorder_children(dirs, path)[i],
                path,
                dirs.len() as int,
            ),
        forall|i: int|
            0 <= i < preorder_children(dirs, path).len() ==> {
                let q = #[trigger] preorder_children(dirs, path)[i];
                valid_path(dirs[q[path.len() as int] as int], q.skip(path.len() as int + 1))
            },
    decreases dirs, 1nat,
{
    if dirs.len() > 0 {
        let init = dirs.drop_last();
        let n = init.len() as int;
        assert forall|i: int| 0 <= i < init.len() implies countable(#[trigger] init[i]) by {
            assert(countable(dirs[i]));
        }
        children_are_distinct(init, path);
        let before = preorder_children(init, path);
        let all = preorder_children(dirs, path);
        if dirs.last().relocation is Placeholder {
            assert(all =~= before);
            assert forall|i: int| 0 <= i < all.len() implies {
                let q = #[trigger] all[i];
                valid_path(dirs[q[path.len() as int] as int], q.skip(path.len() as int + 1))
            } by {
                let q = before[i];
                assert(below(q, path, n));
                assert(init[q[path.len() as int] as int] == dirs[q[path.len() as int] as int]);
            }
            assert forall|i: int| 0 <= i < all.len() implies below(
                #[trigger] all[i],
                path,
                dirs.len() as int,
            ) by {
                assert(below(before[i], path, n));
            }
        } else {
            let step = path.push(n as usize);
            assert(countable(dirs[n]));
            preorder_is_distinct(dirs[n], step);
            let own = preorder(dirs[n], step);
            assert(all == before + own);
            assert forall|i: int| 0 <= i < own.len() implies {
                let q = #[trigger] own[i];
                below(q, path, dirs.len() as int) && q[path.len() as int] == n && valid_path(
                    dirs[n],
                    q.skip(path.len() as int + 1),
                )
            } by {
                let q = own[i];
                assert(under(q, step));
                assert(q.take(path.len() as int + 1)[path.len() as int] == q[path.len() as int]);
                assert(step[path.len() as int] == n as usize);
                assert(q.take(path.len() as int) =~= q.take(path.len() as int + 1).take(
                    path.len() as int,
                ));
                assert(step.take(path.len() as int) =~= path);
            }
            assert forall|i: int, j: int| 0 <= i < j < all.len() implies all[i] != all[j] by {
                if j < n && j < before.len() {
                } else if i < before.len() && j >= before.len() {
                    assert(below(before[i], path, n));
                    assert(own[j - before.len()][path.len() as int] == n);
                } else if i >= before.len() {
                    assert(all[i] == own[i - before.len()] && all[j] == own[j - before.len()]);
                } else {
                    assert(all[i] == before[i] && all[j] == before[j]);
                }
            }
            assert forall|i: int| 0 <= i < all.len() implies below(
                #[trigger] all[i],
                path,
                dirs.len() as int,
            ) by {
                if i < before.len() {
                    assert(below(before[i], path, n));
                } else {
                    assert(all[i] == own[i - before.len()]);
                }
            }
            assert forall|i: int| 0 <= i < all.len() implies {
                let q = #[trigger] all[i];
                valid_path(dirs[q[path.len() as int] as int], q.skip(path.len() as int + 1))
            } by {
                if i < before.len() {
                    let q = before[i];
                    assert(below(q, path, n));
                    assert(init[q[path.len() as int] as int] == dirs[q[path.len() as int] as int]);
                } else {
                    let q = own[i - before.len()];
                    assert(q[path.len() as int] == n);
                }
            }
        }
    }
}

proof fn pairs_are_distinct(paths: Seq<Seq<usize>>, types: Seq<EntryType>)
    requires
        paths.no_duplicates(),
        types.no_duplicates(),
    ensures
        pairs(paths, types).no_duplicates(),
        forall|i: int|
            0 <= i < pairs(paths, types).len() ==> paths.contains(
                (#[trigger] pairs(paths, types)[i]).0,
            ),
    decreases paths.len(),
{
    if paths.len() > 0 {
        let init = paths.drop_last();
        pairs_are_distinct(init, types);
        let before = pairs(init, types);
        let all = pairs(paths, types);
        let last = paths.last();
        assert(!init.contains(last)) by {
            if init.contains(last) {
                let j = choose|j: int| 0 <= j < init.len() && init[j] == last;
                assert(paths[j] == paths[paths.len() - 1]);
            }
        }
        assert forall|i: int| before.len() <= i < all.len() implies (#[trigger] all[i]).0 == last
            && all[i].1 == types[i - before.len()] by {}
        assert forall|i: int, j: int| 0 <= i < j < all.len() implies all[i] != all[j] by {
            if j < before.len() {
                assert(all[i] == before[i] && all[j] == before[j]);
            } else if i < before.len() {
                assert(init.contains(before[i].0));
            } else {
                assert(types[i - before.len()] != types[j - before.len()]);
            }
        }
        assert forall|i: int| 0 <= i < all.len() implies paths.contains((#[trigger] all[i]).0) by {
            if i < before.len() {
                assert(init.contains(before[i].0));
                let j = choose|j: int| 0 <= j < init.len() && init[j] == before[i].0;
                assert(paths[j] == before[i].0);
            } else {
                assert(paths[paths.len() - 1] == last);
            }
        }
    }
}

proof fn data_files_are_distinct(files: Seq<FileView>, path: Seq<usize>, n: int)
    requires
        0 <= n <= files.len(),
        files.len() <= usize::MAX,
    ensures
        data_files(files, path, n).no_duplicates(),
        forall|i: int|
            0 <= i < data_files(files, path, n).len() ==> (#[trigger] data_files(
                files,
                path,
                n,
            )[i]).0 == path && data_files(files, path, n)[i].1 < n,
    decreases n,
{
    if n > 0 {
        data_files_are_distinct(files, path, n - 1);
        let before = data_files(files, path, n - 1);
        let all = data_files(files, path, n);
        assert forall|i: int, j: int| 0 <= i < j < all.len() implies all[i] != all[j] by {
            if j == before.len() {
                assert(before[i].1 < n - 1);
            }
        }
    }
}

proof fn order_is_distinct(root: DirView, paths: Seq<Seq<usize>>)
    requires
        paths.no_duplicates(),
        forall|i: int|
            0 <= i < paths.len() ==> dir_at(root, #[trigger] paths[i]).files.len() <= usize::MAX,
    ensures
        data_files_in(root, paths).no_duplicates(),
        forall|i: int|
            0 <= i < data_files_in(root, paths).len() ==> paths.contains(
                (#[trigger] data_files_in(root, paths)[i]).0,
            ),
    decreases paths.len(),
{
    if paths.len() > 0 {
        let init = paths.drop_last();
        let last = paths[paths.len() - 1];
        assert forall|i: int| 0 <= i < init.len() implies dir_at(
            root,
            #[trigger] init[i],
        ).files.len() <= usize::MAX by {
            assert(dir_at(root, paths[i]).files.len() <= usize::MAX);
        }
        order_is_distinct(root, init);
        let dir = dir_at(root, last);
        assert(dir.files.len() <= usize::MAX);
        data_files_are_distinct(dir.files, last, dir.files.len() as int);
        let before = data_files_in(root, init);
        let own = data_files(dir.files, last, dir.files.len() as int);
        let all = data_files_in(root, paths);
        assert(all == before + own);
        assert(!init.contains(last)) by {
            if init.contains(last) {
                let j = choose|j: int| 0 <= j < init.len() && init[j] == last;
                assert(paths[j] == paths[paths.len() - 1]);
            }
        }
        assert forall|i: int, j: int| 0 <= i < j < all.len() implies all[i] != all[j] by {
            if j < before.len() {
                assert(all[i] == before[i] && all[j] == before[j]);
            } else if i < before.len() {
                assert(init.contains(before[i].0));
                assert(own[j - before.len()].0 == last);
            } else {
                assert(all[i] == own[i - before.len()] && all[j] == own[j - before.len()]);
            }
        }
        assert forall|i: int| 0 <= i < all.len() implies paths.contains((#[trigger] all[i]).0) by {
            if i < before.len() {
                assert(init.contains(before[i].0));
                let j = choose|j: int| 0 <= j < init.len() && init[j] == before[i].0;
                assert(paths[j] == before[i].0);
            } else {
                assert(own[i - before.len()].0 == last);
            }
        }
    }
}

proof fn second_pass_keeps_counts(root: DirView, order: Seq<(Seq<usize>, usize)>, cursor: int)
    requires
        order_valid(root, order),
        order.no_duplicates(),
        cursor >= 0,
        plan_files(root, order, cursor) is Ok,
        forall|k: int|
            0 <= k < order.len() ==> file_at(root, #[trigger] order[k]).additional_extents.len()
                == more_extents(file_at(root, order[k])),
    ensures
        same_tree(root, plan_files(root, order, cursor)->Ok_0.0, true),
    decreases order.len(),
{
    if order.len() == 0 {
        same_tree_reflexive(root, true);
    } else {
        let init = order.drop_last();
        let last = order.len() - 1;
        let here = order[last];
        order_prefix_valid(root, order);
        assert forall|k: int| 0 <= k < init.len() implies file_at(
            root,
            #[trigger] init[k],
        ).additional_extents.len() == more_extents(file_at(root, init[k])) by {
            assert(order[k] == init[k]);
        }
        assert(init.no_duplicates()) by {
            assert forall|i: int, j: int| 0 <= i < j < init.len() implies init[i] != init[j] by {
                assert(order[i] != order[j]);
            }
        }
        second_pass_keeps_counts(root, init, cursor);
        plan_files_same(root, init, cursor);
        let (mid, at) = plan_files(root, init, cursor)->Ok_0;
        same_tree_at(root, mid, here.0, false);
        if init.contains(here) {
            let j = choose|j: int| 0 <= j < init.len() && init[j] == here;
            assert(order[j] == order[last]);
        }
        other_files_stay(root, init, cursor, here);
        let file = file_at(mid, here);
        extent_count_is_fixed(contents_of(file.kind).len() as int, at, 0, 2048);
        with_file_same(mid, here, at, true);
        same_tree_transitive(root, mid, with_file(mid, here, at), true);
    }
}

proof fn same_keys(
    a: DirView,
    b: DirView,
    jobs: Seq<(Seq<usize>, EntryType)>,
    x: Seq<DirectoryRef>,
    y: Seq<DirectoryRef>,
)
    requires
        same_tree(a, b, false),
        jobs_valid(a, jobs),
    ensures
        ref_map(a, jobs, x).dom() == ref_map(b, jobs, y).dom(),
    decreases jobs.len(),
{
    if jobs.len() > 0 {
        let init = jobs.drop_last();
        assert forall|i: int| 0 <= i < init.len() implies valid_path(a, (#[trigger] init[i]).0) by {
            assert(valid_path(a, jobs[i].0));
        }
        same_keys(a, b, init, x, y);
        assert(valid_path(a, jobs[jobs.len() - 1].0));
        same_tree_at(a, b, jobs.last().0, false);
        assert(ref_map(a, jobs, x).dom() =~= ref_map(b, jobs, y).dom());
    }
}

proof fn same_tree_shape(a: DirView, b: DirView)
    requires
        same_tree(a, b, true),
    ensures
        same_dir_shape(a, b),
        forall|ty: EntryType| dir_fits(a, ty) ==> #[trigger] dir_fits(b, ty),
{
    assert forall|i: int| 0 <= i < a.dirs.len() implies same_child_shape(
        #[trigger] a.dirs[i],
        b.dirs[i],
    ) by {
        assert(same_tree(a.dirs[i], b.dirs[i], true));
    }
    assert forall|i: int| 0 <= i < a.files.len() implies same_file_shape(
        #[trigger] a.files[i],
        b.files[i],
    ) by {
        assert(same_file(a.files[i], b.files[i], true));
    }
    assert forall|ty: EntryType| dir_fits(a, ty) implies #[trigger] dir_fits(b, ty) by {
        assert forall|i: int| 0 <= i < b.dirs.len() implies (#[trigger] b.dirs[i]).dirs.len() + 2
            <= u32::MAX && (!(b.dirs[i].relocation is Placeholder)
            ==> b.dirs[i].entries.dom().contains(ty)) by {
            assert(same_tree(a.dirs[i], b.dirs[i], true));
            assert(a.dirs[i].dirs.len() + 2 <= u32::MAX);
        }
        assert forall|i: int| 0 <= i < b.files.len() implies !((
        #[trigger] b.files[i]).kind is Directory) by {
            assert(same_file(a.files[i], b.files[i], true));
            assert(!(a.files[i].kind is Directory));
        }
    }
}

/// The records of a directory that could be planned can be written, with the same sizes,
/// unless the serial numbers run out.
proof fn records_match(
    a: DirView,
    b: DirView,
    is_root: bool,
    ty: EntryType,
    i: int,
    j: int,
    rrip: Option<RripOptions>,
    time: Seq<u8>,
    m0: Map<DirKey, DirectoryRef>,
    m1: Map<DirKey, DirectoryRef>,
)
    requires
        same_tree(a, b, true),
        m0.dom() == m1.dom(),
        records_of(a, is_root, ty, i, rrip, time, m0) is Ok,
    ensures
        inode_step(a, ty, rrip) == inode_step(b, ty, rrip),
        match records_of(b, is_root, ty, j, rrip, time, m1) {
            Ok(records) => shapes(records) == shapes(
                records_of(a, is_root, ty, i, rrip, time, m0)->Ok_0,
            ),
            Err(e) => e == IsoCreationError::TooManyEntries && j + inode_step(a, ty, rrip)
                > u32::MAX,
        },
{
    same_tree_shape(a, b);
    let c = context(ty, rrip, time, m0);
    let d = context(ty, rrip, time, m1);
    sizes_do_not_depend_on_extents(a, b, is_root, i, j, c, d);
    assert(dir_fits(b, ty));
    let x = sorted(deduped(raw_records(a, is_root, i, c)->Ok_0, ty));
    let y = sorted(deduped(raw_records(b, is_root, j, d)->Ok_0, ty));
    shape_decides_size(x, y, 0, 2048);
    assert(!has_long_record(y)) by {
        if has_long_record(y) {
            let k = choose|k: int| 0 <= k < y.len() && record_size(#[trigger] y[k]) > 255;
            assert(record_size(x[k]) == record_size(y[k]));
        }
    }
}

/// The sizes of records do not depend on the time.
proof fn records_take_any_time(
    dir: DirView,
    is_root: bool,
    ty: EntryType,
    inode: int,
    rrip: Option<RripOptions>,
    t: Seq<u8>,
    u: Seq<u8>,
    refs: Map<DirKey, DirectoryRef>,
)
    requires
        t.len() == u.len(),
    ensures
        match records_of(dir, is_root, ty, inode, rrip, t, refs) {
            Ok(records) => {
                &&& records_of(dir, is_root, ty, inode, rrip, u, refs) is Ok
                &&& shapes(records) == shapes(
                    records_of(dir, is_root, ty, inode, rrip, u, refs)->Ok_0,
                )
            },
            Err(e) => true,
        },
{
    let c = context(ty, rrip, t, refs);
    let d = context(ty, rrip, u, refs);
    sizes_do_not_depend_on_extents(dir, dir, is_root, inode, inode, c, d);
    if records_of(dir, is_root, ty, inode, rrip, t, refs) is Ok {
        let x = sorted(deduped(raw_records(dir, is_root, inode, c)->Ok_0, ty));
        let y = sorted(deduped(raw_records(dir, is_root, inode, d)->Ok_0, ty));
        shape_decides_size(x, y, 0, 2048);
        assert(!has_long_record(y)) by {
            if has_long_record(y) {
                let k = choose|k: int| 0 <= k < y.len() && record_size(#[trigger] y[k]) > 255;
                assert(record_size(x[k]) == record_size(y[k]));
            }
        }
    }
}

proof fn plans_take_any_time(
    root: DirView,
    jobs: Seq<(Seq<usize>, EntryType)>,
    rrip: Option<RripOptions>,
    t: Seq<u8>,
    u: Seq<u8>,
    refs: Map<DirKey, DirectoryRef>,
    cursor: int,
    inode: int,
)
    requires
        t.len() == u.len(),
        plan_dirs(root, jobs, rrip, t, refs, cursor, inode) is Ok,
    ensures
        plan_dirs(root, jobs, rrip, u, refs, cursor, inode) == plan_dirs(
            root,
            jobs,
            rrip,
            t,
            refs,
            cursor,
            inode,
        ),
    decreases jobs.len(),
{
    if jobs.len() > 0 {
        reveal(plan_step);
        plans_take_any_time(root, jobs.drop_last(), rrip, t, u, refs, cursor, inode);
        let p = plan_dirs(root, jobs.drop_last(), rrip, t, refs, cursor, inode)->Ok_0;
        let (path, ty) = jobs.last();
        let dir = dir_at(root, path);
        let is_root = path.len() == 0;
        records_take_any_time(dir, is_root, ty, p.inode, rrip, t, u, refs);
        shape_decides_size(
            records_of(dir, is_root, ty, p.inode, rrip, t, refs)->Ok_0,
            records_of(dir, is_root, ty, p.inode, rrip, u, refs)->Ok_0,
            align_up(p.cursor, 2048),
            2048,
        );
    }
}

/// Where everything lies does not depend on the time.
pub proof fn layout_takes_any_time(
    root: DirView,
    types: Seq<EntryType>,
    rrip: Option<RripOptions>,
    t: Seq<u8>,
    u: Seq<u8>,
    start: int,
)
    requires
        t.len() == u.len(),
        layout(root, types, rrip, t, start) is Ok,
    ensures
        layout(root, types, rrip, u, start) == layout(root, types, rrip, t, start),
{
    let jobs = jobs_of(root, types);
    let none = no_refs(jobs.len());
    let blank = with_refs(plan_files(root, order_of(root), 0)->Ok_0.0, jobs, none);
    plans_take_any_time(blank, jobs, rrip, t, u, ref_map(blank, jobs, none), start, 1);
}

proof fn splits_are_announced(
    dir: DirView,
    is_root: bool,
    ty: EntryType,
    inode: int,
    rrip: Option<RripOptions>,
    time: Seq<u8>,
    refs: Map<DirKey, DirectoryRef>,
)
    requires
        records_of(dir, is_root, ty, inode, rrip, time, refs) is Ok,
    ensures
        forall|i: int|
            0 <= i < records_of(dir, is_root, ty, inode, rrip, time, refs)->Ok_0.len() && (
            #[trigger] records_of(dir, is_root, ty, inode, rrip, time, refs)->Ok_0[i]).overflow.len()
                > 0 ==> records_of(
                dir,
                is_root,
                ty,
                inode,
                rrip,
                time,
                refs,
            )->Ok_0[i].inline.len() >= 28,
{
    let raw = raw_records(dir, is_root, inode, context(ty, rrip, time, refs))->Ok_0;
    crate::iso::shapes::raw_overflow_is_announced(
        dir,
        is_root,
        inode,
        context(ty, rrip, time, refs),
    );
    crate::iso::shapes::dedup_keeps_announcements(raw, 0, Set::empty(), ty);
    crate::iso::shapes::sorted_keeps_announcements(deduped(raw, ty));
}

/// A directory is written where it was planned: its records have the planned sizes.
proof fn directory_fits_its_place(
    data: Seq<u8>,
    planned: Seq<RecordView>,
    records: Seq<RecordView>,
    own: DirectoryRef,
    parent: DirectoryRef,
    time: Seq<u8>,
)
    requires
        time.len() == 7,
        shapes(records) == shapes(planned),
        own == dir_place(data.len() as int, planned),
        dir_end(data.len() as int, planned) + overflow_total(planned) <= usize::MAX,
        dir_end(data.len() as int, planned) + overflow_total(planned) + 2048 <= u64::MAX,
        forall|i: int|
            0 <= i < records.len() && (#[trigger] records[i]).overflow.len() > 0
                ==> records[i].inline.len() >= 28,
    ensures
        with_directory(data, records, own, parent, time) is Ok,
        with_directory(data, records, own, parent, time)->Ok_0.len() == dir_end(
            data.len() as int,
            planned,
        ) + overflow_total(planned),
{
    reveal(with_directory);
    let ca = continuation_sector(own);
    let fin = finished(records, own, parent, ca);
    let start = align_up(data.len() as int, 2048);
    finished_sizes(records, own, parent, ca);
    shape_decides_size(fin, planned, 0, 2048);
    shape_decides_size(records, planned, 0, 2048);
    padded_is_aligned(data);
    packed_len(fin, time);
    padded_is_aligned(packed(fin, time));
    align_up_bounds(data.len() as int, 2048);
    pack_end_grows(0, planned, 0, 2048);
    pack_end_shift(start, planned);
    let n = pack_end(0, planned, 2048);
    align_up_bounds(n, 2048);
    align_up_bounds(start + n, 2048);
    assert(align_up(start + n, 2048) == start + align_up(n, 2048)) by {
        assert((start + n + 2047) / 2048 == start / 2048 + (n + 2047) / 2048);
    }
    overflow_len(fin);
    crate::iso::records::overflow_total_prefix(planned, 0);
    assert(padded(data).len() == start);
    assert(own.extent.0 == start / 2048);
    assert(own.size == align_up(n, 2048));
    assert(padded(packed(fin, time)).len() == align_up(n, 2048));
}

/// What was planned for directories is what is written: each directory where it was
/// planned, and all of them as many bytes, unless the serial numbers run out.
proof fn dirs_are_written_as_planned(
    blank: DirView,
    full: DirView,
    jobs: Seq<(Seq<usize>, EntryType)>,
    refs: Seq<DirectoryRef>,
    rrip: Option<RripOptions>,
    time: Seq<u8>,
    m0: Map<DirKey, DirectoryRef>,
    m1: Map<DirKey, DirectoryRef>,
    data: Seq<u8>,
    i: int,
    j: int,
)
    requires
        time.len() == 7,
        same_tree(blank, full, true),
        m0.dom() == m1.dom(),
        jobs_valid(blank, jobs),
        data.len() + 2048 <= u64::MAX,
        plan_dirs(blank, jobs, rrip, time, m0, data.len() as int, i) is Ok,
        ({
            let p = plan_dirs(blank, jobs, rrip, time, m0, data.len() as int, i)->Ok_0;
            &&& p.cursor <= usize::MAX
            &&& p.refs.len() == jobs.len()
            &&& forall|k: int| 0 <= k < jobs.len() ==> p.refs[k] == #[trigger] refs[k]
        }),
        forall|k: int|
            0 <= k < jobs.len() ==> entry_of(
                dir_at(full, (#[trigger] jobs[k]).0),
                jobs[k].1,
            ) == refs[k],
    ensures
        ({
            let p = plan_dirs(blank, jobs, rrip, time, m0, data.len() as int, i)->Ok_0;
            &&& data.len() <= p.cursor
            &&& match write_dirs(full, jobs, rrip, time, m1, data, j) {
                Ok(s) => s.data.len() == p.cursor && s.inode == j + p.inode - i,
                Err(e) => e == IsoCreationError::TooManyEntries && j + p.inode - i > u32::MAX,
            }
        }),
    decreases jobs.len(),
{
    if jobs.len() > 0 {
        let init = jobs.drop_last();
        let last = jobs.len() - 1;
        let (path, ty) = jobs[last];
        let p = plan_dirs(blank, jobs, rrip, time, m0, data.len() as int, i)->Ok_0;
        let before = plan_dirs(blank, init, rrip, time, m0, data.len() as int, i)->Ok_0;
        assert(valid_path(blank, jobs[last].0));
        same_tree_at(blank, full, path, true);
        let a = dir_at(blank, path);
        let b = dir_at(full, path);
        reveal(plan_step);
        let planned = records_of(a, path.len() == 0, ty, before.inode, rrip, time, m0)->Ok_0;
        assert(p.refs == before.refs.push(dir_place(before.cursor, planned)));
        assert(before.refs.len() == init.len());
        plan_cursor_grows(blank, init, rrip, time, m0, data.len() as int, i);
        align_up_bounds(before.cursor, 2048);
        pack_end_grows(align_up(before.cursor, 2048), planned, 0, 2048);
        align_up_bounds(pack_end(align_up(before.cursor, 2048), planned, 2048), 2048);
        crate::iso::records::overflow_total_prefix(planned, 0);
        assert(before.cursor <= p.cursor);
        assert forall|k: int| 0 <= k < init.len() implies before.refs[k] == #[trigger] refs[k] by {
            assert(p.refs[k] == refs[k]);
        }
        assert forall|k: int| 0 <= k < init.len() implies valid_path(
            blank,
            (#[trigger] init[k]).0,
        ) by {
            assert(valid_path(blank, jobs[k].0));
        }
        assert forall|k: int| 0 <= k < init.len() implies entry_of(
            dir_at(full, (#[trigger] init[k]).0),
            init[k].1,
        ) == refs[k] by {
            assert(init[k] == jobs[k]);
        }
        dirs_are_written_as_planned(blank, full, init, refs, rrip, time, m0, m1, data, i, j);
        match write_dirs(full, init, rrip, time, m1, data, j) {
            Err(e) => {},
            Ok(s) => {
                reveal(write_step);
                records_match(
                    a,
                    b,
                    path.len() == 0,
                    ty,
                    before.inode,
                    s.inode,
                    rrip,
                    time,
                    m0,
                    m1,
                );
                match records_of(b, path.len() == 0, ty, s.inode, rrip, time, m1) {
                    Err(e) => {},
                    Ok(records) => {
                        splits_are_announced(b, path.len() == 0, ty, s.inode, rrip, time, m1);
                        assert(entry_of(b, ty) == refs[last]);
                        assert(p.refs[last] == refs[last]);
                        directory_fits_its_place(
                            s.data,
                            planned,
                            records,
                            entry_of(b, ty),
                            entry_of(dir_at(full, parent_path(path)), ty),
                            time,
                        );
                    },
                }
            },
        }
    }
}

proof fn plan_cursor_grows(
    root: DirView,
    jobs: Seq<(Seq<usize>, EntryType)>,
    rrip: Option<RripOptions>,
    time: Seq<u8>,
    refs: Map<DirKey, DirectoryRef>,
    cursor: int,
    inode: int,
)
    requires
        plan_dirs(root, jobs, rrip, time, refs, cursor, inode) is Ok,
        cursor >= 0,
    ensures
        plan_dirs(root, jobs, rrip, time, refs, cursor, inode)->Ok_0.cursor >= cursor,
        plan_dirs(root, jobs, rrip, time, refs, cursor, inode)->Ok_0.refs.len() == jobs.len(),
    decreases jobs.len(),
{
    if jobs.len() > 0 {
        let init = jobs.drop_last();
        plan_cursor_grows(root, init, rrip, time, refs, cursor, inode);
        reveal(plan_step);
        let before = plan_dirs(root, init, rrip, time, refs, cursor, inode)->Ok_0;
        let (path, ty) = jobs.last();
        let planned = records_of(
            dir_at(root, path),
            path.len() == 0,
            ty,
            before.inode,
            rrip,
            time,
            refs,
        )->Ok_0;
        align_up_bounds(before.cursor, 2048);
        pack_end_grows(align_up(before.cursor, 2048), planned, 0, 2048);
        align_up_bounds(pack_end(align_up(before.cursor, 2048), planned, 2048), 2048);
        crate::iso::records::overflow_total_prefix(planned, 0);
    }
}

/// What was planned for files is what is written: each file where it was planned, and all
/// of them as many bytes.
proof fn files_are_written_as_planned(
    root: DirView,
    order: Seq<(Seq<usize>, usize)>,
    data: Seq<u8>,
    k: int,
)
    requires
        order_valid(root, order),
        order.no_duplicates(),
        plan_files(root, order, data.len() as int) is Ok,
        plan_files(root, order, data.len() as int)->Ok_0.1 <= usize::MAX,
        0 <= k <= order.len(),
    ensures
        ({
            let full = plan_files(root, order, data.len() as int)->Ok_0.0;
            &&& plan_files(root, order.take(k), data.len() as int) is Ok
            &&& write_files(full, order.take(k), data) is Ok
            &&& write_files(full, order.take(k), data)->Ok_0.len() == cursor_at(
                root,
                order,
                data.len() as int,
                k,
            )
        }),
    decreases k,
{
    let start = data.len() as int;
    let full = plan_files(root, order, start)->Ok_0.0;
    files_prefix_ok(root, order, start, k);
    if k == 0 {
        assert(order.take(0) =~= Seq::empty());
    } else {
        files_are_written_as_planned(root, order, data, k - 1);
        files_prefix_ok(root, order, start, k - 1);
        assert(order.take(k).drop_last() =~= order.take(k - 1));
        let here = order[k - 1];
        assert(order.take(k).last() == here);
        file_is_found(root, order, start, k - 1);
        let before = write_files(full, order.take(k - 1), data)->Ok_0;
        let (mid, at) = plan_files(root, order.take(k - 1), start)->Ok_0;
        assert(before.len() == at);
        prefix_order_valid(root, order, k - 1);
        plan_files_same(root, order.take(k - 1), start);
        assert(valid_path(root, here.0));
        same_tree_at(root, mid, here.0, false);
        assert(same_file(
            dir_at(root, here.0).files[here.1 as int],
            dir_at(mid, here.0).files[here.1 as int],
            false,
        ));
        let len = contents_of(file_at(root, here).kind).len() as int;
        padded_is_aligned(before);
        align_up_bounds(at, 2048);
        if len > 0 {
            extents_end_behind_the_data(len, at);
        } else {
            assert(extent_end(len, at, 2048) == at);
        }
    }
}

proof fn prefix_order_valid(root: DirView, order: Seq<(Seq<usize>, usize)>, k: int)
    requires
        order_valid(root, order),
        0 <= k <= order.len(),
    ensures
        order_valid(root, order.take(k)),
{
    let part = order.take(k);
    assert forall|i: int| 0 <= i < part.len() implies valid_path(root, (#[trigger] part[i]).0)
        && part[i].1 < dir_at(root, part[i].0).files.len() by {
        assert(valid_path(root, order[i].0));
    }
}

proof fn files_prefix_ok(
    root: DirView,
    order: Seq<(Seq<usize>, usize)>,
    cursor: int,
    k: int,
)
    requires
        order_valid(root, order),
        cursor >= 0,
        plan_files(root, order, cursor) is Ok,
        0 <= k <= order.len(),
    ensures
        plan_files(root, order.take(k), cursor) is Ok,
        plan_files(root, order.take(k), cursor)->Ok_0.1 <= plan_files(
            root,
            order,
            cursor,
        )->Ok_0.1,
    decreases order.len(),
{
    if k == order.len() {
        assert(order.take(k) =~= order);
    } else {
        order_prefix_valid(root, order);
        let init = order.drop_last();
        files_prefix_ok(root, init, cursor, k);
        assert(init.take(k) =~= order.take(k));
        plan_files_same(root, init, cursor);
        let (mid, at) = plan_files(root, init, cursor)->Ok_0;
        extent_end_grows(
            contents_of(file_at(mid, order.last()).kind).len() as int,
            at,
            2048,
        );
    }
}

/// The children and files of every directory below can be counted.
pub proof fn countable_at(dir: DirView, path: Seq<usize>)
    requires
        countable(dir),
        valid_path(dir, path),
    ensures
        countable(dir_at(dir, path)),
    decreases path.len(),
{
    if path.len() > 0 {
        assert(countable(dir.dirs[path[0] as int]));
        countable_at(dir.dirs[path[0] as int], path.drop_first());
    }
}

/// The ways and file positions of a layout are valid and different.
pub proof fn work_is_distinct(root: DirView, types: Seq<EntryType>)
    requires
        countable(root),
        types.no_duplicates(),
    ensures
        jobs_of(root, types).no_duplicates(),
        jobs_valid(root, jobs_of(root, types)),
        order_of(root).no_duplicates(),
        order_valid(root, order_of(root)),
{
    let paths = preorder(root, Seq::empty());
    preorder_is_distinct(root, Seq::empty());
    assert forall|i: int| 0 <= i < paths.len() implies valid_path(root, #[trigger] paths[i])
        && dir_at(root, paths[i]).files.len() <= usize::MAX by {
        assert(paths[i].skip(0) =~= paths[i]);
        countable_at(root, paths[i]);
    }
    pairs_are_distinct(paths, types);
    let jobs = jobs_of(root, types);
    assert forall|i: int| 0 <= i < jobs.len() implies valid_path(root, (#[trigger] jobs[i]).0) by {
        assert(paths.contains(jobs[i].0));
        let k = choose|k: int| 0 <= k < paths.len() && paths[k] == jobs[i].0;
        assert(valid_path(root, paths[k]));
    }
    order_is_distinct(root, paths);
    order_is_valid(root, paths);
}

proof fn order_is_valid(root: DirView, paths: Seq<Seq<usize>>)
    requires
        forall|i: int|
            0 <= i < paths.len() ==> valid_path(root, #[trigger] paths[i]) && dir_at(
                root,
                paths[i],
            ).files.len() <= usize::MAX,
    ensures
        order_valid(root, data_files_in(root, paths)),
    decreases paths.len(),
{
    if paths.len() > 0 {
        let init = paths.drop_last();
        let last = paths[paths.len() - 1];
        assert forall|i: int| 0 <= i < init.len() implies valid_path(root, #[trigger] init[i])
            && dir_at(root, init[i]).files.len() <= usize::MAX by {
            assert(valid_path(root, paths[i]));
        }
        order_is_valid(root, init);
        let dir = dir_at(root, last);
        assert(valid_path(root, last));
        data_files_are_distinct(dir.files, last, dir.files.len() as int);
        let before = data_files_in(root, init);
        let own = data_files(dir.files, last, dir.files.len() as int);
        let all = data_files_in(root, paths);
        assert forall|i: int| 0 <= i < all.len() implies valid_path(root, (#[trigger] all[i]).0)
            && all[i].1 < dir_at(root, all[i].0).files.len() by {
            if i < before.len() {
                assert(all[i] == before[i]);
            } else {
                assert(all[i] == own[i - before.len()]);
            }
        }
    }
}

/// What is laid out is what is written: every directory and every file lies where the
/// layout says, and together they take as many bytes as the layout says, unless there are
/// more entries than serial numbers.
pub proof fn layout_is_met(
    root: DirView,
    types: Seq<EntryType>,
    rrip: Option<RripOptions>,
    time: Seq<u8>,
    data: Seq<u8>,
)
    requires
        time.len() == 7,
        types.no_duplicates(),
        countable(root),
        types.len() > 0,
        data.len() + 2048 <= u64::MAX,
        layout(root, types, rrip, time, data.len() as int) is Ok,
    ensures
        ({
            let laid = layout(root, types, rrip, time, data.len() as int)->Ok_0;
            match write_dirs(
                laid.root,
                jobs_of(root, types),
                rrip,
                time,
                laid.refs,
                data,
                laid.inode,
            ) {
                Ok(s) => {
                    &&& write_files(laid.root, order_of(root), s.data) is Ok
                    &&& write_files(laid.root, order_of(root), s.data)->Ok_0.len() == laid.end
                },
                Err(e) => e == IsoCreationError::TooManyEntries && 2 * laid.inode - 1 > u32::MAX,
            }
        }),
{
    let start = data.len() as int;
    let jobs = jobs_of(root, types);
    let order = order_of(root);
    let none = no_refs(jobs.len());
    work_is_distinct(root, types);
    let sized = plan_files(root, order, 0)->Ok_0.0;
    plan_files_same(root, order, 0);
    work_stays_valid(root, sized, jobs, order, false);
    let blank = with_refs(sized, jobs, none);
    with_refs_same(sized, jobs, none, true);
    work_stays_valid(sized, blank, jobs, order, true);
    refs_are_found(sized, jobs, none);
    let m0 = ref_map(blank, jobs, none);
    let p = plan_dirs(blank, jobs, rrip, time, m0, start, 1)->Ok_0;
    plan_cursor_grows(blank, jobs, rrip, time, m0, start, 1);
    let placed = with_refs(blank, jobs, p.refs);
    with_refs_same(blank, jobs, p.refs, true);
    work_stays_valid(blank, placed, jobs, order, true);
    refs_are_found(blank, jobs, p.refs);
    let m1 = ref_map(placed, jobs, p.refs);
    with_refs_same(blank, jobs, p.refs, false);
    same_keys(blank, placed, jobs, none, p.refs);
    let (full, end) = plan_files(placed, order, p.cursor)->Ok_0;
    assert(p.cursor <= usize::MAX) by {
        jobs_are_there(root, types);
        reveal(plan_step);
    }
    assert(end <= usize::MAX) by {
        if order.len() > 0 {
            plan_files_same(placed, order, p.cursor);
        }
    }
    assert forall|k: int| 0 <= k < order.len() implies file_at(
        placed,
        #[trigger] order[k],
    ).additional_extents.len() == more_extents(file_at(placed, order[k])) by {
        let q = order[k];
        assert(valid_path(root, q.0));
        assert(valid_path(sized, q.0));
        assert(valid_path(blank, q.0));
        file_is_found(root, order, 0, k);
        assert(dir_at(blank, q.0).files == dir_at(sized, q.0).files);
        assert(dir_at(placed, q.0).files == dir_at(blank, q.0).files);
    }
    second_pass_keeps_counts(placed, order, p.cursor);
    same_tree_transitive(blank, placed, full, true);
    plan_files_same(placed, order, p.cursor);
    assert forall|k: int| 0 <= k < jobs.len() implies entry_of(
        dir_at(full, (#[trigger] jobs[k]).0),
        jobs[k].1,
    ) == p.refs[k] by {
        assert(valid_path(placed, jobs[k].0));
        entries_are_kept(placed, order, p.cursor, jobs[k].0);
    }
    dirs_are_written_as_planned(
        blank,
        full,
        jobs,
        p.refs,
        rrip,
        time,
        m0,
        m1,
        data,
        1,
        p.inode,
    );
    match write_dirs(full, jobs, rrip, time, m1, data, p.inode) {
        Err(e) => {},
        Ok(s) => {
            files_are_written_as_planned(placed, order, s.data, order.len() as int);
            assert(order.take(order.len() as int) =~= order);
        },
    }
}

/// What is valid in a tree is valid in one that is the same.
pub proof fn work_stays_valid(
    a: DirView,
    b: DirView,
    jobs: Seq<(Seq<usize>, EntryType)>,
    order: Seq<(Seq<usize>, usize)>,
    strict: bool,
)
    requires
        same_tree(a, b, strict),
        jobs_valid(a, jobs),
        order_valid(a, order),
    ensures
        jobs_valid(b, jobs),
        order_valid(b, order),
{
    crate::iso::image::jobs_stay_valid(a, b, jobs, order, strict);
}

/// Directories follow one another: each starts behind the sectors of those before it.
pub proof fn directories_ascend(
    root: DirView,
    jobs: Seq<(Seq<usize>, EntryType)>,
    rrip: Option<RripOptions>,
    time: Seq<u8>,
    refs: Map<DirKey, DirectoryRef>,
    cursor: int,
    inode: int,
    i: int,
    j: int,
)
    requires
        cursor >= 0,
        plan_dirs(root, jobs, rrip, time, refs, cursor, inode) is Ok,
        plan_dirs(root, jobs, rrip, time, refs, cursor, inode)->Ok_0.cursor <= usize::MAX,
        0 <= i < j < jobs.len(),
    ensures
        ({
            let p = plan_dirs(root, jobs, rrip, time, refs, cursor, inode)->Ok_0;
            &&& cursor <= p.refs[i].extent.0 * 2048
            &&& p.refs[i].extent.0 * 2048 + p.refs[i].size <= p.refs[j].extent.0 * 2048
            &&& p.refs[j].extent.0 * 2048 + p.refs[j].size <= p.cursor
        }),
    decreases jobs.len(),
{
    let init = jobs.drop_last();
    let last = jobs.len() - 1;
    place_is_behind(root, jobs, rrip, time, refs, cursor, inode, j);
    place_is_behind(root, jobs, rrip, time, refs, cursor, inode, i);
    plan_cursor_grows(root, init, rrip, time, refs, cursor, inode);
    last_place(root, jobs, rrip, time, refs, cursor, inode);
    if j < last {
        directories_ascend(root, init, rrip, time, refs, cursor, inode, i, j);
    } else {
        place_is_behind(root, init, rrip, time, refs, cursor, inode, i);
    }
}

/// The last directory lies between what is planned before it and the end.
proof fn last_place(
    root: DirView,
    jobs: Seq<(Seq<usize>, EntryType)>,
    rrip: Option<RripOptions>,
    time: Seq<u8>,
    refs: Map<DirKey, DirectoryRef>,
    cursor: int,
    inode: int,
)
    requires
        cursor >= 0,
        jobs.len() > 0,
        plan_dirs(root, jobs, rrip, time, refs, cursor, inode) is Ok,
        plan_dirs(root, jobs, rrip, time, refs, cursor, inode)->Ok_0.cursor <= usize::MAX,
    ensures
        ({
            let p = plan_dirs(root, jobs, rrip, time, refs, cursor, inode)->Ok_0;
            let q = plan_dirs(root, jobs.drop_last(), rrip, time, refs, cursor, inode)->Ok_0;
            let r = p.refs[jobs.len() - 1];
            &&& plan_dirs(root, jobs.drop_last(), rrip, time, refs, cursor, inode) is Ok
            &&& p.refs.len() == jobs.len()
            &&& p.refs.drop_last() == q.refs
            &&& q.cursor <= r.extent.0 * 2048
            &&& r.extent.0 * 2048 + r.size <= p.cursor
            &&& q.cursor <= p.cursor
        }),
{
    let init = jobs.drop_last();
    plan_cursor_grows(root, init, rrip, time, refs, cursor, inode);
    reveal(plan_step);
    let p = plan_dirs(root, jobs, rrip, time, refs, cursor, inode)->Ok_0;
    let q = plan_dirs(root, init, rrip, time, refs, cursor, inode)->Ok_0;
    let (path, ty) = jobs.last();
    let planned = records_of(
        dir_at(root, path),
        path.len() == 0,
        ty,
        q.inode,
        rrip,
        time,
        refs,
    )->Ok_0;
    align_up_bounds(q.cursor, 2048);
    let start = align_up(q.cursor, 2048);
    pack_end_grows(start, planned, 0, 2048);
    align_up_bounds(pack_end(start, planned, 2048), 2048);
    crate::iso::records::overflow_total_prefix(planned, 0);
    assert(p.refs.drop_last() =~= q.refs);
}

proof fn place_is_behind(
    root: DirView,
    jobs: Seq<(Seq<usize>, EntryType)>,
    rrip: Option<RripOptions>,
    time: Seq<u8>,
    refs: Map<DirKey, DirectoryRef>,
    cursor: int,
    inode: int,
    i: int,
)
    requires
        cursor >= 0,
        plan_dirs(root, jobs, rrip, time, refs, cursor, inode) is Ok,
        plan_dirs(root, jobs, rrip, time, refs, cursor, inode)->Ok_0.cursor <= usize::MAX,
        0 <= i < jobs.len(),
    ensures
        ({
            let p = plan_dirs(root, jobs, rrip, time, refs, cursor, inode)->Ok_0;
            &&& cursor <= p.refs[i].extent.0 * 2048
            &&& p.refs[i].extent.0 * 2048 + p.refs[i].size <= p.cursor
        }),
    decreases jobs.len(),
{
    let init = jobs.drop_last();
    last_place(root, jobs, rrip, time, refs, cursor, inode);
    plan_cursor_grows(root, init, rrip, time, refs, cursor, inode);
    if i < jobs.len() - 1 {
        place_is_behind(root, init, rrip, time, refs, cursor, inode, i);
    }
}

/// Each directory comes after its parent.
pub proof fn parents_come_first(root: DirView, i: int)
    requires
        0 < i < preorder(root, Seq::empty()).len(),
    ensures
        preorder(root, Seq::empty())[i].len() > 0,
        exists|j: int|
            0 <= j < i && #[trigger] preorder(root, Seq::empty())[j] == preorder(
                root,
                Seq::empty(),
            )[i].drop_last(),
{
    parent_is_before(root, Seq::empty(), i);
}

spec fn has_parent(all: Seq<Seq<usize>>, i: int) -> bool {
    all[i].len() > 0 && exists|j: int| 0 <= j < i && #[trigger] all[j] == all[i].drop_last()
}

proof fn parent_is_before(dir: DirView, path: Seq<usize>, i: int)
    requires
        0 < i < preorder(dir, path).len(),
    ensures
        has_parent(preorder(dir, path), i),
    decreases dir, 0nat,
{
    let all = preorder(dir, path);
    let rest = preorder_children(dir.dirs, path);
    assert(all == seq![path] + rest);
    child_parent_is_before(dir.dirs, path, i - 1);
    assert(all[i] == rest[i - 1]);
    if rest[i - 1].drop_last() == path {
        assert(all[0] == all[i].drop_last());
    } else {
        let j = choose|j: int| 0 <= j < i - 1 && #[trigger] rest[j] == rest[i - 1].drop_last();
        assert(all[j + 1] == all[i].drop_last());
    }
}

proof fn child_parent_is_before(dirs: Seq<DirView>, path: Seq<usize>, i: int)
    requires
        0 <= i < preorder_children(dirs, path).len(),
    ensures
        preorder_children(dirs, path)[i].len() > 0,
        preorder_children(dirs, path)[i].drop_last() == path || exists|j: int|
            0 <= j < i && #[trigger] preorder_children(dirs, path)[j] == preorder_children(
                dirs,
                path,
            )[i].drop_last(),
    decreases dirs, 1nat,
{
    let init = dirs.drop_last();
    let before = preorder_children(init, path);
    let all = preorder_children(dirs, path);
    if i < before.len() {
        child_parent_is_before(init, path, i);
        assert(all[i] == before[i]);
        if before[i].drop_last() != path {
            let j = choose|j: int| 0 <= j < i && #[trigger] before[j] == before[i].drop_last();
            assert(all[j] == before[j]);
        }
    } else {
        let step = path.push((dirs.len() - 1) as usize);
        let own = preorder(dirs.last(), step);
        let k = i - before.len();
        assert(all[i] == own[k]);
        if k == 0 {
            assert(own[0] == step);
            assert(step.drop_last() =~= path);
        } else {
            parent_is_before(dirs.last(), step, k);
            let j = choose|j: int| 0 <= j < k && #[trigger] own[j] == own[k].drop_last();
            assert(all[j + before.len()] == own[j]);
        }
    }
}

/// Laying out sets extents and nothing else.
pub proof fn layout_keeps_the_tree(
    root: DirView,
    types: Seq<EntryType>,
    rrip: Option<RripOptions>,
    time: Seq<u8>,
    start: int,
)
    requires
        types.no_duplicates(),
        countable(root),
        start >= 0,
        layout(root, types, rrip, time, start) is Ok,
    ensures
        same_tree(root, layout(root, types, rrip, time, start)->Ok_0.root, false),
{
    let jobs = jobs_of(root, types);
    let order = order_of(root);
    let none = no_refs(jobs.len());
    work_is_distinct(root, types);
    let sized = plan_files(root, order, 0)->Ok_0.0;
    plan_files_same(root, order, 0);
    work_stays_valid(root, sized, jobs, order, false);
    let blank = with_refs(sized, jobs, none);
    with_refs_same(sized, jobs, none, false);
    work_stays_valid(sized, blank, jobs, order, false);
    same_tree_transitive(root, sized, blank, false);
    let m0 = ref_map(blank, jobs, none);
    let p = plan_dirs(blank, jobs, rrip, time, m0, start, 1)->Ok_0;
    plan_cursor_grows(blank, jobs, rrip, time, m0, start, 1);
    let placed = with_refs(blank, jobs, p.refs);
    with_refs_same(blank, jobs, p.refs, false);
    work_stays_valid(blank, placed, jobs, order, false);
    same_tree_transitive(root, blank, placed, false);
    plan_files_same(placed, order, p.cursor);
    let full = plan_files(placed, order, p.cursor)->Ok_0.0;
    same_tree_transitive(root, placed, full, false);
}

/// A way in the second of two trees that are the same is one in the first.
pub proof fn same_tree_at_back(a: DirView, b: DirView, q: Seq<usize>)
    requires
        same_tree(a, b, false),
        valid_path(b, q),
    ensures
        valid_path(a, q),
        dir_at(a, q).files.len() == dir_at(b, q).files.len(),
    decreases q.len(),
{
    if q.len() > 0 {
        let i = q[0] as int;
        assert(same_tree(a.dirs[i], b.dirs[i], false));
        same_tree_at_back(a.dirs[i], b.dirs[i], q.drop_first());
    }
}

/// Before directories are planned, each file has as many extents as it needs.
pub proof fn planned_extents(
    root: DirView,
    jobs: Seq<(Seq<usize>, EntryType)>,
    refs: Seq<DirectoryRef>,
    q: (Seq<usize>, usize),
)
    requires
        countable(root),
        jobs_valid(root, jobs),
        jobs.no_duplicates(),
        plan_files(root, order_of(root), 0) is Ok,
        valid_path(root, q.0),
        q.1 < dir_at(root, q.0).files.len(),
        dir_at(root, q.0).files[q.1 as int].additional_extents.len() == 0,
        contents_of(dir_at(root, q.0).files[q.1 as int].kind).len() > 0 ==> order_of(
            root,
        ).contains(q),
    ensures
        ({
            let blank = with_refs(plan_files(root, order_of(root), 0)->Ok_0.0, jobs, refs);
            let file = dir_at(blank, q.0).files[q.1 as int];
            let len = contents_of(file.kind).len() as int;
            &&& file.kind == dir_at(root, q.0).files[q.1 as int].kind
            &&& len > 0 ==> file.additional_extents.len() + 1 == extent_list(len, 0, 2048).len()
            &&& len == 0 ==> file.additional_extents.len() == 0
        }),
{
    let order = order_of(root);
    work_is_distinct(root, Seq::empty());
    let sized = plan_files(root, order, 0)->Ok_0.0;
    plan_files_same(root, order, 0);
    work_stays_valid(root, sized, jobs, order, false);
    same_tree_at(root, sized, q.0, false);
    refs_are_found(sized, jobs, refs);
    let file = file_at(root, q);
    let len = contents_of(file.kind).len() as int;
    if order.contains(q) {
        let k = choose|k: int| 0 <= k < order.len() && order[k] == q;
        file_is_found(root, order, 0, k);
        extents_cover_the_file(len, 0, 2048);
    } else {
        other_files_stay(root, order, 0, q);
    }
}

/// Where there are bytes behind a first extent, the file is one of those laid out, and it
/// has as many bytes.
pub proof fn placed_files_are_in_order(
    root: DirView,
    types: Seq<EntryType>,
    rrip: Option<RripOptions>,
    time: Seq<u8>,
    start: int,
    q: (Seq<usize>, usize),
)
    requires
        types.no_duplicates(),
        countable(root),
        start >= 0,
        layout(root, types, rrip, time, start) is Ok,
        valid_path(root, q.0),
        q.1 < dir_at(root, q.0).files.len(),
        dir_at(root, q.0).files[q.1 as int].entry.size == 0,
    ensures
        ({
            let full = layout(root, types, rrip, time, start)->Ok_0.root;
            let file = dir_at(full, q.0).files[q.1 as int];
            file.entry.size > 0 ==> {
                &&& order_of(root).contains(q)
                &&& file.entry.size <= contents_of(file.kind).len()
            }
        }),
{
    let jobs = jobs_of(root, types);
    let order = order_of(root);
    let none = no_refs(jobs.len());
    work_is_distinct(root, types);
    let sized = plan_files(root, order, 0)->Ok_0.0;
    plan_files_same(root, order, 0);
    work_stays_valid(root, sized, jobs, order, false);
    same_tree_at(root, sized, q.0, false);
    let blank = with_refs(sized, jobs, none);
    refs_are_found(sized, jobs, none);
    with_refs_same(sized, jobs, none, false);
    work_stays_valid(sized, blank, jobs, order, false);
    same_tree_at(sized, blank, q.0, false);
    let m0 = ref_map(blank, jobs, none);
    let p = plan_dirs(blank, jobs, rrip, time, m0, start, 1)->Ok_0;
    plan_cursor_grows(blank, jobs, rrip, time, m0, start, 1);
    let placed = with_refs(blank, jobs, p.refs);
    refs_are_found(blank, jobs, p.refs);
    with_refs_same(blank, jobs, p.refs, false);
    work_stays_valid(blank, placed, jobs, order, false);
    same_tree_at(blank, placed, q.0, false);
    if order.contains(q) {
        let k = choose|k: int| 0 <= k < order.len() && order[k] == q;
        file_is_found(placed, order, p.cursor, k);
    } else {
        other_files_stay(root, order, 0, q);
        other_files_stay(placed, order, p.cursor, q);
    }
}

/// The extents of a file of a layout follow one another.
pub proof fn placed_extents(
    root: DirView,
    types: Seq<EntryType>,
    rrip: Option<RripOptions>,
    time: Seq<u8>,
    start: int,
    k: int,
) -> (cursor: int)
    requires
        types.no_duplicates(),
        countable(root),
        start >= 0,
        layout(root, types, rrip, time, start) is Ok,
        0 <= k < order_of(root).len(),
        ({
            let q = order_of(root)[k];
            contents_of(dir_at(root, q.0).files[q.1 as int].kind).len() > 0
        }),
    ensures
        ({
            let full = layout(root, types, rrip, time, start)->Ok_0.root;
            let q = order_of(root)[k];
            let file = dir_at(full, q.0).files[q.1 as int];
            let len = contents_of(file.kind).len() as int;
            &&& file.kind == dir_at(root, q.0).files[q.1 as int].kind
            &&& cursor >= 0
            &&& extent_end(len, cursor, 2048) <= usize::MAX
            &&& all_extents(file) == extent_list(len, cursor, 2048)
            &&& file.entry.extent.0 * 2048 == align_up(cursor, 2048)
        }),
{
    let jobs = jobs_of(root, types);
    let order = order_of(root);
    let none = no_refs(jobs.len());
    work_is_distinct(root, types);
    let sized = plan_files(root, order, 0)->Ok_0.0;
    plan_files_same(root, order, 0);
    work_stays_valid(root, sized, jobs, order, false);
    let q = order[k];
    same_tree_at(root, sized, q.0, false);
    let blank = with_refs(sized, jobs, none);
    with_refs_same(sized, jobs, none, false);
    work_stays_valid(sized, blank, jobs, order, false);
    same_tree_at(sized, blank, q.0, false);
    let m0 = ref_map(blank, jobs, none);
    let p = plan_dirs(blank, jobs, rrip, time, m0, start, 1)->Ok_0;
    plan_cursor_grows(blank, jobs, rrip, time, m0, start, 1);
    let placed = with_refs(blank, jobs, p.refs);
    with_refs_same(blank, jobs, p.refs, false);
    work_stays_valid(blank, placed, jobs, order, false);
    same_tree_at(blank, placed, q.0, false);
    file_is_found(placed, order, p.cursor, k);
    let cursor = cursor_at(placed, order, p.cursor, k);
    files_prefix_ok(placed, order, p.cursor, k);
    files_prefix_ok(placed, order, p.cursor, k + 1);
    prefix_order_valid(placed, order, k);
    plan_files_same(placed, order.take(k), p.cursor);
    let part = order.take(k + 1);
    assert(part.drop_last() =~= order.take(k));
    assert(part.last() == q);
    let mid = plan_files(placed, order.take(k), p.cursor)->Ok_0.0;
    same_tree_at(placed, mid, q.0, false);
    let len = contents_of(dir_at(root, q.0).files[q.1 as int].kind).len() as int;
    assert(extent_end(len, cursor, 2048) + 2048 <= usize::MAX);
    extent_end_grows(len, cursor, 2048);
    align_up_bounds(cursor, 2048);
    cursor
}

/// Files lie behind what is laid out before them.
pub proof fn files_lie_behind(
    root: DirView,
    order: Seq<(Seq<usize>, usize)>,
    cursor: int,
    k: int,
)
    requires
        order_valid(root, order),
        order.no_duplicates(),
        cursor >= 0,
        plan_files(root, order, cursor) is Ok,
        plan_files(root, order, cursor)->Ok_0.1 + 2048 <= usize::MAX,
        0 <= k < order.len(),
        contents_of(dir_at(root, order[k].0).files[order[k].1 as int].kind).len() > 0,
    ensures
        cursor <= dir_at(plan_files(root, order, cursor)->Ok_0.0, order[k].0).files[order[k].1 as
            int].entry.extent.0 * 2048,
{
    file_is_found(root, order, cursor, k);
    files_prefix_ok(root, order, cursor, k);
    prefix_order_valid(root, order, k);
    plan_files_same(root, order.take(k), cursor);
    let at = cursor_at(root, order, cursor, k);
    align_up_bounds(at, 2048);
}

proof fn jobs_are_there(root: DirView, types: Seq<EntryType>)
    requires
        types.len() > 0,
    ensures
        jobs_of(root, types).len() > 0,
{
    let paths = preorder(root, Seq::empty());
    assert(paths.len() > 0);
}

proof fn entries_are_countable(dir: DirView, entries: Seq<EntryView>, id: int)
    requires
        countable(dir),
        dir.dirs.len() + list_events(entries).len() <= usize::MAX,
        dir.files.len() + list_events(entries).len() <= usize::MAX,
    ensures
        countable(with_entries(dir, entries, id)),
        with_entries(dir, entries, id).dirs.len() <= dir.dirs.len() + list_events(entries).len(),
        with_entries(dir, entries, id).files.len() <= dir.files.len() + list_events(entries).len(),
    decreases entries,
{
    if entries.len() > 0 {
        let init = entries.drop_last();
        let last = entries.last();
        assert(list_events(entries) == list_events(init) + entry_events(last));
        entries_are_countable(dir, init, id);
        let before = with_entries(dir, init, id);
        let all = with_entries(dir, entries, id);
        match last.kind {
            KindView::Directory(children) => {
                let next = id + directory_count(init);
                let fresh = fresh_dir(last, next);
                assert(entry_events(last).len() == 2 + list_events(children).len());
                assert(countable(fresh));
                entries_are_countable(fresh, children, next + 1);
                assert forall|i: int| 0 <= i < all.dirs.len() implies countable(
                    #[trigger] all.dirs[i],
                ) by {
                    if i < before.dirs.len() {
                        assert(countable(before.dirs[i]));
                    }
                }
            },
            _ => {
                assert(entry_events(last).len() == 1);
                assert forall|i: int| 0 <= i < all.dirs.len() implies countable(
                    #[trigger] all.dirs[i],
                ) by {
                    assert(countable(before.dirs[i]));
                }
            },
        }
    }
}

spec fn all_countable(dirs: Seq<DirView>) -> bool {
    forall|i: int| 0 <= i < dirs.len() ==> countable(#[trigger] dirs[i])
}

proof fn relocation_keeps_countable(
    dirs: Seq<DirView>,
    parent: usize,
    depth: nat,
    path_len: nat,
    moved: Seq<DirView>,
    next: nat,
)
    requires
        all_countable(dirs),
        all_countable(moved),
    ensures
        ({
            let r = relocate_list(dirs, parent, depth, path_len, moved, next);
            &&& r.retained.len() == dirs.len()
            &&& all_countable(r.retained)
            &&& all_countable(r.moved)
            &&& r.moved.len() <= moved.len() + tree_size(dirs)
        }),
        dirs.len() <= tree_size(dirs),
    decreases dirs,
{
    if dirs.len() > 0 {
        let init = dirs.drop_last();
        let child = dirs.last();
        assert forall|i: int| 0 <= i < init.len() implies countable(#[trigger] init[i]) by {
            assert(countable(dirs[i]));
        }
        relocation_keeps_countable(init, parent, depth, path_len, moved, next);
        let r = relocate_list(init, parent, depth, path_len, moved, next);
        assert(countable(dirs[dirs.len() - 1]));
        assert(all_countable(child.dirs));
        let len = child_path_len(path_len, child.name);
        if depth + 1 > 8 || len > 255 {
            let name = relocated_name(r.next);
            relocation_keeps_countable(
                child.dirs,
                child.id,
                3,
                9 + name_len(name),
                r.moved,
                r.next + 1,
            );
        } else {
            relocation_keeps_countable(child.dirs, child.id, depth + 1, len, r.moved, r.next);
        }
    }
}

/// The children and files of every directory of an image can be counted.
pub proof fn built_tree_is_countable(tree: Seq<EntryView>, rrip: Option<RripOptions>)
    requires
        list_events(tree).len() < usize::MAX,
    ensures
        countable(built_tree(tree, rrip)),
{
    let empty = new_dir(Seq::empty());
    assert(countable(empty));
    entries_are_countable(empty, tree, 1);
    let root = with_entries(empty, tree, 1);
    if relocates(rrip) {
        crate::iso::image::tree_size_counts(empty, tree, 1);
        assert(tree_size(empty.dirs) == 0);
        relocation_keeps_countable(root.dirs, root.id, 1, 0, Seq::empty(), 1);
        let r = relocate_list(root.dirs, root.id, 1, 0, Seq::empty(), 1);
        let all = relocated_root(root);
        if r.moved.len() > 0 {
            let k = choose|k: nat| first_free(r.retained, k);
            let holder = DirView { id: usize::MAX, dirs: r.moved, ..new_dir(holder_name(k)) };
            assert(countable(holder)) by {
                assert forall|i: int| 0 <= i < r.moved.len() implies countable(
                    #[trigger] holder.dirs[i],
                ) by {
                    assert(countable(r.moved[i]));
                }
            }
            assert forall|i: int| 0 <= i < all.dirs.len() implies countable(
                #[trigger] all.dirs[i],
            ) by {
                if i > 0 {
                    assert(all.dirs[i] == r.retained[i - 1]);
                } else {
                    assert(all.dirs[0] == holder);
                }
            }
        } else {
            assert forall|i: int| 0 <= i < all.dirs.len() implies countable(
                #[trigger] all.dirs[i],
            ) by {
                assert(countable(r.retained[i]));
            }
        }
    }
}

/// The namespaces of an image differ.
pub proof fn namespaces_differ(features: CreationFeatures)
    ensures
        entry_types_of(features).no_duplicates(),
        entry_types_of(features).len() > 0,
{
}

proof fn tables_only_run_out_of_numbers(
    level: Seq<(DirView, int)>,
    next: int,
    ty: EntryType,
    endian: EndianType,
)
    ensures
        records_below(level, next, ty, endian) is Err ==> records_below(
            level,
            next,
            ty,
            endian,
        )->Err_0 == IsoCreationError::TooManyDirectories,
    decreases crate::iso::path_table::level_height(level),
{
    if level.len() > 0 {
        crate::iso::path_table::next_level_is_lower(level, ty, next);
        let below = crate::iso::path_table::level_below(level, ty, next);
        tables_only_run_out_of_numbers(below, next + below.len(), ty, endian);
    }
}

proof fn path_tables_only_run_out_of_numbers(root: DirView, types: Seq<EntryType>, data: Seq<u8>)
    ensures
        with_path_tables(root, types, data) is Err ==> with_path_tables(root, types, data)->Err_0
            == IsoCreationError::TooManyDirectories,
    decreases types.len(),
{
    if types.len() > 0 {
        path_tables_only_run_out_of_numbers(root, types.drop_last(), data);
        let level = seq![(root, 1int)];
        tables_only_run_out_of_numbers(level, 2, types.last(), EndianType::LittleEndian);
        tables_only_run_out_of_numbers(level, 2, types.last(), EndianType::BigEndian);
    }
}

/// An image that can be laid out can be written, unless there are more entries than serial
/// numbers or more directories than a path table can number.
pub proof fn laid_out_images_are_written(
    tree: Seq<EntryView>,
    ops: IsoFormatOptions,
    time: Seq<u8>,
    start: int,
)
    requires
        time.len() == 7,
        list_events(tree).len() < usize::MAX,
        0 <= start,
        start + 2048 <= u64::MAX,
        layout(
            built_tree(tree, ops.features.rock_ridge),
            entry_types_of(ops.features),
            ops.features.rock_ridge,
            time,
            start,
        ) is Ok,
    ensures
        match image_body(
            built_tree(tree, ops.features.rock_ridge),
            ops,
            entry_types_of(ops.features),
            time,
            start,
        ) {
            Ok(_) => true,
            Err(e) => e == IsoCreationError::TooManyDirectories || (e
                == IsoCreationError::TooManyEntries && 2 * layout(
                built_tree(tree, ops.features.rock_ridge),
                entry_types_of(ops.features),
                ops.features.rock_ridge,
                time,
                start,
            )->Ok_0.inode - 1 > u32::MAX),
        },
{
    let rrip = ops.features.rock_ridge;
    let root = built_tree(tree, rrip);
    let types = entry_types_of(ops.features);
    built_tree_is_countable(tree, rrip);
    namespaces_differ(ops.features);
    layout_is_met(root, types, rrip, time, zeros(start));
    let laid = layout(root, types, rrip, time, start)->Ok_0;
    match write_dirs(
        laid.root,
        jobs_of(root, types),
        rrip,
        time,
        laid.refs,
        zeros(start),
        laid.inode,
    ) {
        Err(e) => {},
        Ok(s) => {
            let data = write_files(laid.root, order_of(root), s.data)->Ok_0;
            path_tables_only_run_out_of_numbers(laid.root, types, data);
        },
    }
}

} // verus!
