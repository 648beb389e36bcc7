//! What the directories and files of a tree come to.

#[allow(unused_imports)]
use crate::iso::extent::{align_up, align_up_bounds, extent_end, extents_end_behind_the_data};
#[allow(unused_imports)]
use crate::iso::name::base_identifier;
#[allow(unused_imports)]
use crate::iso::order::{before, stable_order, stable_order_exists};
#[allow(unused_imports)]
use crate::iso::path_table::{
    identifiers, kept, level_below, level_height, level_records, next_level_is_lower, ordered,
    path_table, records_below, sibling_records, EndianType,
};
#[allow(unused_imports)]
use crate::iso::plan::{
    contents_of, order_valid, plan_files, plan_files_same, same_file, same_tree, same_tree_at,
    same_tree_transitive,
};
#[allow(unused_imports)]
use crate::iso::plan_laws::{countable, countable_at, order_prefix_valid, preorder_is_distinct};
#[allow(unused_imports)]
use crate::iso::relocate::{data_files, data_files_in, has_data, preorder, preorder_children};
#[allow(unused_imports)]
use crate::iso::types::EntryType;
#[allow(unused_imports)]
use crate::iso::written::{dir_at, path_goes_down, valid_path, DirView, FileView};

#[allow(unused_imports)]
use crate::iso::sums::{stable_is_order, sum, sum_in_any_order, sum_joins, taken};
use vstd::prelude::*;

verus! {

/// Bytes of a directory's record in a path table.
pub open spec fn table_record_len(dir: DirView, ty: EntryType) -> int {
    let n = base_identifier(ty, dir.name).len() as int;
    8 + n + n % 2
}

/// Bytes of the records of all directories below one, without placeholders.
pub open spec fn records_len(dir: DirView, ty: EntryType) -> int
    decreases dir, 0nat,
{
    list_records_len(dir.dirs, ty)
}

/// Bytes of the records of directories and of all below them, without placeholders.
pub open spec fn list_records_len(dirs: Seq<DirView>, ty: EntryType) -> int
    decreases dirs, 1nat,
{
    if dirs.len() == 0 {
        0
    } else {
        list_records_len(dirs.drop_last(), ty) + (if dirs.last().relocation is Placeholder {
            0
        } else {
            table_record_len(dirs.last(), ty) + records_len(dirs.last(), ty)
        })
    }
}

spec fn lens(dirs: Seq<DirView>, ty: EntryType) -> Seq<int> {
    Seq::new(dirs.len(), |i: int| table_record_len(dirs[i], ty) + records_len(dirs[i], ty))
}

proof fn kept_sum(dirs: Seq<DirView>, ty: EntryType)
    ensures
        sum(lens(kept(dirs), ty)) == list_records_len(dirs, ty),
    decreases dirs.len(),
{
    if dirs.len() == 0 {
        assert(lens(kept(dirs), ty) =~= Seq::empty());
    } else {
        kept_sum(dirs.drop_last(), ty);
        if !(dirs.last().relocation is Placeholder) {
            assert(lens(kept(dirs), ty).drop_last() =~= lens(kept(dirs.drop_last()), ty));
        }
    }
}

/// Sorting children keeps the bytes of their records and of all below them.
proof fn ordered_sum(dirs: Seq<DirView>, ty: EntryType)
    ensures
        sum(lens(ordered(dirs, ty), ty)) == list_records_len(dirs, ty),
{
    let keys = identifiers(kept(dirs), ty);
    stable_order_exists(keys);
    let perm = choose|perm: Seq<int>| stable_order(keys, perm);
    assert(stable_order(keys, perm));
    stable_is_order(keys, perm);
    kept_sum(dirs, ty);
    sum_in_any_order(lens(kept(dirs), ty), perm);
    assert(lens(ordered(dirs, ty), ty) =~= taken(lens(kept(dirs), ty), perm)) by {
        assert forall|i: int| 0 <= i < perm.len() implies lens(ordered(dirs, ty), ty)[i] == taken(
            lens(kept(dirs), ty),
            perm,
        )[i] by {
            assert(0 <= perm[i] < keys.len());
        }
    }
}

spec fn own_lens(dirs: Seq<DirView>, ty: EntryType) -> Seq<int> {
    Seq::new(dirs.len(), |i: int| table_record_len(dirs[i], ty))
}

spec fn rest_lens(dirs: Seq<DirView>, ty: EntryType) -> Seq<int> {
    Seq::new(dirs.len(), |i: int| records_len(dirs[i], ty))
}

proof fn lens_split(dirs: Seq<DirView>, ty: EntryType)
    ensures
        sum(lens(dirs, ty)) == sum(own_lens(dirs, ty)) + sum(rest_lens(dirs, ty)),
    decreases dirs.len(),
{
    if dirs.len() > 0 {
        let init = dirs.drop_last();
        lens_split(init, ty);
        assert(lens(dirs, ty).drop_last() =~= lens(init, ty));
        assert(own_lens(dirs, ty).drop_last() =~= own_lens(init, ty));
        assert(rest_lens(dirs, ty).drop_last() =~= rest_lens(init, ty));
    }
}

proof fn siblings_len(dirs: Seq<DirView>, parent: int, ty: EntryType, endian: EndianType)
    ensures
        sibling_records(dirs, parent, ty, endian).len() == sum(own_lens(dirs, ty)),
    decreases dirs.len(),
{
    if dirs.len() > 0 {
        let init = dirs.drop_last();
        siblings_len(init, parent, ty, endian);
        assert(own_lens(dirs, ty).drop_last() =~= own_lens(init, ty));
    }
}

spec fn level_lens(level: Seq<(DirView, int)>, ty: EntryType) -> Seq<int> {
    Seq::new(level.len(), |i: int| records_len(level[i].0, ty))
}

/// The records of the children of a level and of all below them take what the level's
/// directories have below them.
proof fn level_split(level: Seq<(DirView, int)>, ty: EntryType, next: int, endian: EndianType)
    ensures
        level_records(level, ty, endian).len() + sum(level_lens(level_below(level, ty, next), ty))
            == sum(level_lens(level, ty)),
    decreases level.len(),
{
    if level.len() > 0 {
        let init = level.drop_last();
        let last = level.last();
        level_split(init, ty, next, endian);
        let own = ordered(last.0.dirs, ty);
        siblings_len(own, last.1, ty, endian);
        ordered_sum(last.0.dirs, ty);
        lens_split(own, ty);
        let before = level_below(init, ty, next);
        let added = Seq::new(own.len(), |i: int| (own[i], next + before.len() + i));
        assert(level_below(level, ty, next) == before + added);
        assert(level_lens(before + added, ty) =~= level_lens(before, ty) + level_lens(added, ty));
        sum_joins(level_lens(before, ty), level_lens(added, ty));
        assert(level_lens(added, ty) =~= rest_lens(own, ty));
        assert(level_lens(level, ty).drop_last() =~= level_lens(init, ty));
    } else {
        assert(level_lens(level_below(level, ty, next), ty) =~= Seq::empty());
        assert(level_lens(level, ty) =~= Seq::empty());
    }
}

proof fn below_len(level: Seq<(DirView, int)>, next: int, ty: EntryType, endian: EndianType)
    requires
        records_below(level, next, ty, endian) is Ok,
    ensures
        records_below(level, next, ty, endian)->Ok_0.len() == sum(level_lens(level, ty)),
    decreases level_height(level),
{
    if level.len() == 0 {
        assert(level_lens(level, ty) =~= Seq::empty());
    } else {
        next_level_is_lower(level, ty, next);
        let below = level_below(level, ty, next);
        below_len(below, next + below.len(), ty, endian);
        level_split(level, ty, next, endian);
    }
}

/// A path table has ten bytes for the root, and for each other directory eight and its
/// identifier, filled up to an even length.
pub proof fn path_table_has_every_directory(root: DirView, ty: EntryType, endian: EndianType)
    requires
        path_table(root, ty, endian) is Ok,
    ensures
        path_table(root, ty, endian)->Ok_0.len() == 10 + records_len(root, ty),
{
    let level = seq![(root, 1int)];
    below_len(level, 2, ty, endian);
    assert(level_lens(level, ty).drop_last() =~= Seq::empty());
    assert(sum(level_lens(level, ty)) == sum(Seq::<int>::empty()) + records_len(root, ty));
}

/// What a directory and those below it that are not placeholders come to.
pub open spec fn tree_sum(dir: DirView, f: spec_fn(DirView) -> int) -> int
    decreases dir, 0nat,
{
    f(dir) + list_sum(dir.dirs, f)
}

/// What directories and those below them that are not placeholders come to.
pub open spec fn list_sum(dirs: Seq<DirView>, f: spec_fn(DirView) -> int) -> int
    decreases dirs, 1nat,
{
    if dirs.len() == 0 {
        0
    } else {
        list_sum(dirs.drop_last(), f) + (if dirs.last().relocation is Placeholder {
            0
        } else {
            tree_sum(dirs.last(), f)
        })
    }
}

/// What directories come to that the ways lead to.
pub open spec fn paths_sum(root: DirView, paths: Seq<Seq<usize>>, f: spec_fn(DirView) -> int) -> int {
    sum(Seq::new(paths.len(), |i: int| f(dir_at(root, paths[i]))))
}

proof fn paths_join(
    root: DirView,
    a: Seq<Seq<usize>>,
    b: Seq<Seq<usize>>,
    f: spec_fn(DirView) -> int,
)
    ensures
        paths_sum(root, a + b, f) == paths_sum(root, a, f) + paths_sum(root, b, f),
{
    let x = Seq::new(a.len(), |i: int| f(dir_at(root, a[i])));
    let y = Seq::new(b.len(), |i: int| f(dir_at(root, b[i])));
    assert(Seq::new((a + b).len(), |i: int| f(dir_at(root, (a + b)[i]))) =~= x + y);
    sum_joins(x, y);
}

proof fn one_path(root: DirView, path: Seq<usize>, f: spec_fn(DirView) -> int)
    ensures
        paths_sum(root, seq![path], f) == f(dir_at(root, path)),
{
    let one = seq![path];
    let x = Seq::new(one.len(), |i: int| f(dir_at(root, one[i])));
    assert(x =~= seq![f(dir_at(root, path))]);
    assert(x.drop_last() =~= Seq::empty());
    assert(sum(x.drop_last()) == 0);
}

/// The directories in the order of the layout are all directories but placeholders.
pub proof fn preorder_sum(root: DirView, dir: DirView, path: Seq<usize>, f: spec_fn(DirView) -> int)
    requires
        valid_path(root, path),
        dir == dir_at(root, path),
        countable(dir),
    ensures
        paths_sum(root, preorder(dir, path), f) == tree_sum(dir, f),
    decreases dir, 0nat,
{
    assert(dir.dirs.take(dir.dirs.len() as int) =~= dir.dirs);
    children_sum(root, dir, dir.dirs, path, f);
    paths_join(root, seq![path], preorder_children(dir.dirs, path), f);
    one_path(root, path, f);
}

proof fn children_sum(
    root: DirView,
    dir: DirView,
    dirs: Seq<DirView>,
    path: Seq<usize>,
    f: spec_fn(DirView) -> int,
)
    requires
        valid_path(root, path),
        dir == dir_at(root, path),
        countable(dir),
        dirs.len() <= dir.dirs.len(),
        dirs == dir.dirs.take(dirs.len() as int),
    ensures
        paths_sum(root, preorder_children(dirs, path), f) == list_sum(dirs, f),
    decreases dirs, 1nat,
{
    if dirs.len() == 0 {
        assert(Seq::new(
            preorder_children(dirs, path).len(),
            |i: int| f(dir_at(root, preorder_children(dirs, path)[i])),
        ) =~= Seq::empty());
    } else {
        let init = dirs.drop_last();
        let n = init.len() as int;
        assert(init =~= dir.dirs.take(n));
        children_sum(root, dir, init, path, f);
        let last = dirs.last();
        assert(last == dir.dirs[n]);
        if last.relocation is Placeholder {
            assert(preorder_children(dirs, path) =~= preorder_children(init, path));
        } else {
            let step = path.push(n as usize);
            path_goes_down(root, path, n as usize);
            assert(countable(dir.dirs[n]));
            preorder_sum(root, last, step, f);
            paths_join(root, preorder_children(init, path), preorder(last, step), f);
        }
    }
}

/// Bytes of a file's data in whole sectors.
pub open spec fn file_space(file: FileView) -> int {
    align_up(contents_of(file.kind).len() as int, 2048)
}

/// What files take in whole sectors.
pub open spec fn space_of(files: Seq<FileView>) -> int {
    sum(Seq::new(files.len(), |i: int| file_space(files[i])))
}

/// What the files at the given places take in whole sectors.
pub open spec fn order_space(root: DirView, order: Seq<(Seq<usize>, usize)>) -> int {
    sum(
        Seq::new(
            order.len(),
            |i: int| file_space(dir_at(root, order[i].0).files[order[i].1 as int]),
        ),
    )
}

proof fn order_join(root: DirView, a: Seq<(Seq<usize>, usize)>, b: Seq<(Seq<usize>, usize)>)
    ensures
        order_space(root, a + b) == order_space(root, a) + order_space(root, b),
{
    let f = |q: (Seq<usize>, usize)| file_space(dir_at(root, q.0).files[q.1 as int]);
    let x = Seq::new(
        a.len(),
        |i: int| file_space(dir_at(root, a[i].0).files[a[i].1 as int]),
    );
    let y = Seq::new(
        b.len(),
        |i: int| file_space(dir_at(root, b[i].0).files[b[i].1 as int]),
    );
    let z = Seq::new(
        (a + b).len(),
        |i: int| file_space(dir_at(root, (a + b)[i].0).files[(a + b)[i].1 as int]),
    );
    assert(z =~= x + y);
    sum_joins(x, y);
}

/// Files without data take no space.
proof fn data_files_space(root: DirView, path: Seq<usize>, n: int)
    requires
        0 <= n <= dir_at(root, path).files.len(),
        dir_at(root, path).files.len() <= usize::MAX,
    ensures
        order_space(root, data_files(dir_at(root, path).files, path, n)) == space_of(
            dir_at(root, path).files.take(n),
        ),
    decreases n,
{
    let files = dir_at(root, path).files;
    let part = files.take(n);
    let spaces = Seq::new(part.len(), |i: int| file_space(part[i]));
    if n == 0 {
        assert(spaces =~= Seq::empty());
        let none = data_files(files, path, 0);
        assert(Seq::new(
            none.len(),
            |i: int| file_space(dir_at(root, none[i].0).files[none[i].1 as int]),
        ) =~= Seq::empty());
    } else {
        data_files_space(root, path, n - 1);
        let before = data_files(files, path, n - 1);
        let shorter = files.take(n - 1);
        assert(spaces.drop_last() =~= Seq::new(shorter.len(), |i: int| file_space(shorter[i])));
        assert(spaces.last() == file_space(files[n - 1]));
        if has_data(files[n - 1]) {
            let one = seq![(path, (n - 1) as usize)];
            assert(data_files(files, path, n) =~= before + one);
            order_join(root, before, one);
            let x = Seq::new(
                one.len(),
                |i: int| file_space(dir_at(root, one[i].0).files[one[i].1 as int]),
            );
            assert(x =~= seq![file_space(files[n - 1])]);
            assert(x.drop_last() =~= Seq::empty());
            assert(sum(x.drop_last()) == 0);
        } else {
            assert(contents_of(files[n - 1].kind).len() == 0);
            align_up_bounds(0, 2048);
        }
    }
}

/// All files with data take the space of all files.
pub proof fn order_is_all_files(root: DirView, paths: Seq<Seq<usize>>)
    requires
        forall|i: int|
            0 <= i < paths.len() ==> dir_at(root, #[trigger] paths[i]).files.len() <= usize::MAX,
    ensures
        order_space(root, data_files_in(root, paths)) == paths_sum(
            root,
            paths,
            |d: DirView| space_of(d.files),
        ),
    decreases paths.len(),
{
    let f = |d: DirView| space_of(d.files);
    if paths.len() == 0 {
        let none = data_files_in(root, paths);
        assert(Seq::new(
            none.len(),
            |i: int| file_space(dir_at(root, none[i].0).files[none[i].1 as int]),
        ) =~= Seq::empty());
        assert(Seq::new(paths.len(), |i: int| f(dir_at(root, paths[i]))) =~= Seq::empty());
    } else {
        let init = paths.drop_last();
        let last = paths[paths.len() - 1];
        assert forall|i: int| 0 <= i < init.len() implies dir_at(
            root,
            #[trigger] init[i],
        ).files.len() <= usize::MAX by {
            assert(dir_at(root, paths[i]).files.len() <= usize::MAX);
        }
        order_is_all_files(root, init);
        let dir = dir_at(root, last);
        assert(dir.files.len() <= usize::MAX);
        let n = dir.files.len() as int;
        data_files_space(root, last, n);
        assert(dir.files.take(n) =~= dir.files);
        order_join(root, data_files_in(root, init), data_files(dir.files, last, n));
        assert(paths =~= init + seq![last]);
        paths_join(root, init, seq![last], f);
        one_path(root, last, f);
    }
}

/// Files that are laid out take at most their data in whole sectors.
pub proof fn files_take_their_space(
    root: DirView,
    tree: DirView,
    order: Seq<(Seq<usize>, usize)>,
    cursor: int,
)
    requires
        same_tree(root, tree, false),
        order_valid(root, order),
        cursor >= 0,
        plan_files(tree, order, cursor) is Ok,
    ensures
        plan_files(tree, order, cursor)->Ok_0.1 <= align_up(cursor, 2048) + order_space(
            root,
            order,
        ),
        align_up(plan_files(tree, order, cursor)->Ok_0.1, 2048) <= align_up(cursor, 2048)
            + order_space(root, order),
    decreases order.len(),
{
    align_up_bounds(cursor, 2048);
    let spaces = Seq::new(
        order.len(),
        |i: int| file_space(dir_at(root, order[i].0).files[order[i].1 as int]),
    );
    if order.len() == 0 {
        assert(spaces =~= Seq::empty());
    } else {
        let init = order.drop_last();
        let here = order[order.len() - 1];
        order_prefix_valid(root, order);
        files_take_their_space(root, tree, init, cursor);
        assert(spaces.drop_last() =~= Seq::new(
            init.len(),
            |i: int| file_space(dir_at(root, init[i].0).files[init[i].1 as int]),
        ));
        let (mid, at) = plan_files(tree, init, cursor)->Ok_0;
        order_moves(root, tree, init);
        plan_files_same(tree, init, cursor);
        same_tree_transitive(root, tree, mid, false);
        same_tree_at(root, mid, here.0, false);
        let len = contents_of(dir_at(root, here.0).files[here.1 as int].kind).len() as int;
        assert(same_file(
            dir_at(root, here.0).files[here.1 as int],
            dir_at(mid, here.0).files[here.1 as int],
            false,
        ));
        align_up_bounds(at, 2048);
        align_up_bounds(len, 2048);
        let end = extent_end(len, at, 2048);
        if len > 0 {
            extents_end_behind_the_data(len, at);
            let start = align_up(at, 2048);
            align_up_bounds(start + len, 2048);
            assert(align_up(start + len, 2048) == start + align_up(len, 2048)) by {
                assert((start + len + 2047) / 2048 == start / 2048 + (len + 2047) / 2048);
            }
        } else {
            assert(end == at);
        }
    }
}

proof fn order_moves(root: DirView, tree: DirView, order: Seq<(Seq<usize>, usize)>)
    requires
        same_tree(root, tree, false),
        order_valid(root, order),
    ensures
        order_valid(tree, order),
{
    assert forall|i: int| 0 <= i < order.len() implies valid_path(tree, (#[trigger] order[i]).0)
        && order[i].1 < dir_at(tree, order[i].0).files.len() by {
        assert(valid_path(root, order[i].0));
        same_tree_at(root, tree, order[i].0, false);
    }
}

/// A file more takes its space.
pub proof fn added_file(files: Seq<FileView>, file: FileView)
    ensures
        space_of(files.push(file)) == space_of(files) + file_space(file),
{
    let more = files.push(file);
    let x = Seq::new(more.len(), |i: int| file_space(more[i]));
    assert(x.drop_last() =~= Seq::new(files.len(), |i: int| file_space(files[i])));
}

/// The files of every directory can be counted.
pub proof fn paths_have_few_files(root: DirView)
    requires
        countable(root),
    ensures
        forall|i: int|
            0 <= i < preorder(root, Seq::empty()).len() ==> dir_at(
                root,
                #[trigger] preorder(root, Seq::empty())[i],
            ).files.len() <= usize::MAX,
{
    let paths = preorder(root, Seq::empty());
    preorder_is_distinct(root, Seq::empty());
    assert forall|i: int| 0 <= i < paths.len() implies dir_at(
        root,
        #[trigger] paths[i],
    ).files.len() <= usize::MAX by {
        assert(paths[i].skip(0) =~= paths[i]);
        countable_at(root, paths[i]);
    }
}

/// Path tables do not depend on extents.
pub proof fn same_records_len(a: DirView, b: DirView, ty: EntryType)
    requires
        same_tree(a, b, false),
    ensures
        records_len(a, ty) == records_len(b, ty),
    decreases a, 0nat,
{
    assert forall|i: int| 0 <= i < a.dirs.len() implies same_tree(
        #[trigger] a.dirs[i],
        b.dirs[i],
        false,
    ) by {}
    same_list_len(a.dirs, b.dirs, ty);
}

proof fn same_list_len(a: Seq<DirView>, b: Seq<DirView>, ty: EntryType)
    requires
        a.len() == b.len(),
        forall|i: int| 0 <= i < a.len() ==> same_tree(#[trigger] a[i], b[i], false),
    ensures
        list_records_len(a, ty) == list_records_len(b, ty),
    decreases a, 1nat,
{
    if a.len() > 0 {
        let n = a.len() - 1;
        assert forall|i: int| 0 <= i < n implies same_tree(
            #[trigger] a.drop_last()[i],
            b.drop_last()[i],
            false,
        ) by {
            assert(same_tree(a[i], b[i], false));
        }
        same_list_len(a.drop_last(), b.drop_last(), ty);
        assert(same_tree(a[n], b[n], false));
        same_records_len(a[n], b[n], ty);
    }
}

} // verus!
