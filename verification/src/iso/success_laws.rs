//! When the layout of an image succeeds.

#[allow(unused_imports)]
use crate::iso::error::IsoCreationError;
#[allow(unused_imports)]
use crate::iso::image::{built_tree, image_body, jobs_of, layout, no_refs, order_of};
#[allow(unused_imports)]
use crate::iso::options::{entry_types_of, IsoFormatOptions};
#[allow(unused_imports)]
use crate::iso::plan::{
    inode_step, pairs, plan_dirs, plan_files, plan_files_same, plan_step, ref_map, same_file,
    same_tree, same_tree_at, with_refs, with_refs_same,
};
#[allow(unused_imports)]
use crate::iso::plan_laws::{
    built_tree_is_countable, countable, laid_out_images_are_written, namespaces_differ,
    preorder_is_distinct, refs_are_found, work_is_distinct, work_stays_valid,
};
#[allow(unused_imports)]
use crate::iso::records::{
    child_record, child_records, context, dir_fits, no_directories, raw_records, Context,
};
#[allow(unused_imports)]
use crate::iso::refmap::DirKey;
#[allow(unused_imports)]
use crate::iso::relocate::{
    child_path_len, first_free, holder_name, placeholder, preorder, preorder_children,
    relocate_list, relocated_name,
};
#[allow(unused_imports)]
use crate::iso::tree::{list_events, name_len, relocates, EntryView, KindView};
#[allow(unused_imports)]
use crate::iso::types::{DirectoryRef, EntryType, RripOptions};
#[allow(unused_imports)]
use crate::iso::written::{
    dir_at, directory_count, fresh_dir, new_dir, path_goes_down, valid_path, with_entries, DirView,
    DirectoryRelocation,
};
use vstd::prelude::*;

verus! {

/// Whether no directory is listed as a file, and every placeholder below names one of the
/// given directories.
spec fn sound(dir: DirView, ids: Set<usize>) -> bool
    decreases dir,
{
    &&& no_directories(dir.files)
    &&& forall|i: int|
        0 <= i < dir.dirs.len() ==> sound(#[trigger] dir.dirs[i], ids) && named(dir.dirs[i], ids)
}

/// Whether a placeholder names one of the given directories, and has nothing below it.
spec fn named(dir: DirView, ids: Set<usize>) -> bool {
    match dir.relocation {
        DirectoryRelocation::Placeholder { target } => ids.contains(target) && dir.dirs.len() == 0
            && dir.files.len() == 0,
        _ => true,
    }
}

spec fn list_sound(dirs: Seq<DirView>, ids: Set<usize>) -> bool {
    forall|i: int| 0 <= i < dirs.len() ==> sound(#[trigger] dirs[i], ids) && named(dirs[i], ids)
}

/// Whether all directories are at their place.
spec fn plain(dir: DirView) -> bool
    decreases dir,
{
    &&& no_directories(dir.files)
    &&& forall|i: int|
        0 <= i < dir.dirs.len() ==> plain(#[trigger] dir.dirs[i]) && dir.dirs[i].relocation
            == DirectoryRelocation::InPlace
}

proof fn plain_is_sound(dir: DirView, ids: Set<usize>)
    requires
        plain(dir),
    ensures
        sound(dir, ids),
    decreases dir,
{
    assert forall|i: int| 0 <= i < dir.dirs.len() implies sound(#[trigger] dir.dirs[i], ids)
        && named(dir.dirs[i], ids) by {
        plain_is_sound(dir.dirs[i], ids);
    }
}

proof fn sound_grows(dir: DirView, a: Set<usize>, b: Set<usize>)
    requires
        sound(dir, a),
        a.subset_of(b),
    ensures
        sound(dir, b),
        named(dir, a) ==> named(dir, b),
    decreases dir,
{
    assert forall|i: int| 0 <= i < dir.dirs.len() implies sound(#[trigger] dir.dirs[i], b)
        && named(dir.dirs[i], b) by {
        sound_grows(dir.dirs[i], a, b);
    }
}

proof fn list_sound_grows(dirs: Seq<DirView>, a: Set<usize>, b: Set<usize>)
    requires
        list_sound(dirs, a),
        a.subset_of(b),
    ensures
        list_sound(dirs, b),
{
    assert forall|i: int| 0 <= i < dirs.len() implies sound(#[trigger] dirs[i], b) && named(
        dirs[i],
        b,
    ) by {
        sound_grows(dirs[i], a, b);
    }
}

proof fn entries_are_plain(dir: DirView, entries: Seq<EntryView>, id: int)
    requires
        plain(dir),
    ensures
        plain(with_entries(dir, entries, id)),
        with_entries(dir, entries, id).relocation == dir.relocation,
    decreases entries,
{
    if entries.len() > 0 {
        let init = entries.drop_last();
        let last = entries.last();
        entries_are_plain(dir, init, id);
        let before = with_entries(dir, init, id);
        let all = with_entries(dir, entries, id);
        match last.kind {
            KindView::Directory(children) => {
                let next = id + directory_count(init);
                let fresh = fresh_dir(last, next);
                entries_are_plain(fresh, children, next + 1);
                assert forall|i: int| 0 <= i < all.dirs.len() implies plain(#[trigger] all.dirs[i])
                    && all.dirs[i].relocation == DirectoryRelocation::InPlace by {
                    if i < before.dirs.len() {
                        assert(plain(before.dirs[i]));
                    }
                }
            },
            _ => {
                assert forall|i: int| 0 <= i < all.dirs.len() implies plain(#[trigger] all.dirs[i])
                    && all.dirs[i].relocation == DirectoryRelocation::InPlace by {
                    assert(plain(before.dirs[i]));
                }
                assert forall|i: int| 0 <= i < all.files.len() implies !((
                #[trigger] all.files[i]).kind is Directory) by {
                    if i < before.files.len() {
                        assert(!(before.files[i].kind is Directory));
                    }
                }
            },
        }
    }
}

spec fn ids_of(dirs: Seq<DirView>) -> Set<usize> {
    Set::new(|id: usize| exists|i: int| 0 <= i < dirs.len() && (#[trigger] dirs[i]).id == id)
}

spec fn none_placed(dirs: Seq<DirView>) -> bool {
    forall|i: int| 0 <= i < dirs.len() ==> !((#[trigger] dirs[i]).relocation is Placeholder)
}

proof fn ids_grow(dirs: Seq<DirView>, dir: DirView)
    ensures
        ids_of(dirs).subset_of(ids_of(dirs.push(dir))),
        ids_of(dirs.push(dir)).contains(dir.id),
{
    let more = dirs.push(dir);
    assert(more[dirs.len() as int].id == dir.id);
    assert forall|id: usize| ids_of(dirs).contains(id) implies ids_of(more).contains(id) by {
        let i = choose|i: int| 0 <= i < dirs.len() && (#[trigger] dirs[i]).id == id;
        assert(more[i].id == id);
    }
}

spec fn plain_list(dirs: Seq<DirView>) -> bool {
    forall|i: int|
        0 <= i < dirs.len() ==> plain(#[trigger] dirs[i]) && dirs[i].relocation
            == DirectoryRelocation::InPlace
}

/// Relocation leaves a placeholder only for what it moved.
proof fn relocation_is_sound(
    dirs: Seq<DirView>,
    parent: usize,
    depth: nat,
    path_len: nat,
    moved: Seq<DirView>,
    next: nat,
)
    requires
        plain_list(dirs),
        list_sound(moved, ids_of(moved)),
        none_placed(moved),
    ensures
        ({
            let r = relocate_list(dirs, parent, depth, path_len, moved, next);
            &&& list_sound(r.retained, ids_of(r.moved))
            &&& list_sound(r.moved, ids_of(r.moved))
            &&& none_placed(r.moved)
            &&& ids_of(moved).subset_of(ids_of(r.moved))
        }),
    decreases dirs,
{
    if dirs.len() > 0 {
        let init = dirs.drop_last();
        let child = dirs.last();
        assert(plain_list(init)) by {
            assert forall|i: int| 0 <= i < init.len() implies plain(#[trigger] init[i])
                && init[i].relocation == DirectoryRelocation::InPlace by {
                assert(plain(dirs[i]));
            }
        }
        assert(plain(dirs[dirs.len() - 1]));
        assert(plain_list(child.dirs));
        relocation_is_sound(init, parent, depth, path_len, moved, next);
        let r = relocate_list(init, parent, depth, path_len, moved, next);
        let whole = relocate_list(dirs, parent, depth, path_len, moved, next);
        let len = child_path_len(path_len, child.name);
        if depth + 1 > 8 || len > 255 {
            let name = relocated_name(r.next);
            relocation_is_sound(
                child.dirs,
                child.id,
                3,
                9 + name_len(name),
                r.moved,
                r.next + 1,
            );
            let sub = relocate_list(
                child.dirs,
                child.id,
                3,
                9 + name_len(name),
                r.moved,
                r.next + 1,
            );
            let gone = DirView {
                name,
                relocation: DirectoryRelocation::Moved { id: child.id, logical_parent: parent },
                dirs: sub.retained,
                ..child
            };
            ids_grow(sub.moved, gone);
            let ids = ids_of(whole.moved);
            assert(whole.moved == sub.moved.push(gone));
            list_sound_grows(sub.moved, ids_of(sub.moved), ids);
            list_sound_grows(sub.retained, ids_of(sub.moved), ids);
            list_sound_grows(r.retained, ids_of(r.moved), ids);
            assert(sound(gone, ids)) by {
                assert forall|i: int| 0 <= i < gone.dirs.len() implies sound(
                    #[trigger] gone.dirs[i],
                    ids,
                ) && named(gone.dirs[i], ids) by {
                    assert(sound(sub.retained[i], ids));
                }
            }
            assert forall|i: int| 0 <= i < whole.moved.len() implies sound(
                #[trigger] whole.moved[i],
                ids,
            ) && named(whole.moved[i], ids) by {
                if i < sub.moved.len() {
                    assert(sound(sub.moved[i], ids));
                }
            }
            assert(none_placed(whole.moved)) by {
                assert forall|i: int| 0 <= i < whole.moved.len() implies !((
                #[trigger] whole.moved[i]).relocation is Placeholder) by {
                    if i < sub.moved.len() {
                        assert(!(sub.moved[i].relocation is Placeholder));
                    }
                }
            }
            let mark = placeholder(child);
            assert(whole.retained == r.retained.push(mark));
            assert(sound(mark, ids));
            assert forall|i: int| 0 <= i < whole.retained.len() implies sound(
                #[trigger] whole.retained[i],
                ids,
            ) && named(whole.retained[i], ids) by {
                if i < r.retained.len() {
                    assert(sound(r.retained[i], ids));
                }
            }
        } else {
            relocation_is_sound(child.dirs, child.id, depth + 1, len, r.moved, r.next);
            let sub = relocate_list(child.dirs, child.id, depth + 1, len, r.moved, r.next);
            let here = DirView { dirs: sub.retained, ..child };
            let ids = ids_of(sub.moved);
            list_sound_grows(r.retained, ids_of(r.moved), ids);
            assert(sound(here, ids)) by {
                assert forall|i: int| 0 <= i < here.dirs.len() implies sound(
                    #[trigger] here.dirs[i],
                    ids,
                ) && named(here.dirs[i], ids) by {
                    assert(sound(sub.retained[i], ids));
                }
            }
            assert forall|i: int| 0 <= i < whole.retained.len() implies sound(
                #[trigger] whole.retained[i],
                ids,
            ) && named(whole.retained[i], ids) by {
                if i < r.retained.len() {
                    assert(sound(r.retained[i], ids));
                }
            }
        }
    }
}

/// Of a directory on the way, every child that is not a placeholder is on the way too.
proof fn preorder_goes_down(dir: DirView, path: Seq<usize>, q: Seq<usize>, c: usize)
    requires
        countable(dir),
        preorder(dir, path).contains(q),
        q.len() >= path.len(),
        c < dir_at(dir, q.skip(path.len() as int)).dirs.len(),
        !(dir_at(dir, q.skip(path.len() as int)).dirs[c as int].relocation is Placeholder),
    ensures
        preorder(dir, path).contains(q.push(c)),
    decreases dir, 0nat,
{
    let all = preorder(dir, path);
    let rest = preorder_children(dir.dirs, path);
    assert(all == seq![path] + rest);
    let i = choose|i: int| 0 <= i < all.len() && all[i] == q;
    if i == 0 {
        assert(q.skip(path.len() as int) =~= Seq::empty());
        child_is_listed(dir.dirs, path, c);
        let j = choose|j: int| 0 <= j < rest.len() && rest[j] == path.push(c);
        assert(all[j + 1] == q.push(c));
    } else {
        assert(rest[i - 1] == q);
        assert(rest.contains(q));
        crate::iso::plan_laws::children_are_distinct(dir.dirs, path);
        assert(crate::iso::plan_laws::below(rest[i - 1], path, dir.dirs.len() as int));
        let tail = q.skip(path.len() as int);
        assert(tail[0] == q[path.len() as int]);
        assert(tail.drop_first() =~= q.skip(path.len() as int + 1));
        children_go_down(dir.dirs, path, q, c);
        let j = choose|j: int| 0 <= j < rest.len() && rest[j] == q.push(c);
        assert(all[j + 1] == q.push(c));
    }
}

proof fn child_is_listed(dirs: Seq<DirView>, path: Seq<usize>, c: usize)
    requires
        c < dirs.len() <= usize::MAX,
        !(dirs[c as int].relocation is Placeholder),
    ensures
        preorder_children(dirs, path).contains(path.push(c)),
    decreases dirs.len(),
{
    let init = dirs.drop_last();
    let before = preorder_children(init, path);
    let all = preorder_children(dirs, path);
    if c < init.len() {
        child_is_listed(init, path, c);
        let j = choose|j: int| 0 <= j < before.len() && before[j] == path.push(c);
        assert(all[j] == path.push(c));
    } else {
        let own = preorder(dirs.last(), path.push((dirs.len() - 1) as usize));
        assert(own[0] == path.push(c));
        assert(all[before.len() as int] == path.push(c));
    }
}

proof fn children_go_down(dirs: Seq<DirView>, path: Seq<usize>, q: Seq<usize>, c: usize)
    requires
        dirs.len() <= usize::MAX,
        forall|i: int| 0 <= i < dirs.len() ==> countable(#[trigger] dirs[i]),
        preorder_children(dirs, path).contains(q),
        q.len() > path.len(),
        q[path.len() as int] < dirs.len(),
        c < dir_at(dirs[q[path.len() as int] as int], q.skip(path.len() as int + 1)).dirs.len(),
        !(dir_at(
            dirs[q[path.len() as int] as int],
            q.skip(path.len() as int + 1),
        ).dirs[c as int].relocation is Placeholder),
    ensures
        preorder_children(dirs, path).contains(q.push(c)),
    decreases dirs, 1nat,
{
    let init = dirs.drop_last();
    let before = preorder_children(init, path);
    let all = preorder_children(dirs, path);
    let n = init.len() as int;
    assert forall|i: int| 0 <= i < init.len() implies countable(#[trigger] init[i]) by {
        assert(countable(dirs[i]));
    }
    crate::iso::plan_laws::children_are_distinct(init, path);
    let i = choose|i: int| 0 <= i < all.len() && all[i] == q;
    if i < before.len() {
        assert(before[i] == q);
        assert(before.contains(q));
        assert(q[path.len() as int] < n);
        assert(init[q[path.len() as int] as int] == dirs[q[path.len() as int] as int]);
        children_go_down(init, path, q, c);
        let j = choose|j: int| 0 <= j < before.len() && before[j] == q.push(c);
        assert(all[j] == q.push(c));
    } else {
        let step = path.push(n as usize);
        let own = preorder(dirs.last(), step);
        assert(countable(dirs[n]));
        preorder_is_distinct(dirs[n], step);
        assert(own[i - before.len()] == q);
        assert(own.contains(q));
        assert(q.take(step.len() as int)[path.len() as int] == q[path.len() as int]);
        assert(q[path.len() as int] == n as usize);
        preorder_goes_down(dirs.last(), step, q, c);
        let j = choose|j: int| 0 <= j < own.len() && own[j] == q.push(c);
        assert(all[j + before.len()] == q.push(c));
    }
}

proof fn sound_at(dir: DirView, path: Seq<usize>, ids: Set<usize>)
    requires
        sound(dir, ids),
        valid_path(dir, path),
    ensures
        sound(dir_at(dir, path), ids),
    decreases path.len(),
{
    if path.len() > 0 {
        assert(sound(dir.dirs[path[0] as int], ids));
        sound_at(dir.dirs[path[0] as int], path.drop_first(), ids);
    }
}

/// The numbers of all directories that are laid out.
spec fn laid_ids(root: DirView) -> Set<usize> {
    Set::new(
        |id: usize|
            exists|i: int|
                0 <= i < preorder(root, Seq::empty()).len() && dir_at(
                    root,
                    #[trigger] preorder(root, Seq::empty())[i],
                ).id == id,
    )
}

/// Every placeholder of an image names a directory that is laid out.
proof fn built_tree_is_sound(tree: Seq<EntryView>, rrip: Option<RripOptions>)
    requires
        list_events(tree).len() < usize::MAX,
    ensures
        sound(built_tree(tree, rrip), laid_ids(built_tree(tree, rrip))),
{
    let empty = new_dir(Seq::empty());
    entries_are_plain(empty, tree, 1);
    let root = with_entries(empty, tree, 1);
    let all = built_tree(tree, rrip);
    let ids = laid_ids(all);
    built_tree_is_countable(tree, rrip);
    plain_is_sound(root, ids);
    if relocates(rrip) {
        assert(plain_list(root.dirs)) by {
            assert forall|i: int| 0 <= i < root.dirs.len() implies plain(#[trigger] root.dirs[i])
                && root.dirs[i].relocation == DirectoryRelocation::InPlace by {}
        }
        relocation_is_sound(root.dirs, root.id, 1, 0, Seq::empty(), 1);
        let r = relocate_list(root.dirs, root.id, 1, 0, Seq::empty(), 1);
        if r.moved.len() == 0 {
            assert(ids_of(r.moved).subset_of(ids)) by {
                assert forall|id: usize| ids_of(r.moved).contains(id) implies ids.contains(id) by {
                    let i = choose|i: int| 0 <= i < r.moved.len() && (#[trigger] r.moved[i]).id
                        == id;
                }
            }
            list_sound_grows(r.retained, ids_of(r.moved), ids);
            assert forall|i: int| 0 <= i < all.dirs.len() implies sound(#[trigger] all.dirs[i], ids)
                && named(all.dirs[i], ids) by {
                assert(sound(r.retained[i], ids));
            }
        } else {
            let k = choose|k: nat| first_free(r.retained, k);
            let holder = DirView { id: usize::MAX, dirs: r.moved, ..new_dir(holder_name(k)) };
            assert(all.dirs[0] == holder);
            assert(countable(all.dirs[0]));
            let paths = preorder(all, Seq::empty());
            let top = Seq::<usize>::empty();
            assert(paths[0] == top);
            assert(paths.contains(top));
            assert(top.skip(0) =~= top);
            assert(dir_at(all, top) == all);
            preorder_goes_down(all, top, top, 0);
            let first = top.push(0usize);
            assert(first.skip(0) =~= first);
            path_goes_down(all, top, 0);
            assert(dir_at(all, first) == holder);
            assert(ids_of(r.moved).subset_of(ids)) by {
                assert forall|id: usize| ids_of(r.moved).contains(id) implies ids.contains(id) by {
                    let m = choose|m: int| 0 <= m < r.moved.len() && (#[trigger] r.moved[m]).id
                        == id;
                    assert(!(r.moved[m].relocation is Placeholder));
                    preorder_goes_down(all, top, first, m as usize);
                    path_goes_down(all, first, m as usize);
                    let q = first.push(m as usize);
                    let i = choose|i: int| 0 <= i < paths.len() && paths[i] == q;
                    assert(dir_at(all, paths[i]).id == id);
                }
            }
            list_sound_grows(r.retained, ids_of(r.moved), ids);
            list_sound_grows(r.moved, ids_of(r.moved), ids);
            assert(sound(holder, ids)) by {
                assert forall|i: int| 0 <= i < holder.dirs.len() implies sound(
                    #[trigger] holder.dirs[i],
                    ids,
                ) && named(holder.dirs[i], ids) by {
                    assert(sound(r.moved[i], ids));
                }
            }
            assert forall|i: int| 0 <= i < all.dirs.len() implies sound(#[trigger] all.dirs[i], ids)
                && named(all.dirs[i], ids) by {
                if i > 0 {
                    assert(all.dirs[i] == r.retained[i - 1]);
                    assert(sound(r.retained[i - 1], ids));
                }
            }
        }
    }
}

proof fn key_is_mapped(
    root: DirView,
    jobs: Seq<(Seq<usize>, EntryType)>,
    refs: Seq<DirectoryRef>,
    k: int,
)
    requires
        0 <= k < jobs.len(),
    ensures
        ref_map(root, jobs, refs).dom().contains(
            DirKey { id: dir_at(root, jobs[k].0).id, ty: jobs[k].1 },
        ),
    decreases jobs.len(),
{
    if k < jobs.len() - 1 {
        key_is_mapped(root, jobs.drop_last(), refs, k);
        assert(jobs.drop_last()[k] == jobs[k]);
    }
}

proof fn pair_is_listed(paths: Seq<Seq<usize>>, types: Seq<EntryType>, i: int, j: int)
    requires
        0 <= i < paths.len(),
        0 <= j < types.len(),
    ensures
        pairs(paths, types).contains((paths[i], types[j])),
    decreases paths.len(),
{
    let init = paths.drop_last();
    let before = pairs(init, types);
    let all = pairs(paths, types);
    if i < init.len() {
        pair_is_listed(init, types, i, j);
        let k = choose|k: int| 0 <= k < before.len() && before[k] == (init[i], types[j]);
        assert(all[k] == (paths[i], types[j]));
    } else {
        assert(all[before.len() + j] == (paths[i], types[j]));
    }
}

proof fn pair_comes_from(paths: Seq<Seq<usize>>, types: Seq<EntryType>, k: int)
    requires
        0 <= k < pairs(paths, types).len(),
    ensures
        paths.contains(pairs(paths, types)[k].0),
        types.contains(pairs(paths, types)[k].1),
    decreases paths.len(),
{
    let init = paths.drop_last();
    let before = pairs(init, types);
    let all = pairs(paths, types);
    if k < before.len() {
        pair_comes_from(init, types, k);
        assert(all[k] == before[k]);
        let i = choose|i: int| 0 <= i < init.len() && init[i] == before[k].0;
        assert(paths[i] == before[k].0);
    } else {
        assert(all[k] == (paths.last(), types[k - before.len()]));
        assert(paths[paths.len() - 1] == all[k].0);
        assert(types[k - before.len()] == all[k].1);
    }
}

proof fn children_are_built(dirs: Seq<DirView>, inode: int, c: Context)
    requires
        forall|i: int|
            0 <= i < dirs.len() ==> match (#[trigger] dirs[i]).relocation {
                DirectoryRelocation::Placeholder { target } => c.refs.dom().contains(
                    DirKey { id: target, ty: c.ty },
                ),
                _ => true,
            },
    ensures
        child_records(dirs, inode, c) is Ok,
    decreases dirs.len(),
{
    if dirs.len() > 0 {
        let init = dirs.drop_last();
        assert forall|i: int| 0 <= i < init.len() implies match (#[trigger] init[i]).relocation {
            DirectoryRelocation::Placeholder { target } => c.refs.dom().contains(
                DirKey { id: target, ty: c.ty },
            ),
            _ => true,
        } by {
            assert(init[i] == dirs[i]);
        }
        children_are_built(init, inode, c);
        assert(dirs[dirs.len() - 1] == dirs.last());
        reveal(child_record);
    }
}

/// The entries of the directories of the first `n` jobs.
pub open spec fn entry_total(root: DirView, jobs: Seq<(Seq<usize>, EntryType)>, n: int) -> int
    decreases n,
{
    if n <= 0 {
        0
    } else {
        let dir = dir_at(root, jobs[n - 1].0);
        entry_total(root, jobs, n - 1) + dir.dirs.len() + dir.files.len()
    }
}

proof fn total_covers(root: DirView, jobs: Seq<(Seq<usize>, EntryType)>, k: int, n: int)
    requires
        0 <= k < n <= jobs.len(),
    ensures
        dir_at(root, jobs[k].0).dirs.len() + dir_at(root, jobs[k].0).files.len() <= entry_total(
            root,
            jobs,
            n,
        ),
        entry_total(root, jobs, k) <= entry_total(root, jobs, n),
    decreases n,
{
    total_is_positive(root, jobs, n - 1);
    if k < n - 1 {
        total_covers(root, jobs, k, n - 1);
    }
}

/// What a directory needs to be planned: its children are laid out or name what is laid
/// out, and its entries can be counted.
proof fn directory_can_be_planned(
    root: DirView,
    blank: DirView,
    types: Seq<EntryType>,
    refs: Seq<DirectoryRef>,
    rrip: Option<RripOptions>,
    time: Seq<u8>,
    k: int,
    inode: int,
)
    requires
        countable(root),
        types.no_duplicates(),
        sound(root, laid_ids(root)),
        same_tree(root, blank, false),
        0 <= k < jobs_of(root, types).len(),
        forall|m: int|
            0 <= m < jobs_of(root, types).len() ==> dir_at(
                blank,
                (#[trigger] jobs_of(root, types)[m]).0,
            ).entries.dom().contains(jobs_of(root, types)[m].1),
        entry_total(root, jobs_of(root, types), jobs_of(root, types).len() as int) + 3 <= u32::MAX,
        inode <= 1 + entry_total(root, jobs_of(root, types), k),
    ensures
        ({
            let (path, ty) = jobs_of(root, types)[k];
            let dir = dir_at(blank, path);
            &&& dir_fits(dir, ty)
            &&& inode + inode_step(dir, ty, rrip) <= u32::MAX
            &&& inode + inode_step(dir, ty, rrip) <= 1 + entry_total(
                root,
                jobs_of(root, types),
                k + 1,
            )
            &&& raw_records(
                dir,
                path.len() == 0,
                inode,
                context(ty, rrip, time, ref_map(blank, jobs_of(root, types), refs)),
            ) is Ok
        }),
{
    let jobs = jobs_of(root, types);
    let paths = preorder(root, Seq::empty());
    let n = jobs.len() as int;
    let (path, ty) = jobs[k];
    work_is_distinct(root, types);
    assert(valid_path(root, jobs[k].0));
    same_tree_at(root, blank, path, false);
    let here = dir_at(root, path);
    let dir = dir_at(blank, path);
    pair_comes_from(paths, types, k);
    let p = choose|p: int| 0 <= p < paths.len() && paths[p] == path;
    let t = choose|t: int| 0 <= t < types.len() && types[t] == ty;
    total_covers(root, jobs, k, n);
    assert(entry_total(root, jobs, k + 1) == entry_total(root, jobs, k) + here.dirs.len()
        + here.files.len());
    total_covers_all(root, jobs, k + 1, n);
    sound_at(root, path, laid_ids(root));
    assert forall|i: int| 0 <= i < dir.dirs.len() implies (#[trigger] dir.dirs[i]).dirs.len() + 2
        <= u32::MAX && (!(dir.dirs[i].relocation is Placeholder)
        ==> dir.dirs[i].entries.dom().contains(ty)) && match dir.dirs[i].relocation {
        DirectoryRelocation::Placeholder { target } => ref_map(blank, jobs, refs).dom().contains(
            DirKey { id: target, ty },
        ),
        _ => true,
    } by {
        let child = here.dirs[i];
        assert(same_tree(here.dirs[i], dir.dirs[i], false));
        assert(sound(here.dirs[i], laid_ids(root)) && named(here.dirs[i], laid_ids(root)));
        countable_below(root, path);
        match child.relocation {
            DirectoryRelocation::Placeholder { target } => {
                let m = choose|m: int|
                    0 <= m < paths.len() && dir_at(root, #[trigger] paths[m]).id == target;
                pair_is_listed(paths, types, m, t);
                let x = choose|x: int| 0 <= x < jobs.len() && jobs[x] == (paths[m], types[t]);
                assert(valid_path(root, jobs[x].0));
                same_tree_at(root, blank, jobs[x].0, false);
                key_is_mapped(blank, jobs, refs, x);
            },
            _ => {
                assert(path.skip(0) =~= path);
                assert(paths.contains(path));
                preorder_goes_down(root, Seq::empty(), path, i as usize);
                let q = path.push(i as usize);
                let m = choose|m: int| 0 <= m < paths.len() && paths[m] == q;
                pair_is_listed(paths, types, m, t);
                let x = choose|x: int| 0 <= x < jobs.len() && jobs[x] == (paths[m], types[t]);
                path_goes_down(blank, path, i as usize);
                path_goes_down(root, path, i as usize);
                assert(dir_at(blank, jobs[x].0).entries.dom().contains(jobs[x].1));
                total_covers(root, jobs, x, n);
            },
        }
    }
    assert(no_directories(dir.files)) by {
        assert forall|i: int| 0 <= i < dir.files.len() implies !((
        #[trigger] dir.files[i]).kind is Directory) by {
            assert(same_file(here.files[i], dir.files[i], false));
            assert(!(here.files[i].kind is Directory));
        }
    }
    let c = context(ty, rrip, time, ref_map(blank, jobs, refs));
    assert forall|i: int| 0 <= i < dir.dirs.len() implies match (
    #[trigger] dir.dirs[i]).relocation {
        DirectoryRelocation::Placeholder { target } => c.refs.dom().contains(
            DirKey { id: target, ty: c.ty },
        ),
        _ => true,
    } by {}
    children_are_built(dir.dirs, inode, c);
}

proof fn countable_below(root: DirView, path: Seq<usize>)
    requires
        countable(root),
        valid_path(root, path),
    ensures
        dir_at(root, path).dirs.len() <= usize::MAX,
{
    crate::iso::plan_laws::countable_at(root, path);
}

proof fn total_covers_all(root: DirView, jobs: Seq<(Seq<usize>, EntryType)>, k: int, n: int)
    requires
        0 <= k <= n <= jobs.len(),
    ensures
        entry_total(root, jobs, k) <= entry_total(root, jobs, n),
    decreases n,
{
    if k < n {
        total_covers_all(root, jobs, k, n - 1);
    }
}

/// Whether an error says that something is too large.
pub open spec fn is_size_error(e: IsoCreationError) -> bool {
    e == IsoCreationError::TooLarge || e == IsoCreationError::RecordTooLong
}

proof fn plan_fails_only_for_size(
    root: DirView,
    blank: DirView,
    types: Seq<EntryType>,
    refs: Seq<DirectoryRef>,
    rrip: Option<RripOptions>,
    time: Seq<u8>,
    cursor: int,
    n: int,
)
    requires
        countable(root),
        types.no_duplicates(),
        sound(root, laid_ids(root)),
        same_tree(root, blank, false),
        forall|m: int|
            0 <= m < jobs_of(root, types).len() ==> dir_at(
                blank,
                (#[trigger] jobs_of(root, types)[m]).0,
            ).entries.dom().contains(jobs_of(root, types)[m].1),
        entry_total(root, jobs_of(root, types), jobs_of(root, types).len() as int) + 3 <= u32::MAX,
        0 <= n <= jobs_of(root, types).len(),
    ensures
        match plan_dirs(
            blank,
            jobs_of(root, types).take(n),
            rrip,
            time,
            ref_map(blank, jobs_of(root, types), refs),
            cursor,
            1,
        ) {
            Ok(p) => 1 <= p.inode <= 1 + entry_total(root, jobs_of(root, types), n),
            Err(e) => is_size_error(e),
        },
    decreases n,
{
    let jobs = jobs_of(root, types);
    let map = ref_map(blank, jobs, refs);
    if n > 0 {
        plan_fails_only_for_size(root, blank, types, refs, rrip, time, cursor, n - 1);
        assert(jobs.take(n).drop_last() =~= jobs.take(n - 1));
        assert(jobs.take(n).last() == jobs[n - 1]);
        match plan_dirs(blank, jobs.take(n - 1), rrip, time, map, cursor, 1) {
            Err(e) => {},
            Ok(p) => {
                directory_can_be_planned(root, blank, types, refs, rrip, time, n - 1, p.inode);
                reveal(plan_step);
            },
        }
    }
}

proof fn files_fail_only_for_size(root: DirView, order: Seq<(Seq<usize>, usize)>, cursor: int)
    ensures
        plan_files(root, order, cursor) is Err ==> plan_files(root, order, cursor)->Err_0
            == IsoCreationError::TooLarge,
    decreases order.len(),
{
    if order.len() > 0 {
        files_fail_only_for_size(root, order.drop_last(), cursor);
    }
}

/// Directories and files of any input can be laid out, written and listed in path tables,
/// unless the image does not fit the memory, a directory record has more than 255 bytes,
/// there are more directories than a path table can number, or there are too many entries
/// to number them twice with 32 bits.
pub proof fn images_fail_only_for_size(
    tree: Seq<EntryView>,
    ops: IsoFormatOptions,
    time: Seq<u8>,
    start: int,
)
    requires
        time.len() == 7,
        list_events(tree).len() < usize::MAX,
        0 <= start,
        start + 2048 <= u64::MAX,
        ({
            let root = built_tree(tree, ops.features.rock_ridge);
            let jobs = jobs_of(root, entry_types_of(ops.features));
            2 * entry_total(root, jobs, jobs.len() as int) + 3 <= u32::MAX
        }),
    ensures
        match image_body(
            built_tree(tree, ops.features.rock_ridge),
            ops,
            entry_types_of(ops.features),
            time,
            start,
        ) {
            Ok(_) => true,
            Err(e) => is_size_error(e) || e == IsoCreationError::TooManyDirectories,
        },
{
    let rrip = ops.features.rock_ridge;
    let root = built_tree(tree, rrip);
    let types = entry_types_of(ops.features);
    let jobs = jobs_of(root, types);
    let order = order_of(root);
    let none = no_refs(jobs.len());
    let n = jobs.len() as int;
    built_tree_is_countable(tree, rrip);
    built_tree_is_sound(tree, rrip);
    namespaces_differ(ops.features);
    work_is_distinct(root, types);
    total_is_positive(root, jobs, n);
    files_fail_only_for_size(root, order, 0);
    if plan_files(root, order, 0) is Ok {
        let sized = plan_files(root, order, 0)->Ok_0.0;
        plan_files_same(root, order, 0);
        work_stays_valid(root, sized, jobs, order, false);
        let blank = with_refs(sized, jobs, none);
        with_refs_same(sized, jobs, none, false);
        crate::iso::plan::same_tree_transitive(root, sized, blank, false);
        refs_are_found(sized, jobs, none);
        assert forall|m: int| 0 <= m < jobs.len() implies dir_at(
            blank,
            (#[trigger] jobs[m]).0,
        ).entries.dom().contains(jobs[m].1) by {}
        plan_fails_only_for_size(root, blank, types, none, rrip, time, start, n);
        assert(jobs.take(n) =~= jobs);
        match plan_dirs(blank, jobs, rrip, time, ref_map(blank, jobs, none), start, 1) {
            Err(e) => {},
            Ok(p) => {
                let placed = with_refs(blank, jobs, p.refs);
                files_fail_only_for_size(placed, order, p.cursor);
                if layout(root, types, rrip, time, start) is Ok {
                    laid_out_images_are_written(tree, ops, time, start);
                }
            },
        }
    }
}

proof fn total_is_positive(root: DirView, jobs: Seq<(Seq<usize>, EntryType)>, n: int)
    ensures
        0 <= entry_total(root, jobs, n),
    decreases n,
{
    if n > 0 {
        total_is_positive(root, jobs, n - 1);
    }
}

} // verus!
