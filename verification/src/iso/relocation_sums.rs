//! What relocation does to the directories of a tree.

#[allow(unused_imports)]
use crate::iso::image::built_tree;
#[allow(unused_imports)]
use crate::iso::name::base_identifier;
#[allow(unused_imports)]
use crate::iso::order::before;
#[allow(unused_imports)]
use crate::iso::path_table::kept;
#[allow(unused_imports)]
use crate::iso::relocate::{child_path_len, relocate_list, relocated_name};
#[allow(unused_imports)]
use crate::iso::tree::{name_len, relocates, EntryView, KindView};
#[allow(unused_imports)]
use crate::iso::types::{EntryType, RripOptions};
#[allow(unused_imports)]
use crate::iso::written::{
    dir_at, directory_count, fresh_dir, new_dir, valid_path, with_entries, DirView,
    DirectoryRelocation,
};

#[allow(unused_imports)]
use crate::iso::tree_sums::{list_records_len, list_sum, records_len, table_record_len, tree_sum};
#[allow(unused_imports)]
use crate::iso::estimator::{longest_name_len, relocated_len};
#[allow(unused_imports)]
use crate::iso::record_sizes::{child_fields_len, children_fields_len, shows_names};
#[allow(unused_imports)]
use crate::iso::relocate::{
    first_free, free_name_soon, relocated_name_len, some_name_is_free, tree_size,
};
use vstd::prelude::*;

verus! {

/// The tree of an input before anything is relocated.
pub open spec fn plain_tree(tree: Seq<EntryView>) -> DirView {
    with_entries(new_dir(Seq::empty()), tree, 1)
}

/// Whether directories of an input are relocated.
pub open spec fn is_relocated(tree: Seq<EntryView>, rrip: Option<RripOptions>) -> bool {
    let root = plain_tree(tree);
    relocates(rrip) && relocate_list(root.dirs, root.id, 1, 0, Seq::empty(), 1).moved.len() > 0
}

/// The names of directories.
pub open spec fn names_of(dirs: Seq<DirView>) -> Seq<Seq<char>> {
    Seq::new(dirs.len(), |i: int| dirs[i].name)
}

/// Whether a number depends on a directory's files and on its children's names only.
pub open spec fn is_local(f: spec_fn(DirView) -> int) -> bool {
    forall|d: DirView, e: DirView|
        d.files == e.files && names_of(d.dirs) == names_of(e.dirs) ==> #[trigger] f(d)
            == #[trigger] f(e)
}

/// Whether nothing in a tree is relocated.
pub open spec fn is_plain(dir: DirView) -> bool
    decreases dir,
{
    &&& dir.relocation is InPlace
    &&& dir.rrip_name == dir.name
    &&& forall|i: int| 0 <= i < dir.dirs.len() ==> is_plain(#[trigger] dir.dirs[i])
}

/// Whether nothing in trees is relocated.
pub open spec fn all_plain(dirs: Seq<DirView>) -> bool {
    forall|i: int| 0 <= i < dirs.len() ==> is_plain(#[trigger] dirs[i])
}

/// Nothing in the tree of an input is relocated.
pub proof fn entries_are_plain(dir: DirView, entries: Seq<EntryView>, id: int)
    requires
        is_plain(dir),
    ensures
        is_plain(with_entries(dir, entries, id)),
    decreases entries,
{
    if entries.len() > 0 {
        let init = entries.drop_last();
        let last = entries.last();
        entries_are_plain(dir, init, id);
        let before = with_entries(dir, init, id);
        let all = with_entries(dir, entries, id);
        match last.kind {
            KindView::Directory(children) => {
                let next = id + directory_count(init);
                let fresh = fresh_dir(last, next);
                assert(is_plain(fresh));
                entries_are_plain(fresh, children, next + 1);
                assert forall|i: int| 0 <= i < all.dirs.len() implies is_plain(
                    #[trigger] all.dirs[i],
                ) by {
                    if i < before.dirs.len() {
                        assert(is_plain(before.dirs[i]));
                    }
                }
            },
            _ => {
                assert forall|i: int| 0 <= i < all.dirs.len() implies is_plain(
                    #[trigger] all.dirs[i],
                ) by {
                    assert(is_plain(before.dirs[i]));
                }
            },
        }
    }
}

proof fn list_sum_push(dirs: Seq<DirView>, child: DirView, f: spec_fn(DirView) -> int)
    ensures
        list_sum(dirs.push(child), f) == list_sum(dirs, f) + (if child.relocation is Placeholder {
            0
        } else {
            tree_sum(child, f)
        }),
{
    assert(dirs.push(child).drop_last() =~= dirs);
    assert(dirs.push(child).last() == child);
}

proof fn list_sum_front(child: DirView, dirs: Seq<DirView>, f: spec_fn(DirView) -> int)
    requires
        !(child.relocation is Placeholder),
    ensures
        list_sum(seq![child] + dirs, f) == tree_sum(child, f) + list_sum(dirs, f),
    decreases dirs.len(),
{
    let all = seq![child] + dirs;
    if dirs.len() == 0 {
        assert(all =~= Seq::empty().push(child));
        list_sum_push(Seq::empty(), child, f);
    } else {
        list_sum_front(child, dirs.drop_last(), f);
        assert(all =~= (seq![child] + dirs.drop_last()).push(dirs.last()));
        list_sum_push(seq![child] + dirs.drop_last(), dirs.last(), f);
    }
}

/// Relocation moves directories and loses none.
proof fn relocation_sums(
    dirs: Seq<DirView>,
    parent: usize,
    depth: nat,
    path_len: nat,
    moved: Seq<DirView>,
    next: nat,
    f: spec_fn(DirView) -> int,
)
    requires
        all_plain(dirs),
        is_local(f),
    ensures
        ({
            let r = relocate_list(dirs, parent, depth, path_len, moved, next);
            &&& names_of(r.retained) == names_of(dirs)
            &&& list_sum(r.retained, f) + list_sum(r.moved, f) == list_sum(dirs, f) + list_sum(
                moved,
                f,
            )
        }),
    decreases dirs,
{
    if dirs.len() == 0 {
        assert(names_of(dirs) =~= Seq::empty());
        assert(names_of(Seq::empty()) =~= Seq::empty());
        assert(list_sum(Seq::empty(), f) == 0);
    } else {
        let init = dirs.drop_last();
        let child = dirs.last();
        assert forall|i: int| 0 <= i < init.len() implies is_plain(#[trigger] init[i]) by {
            assert(is_plain(dirs[i]));
        }
        relocation_sums(init, parent, depth, path_len, moved, next, f);
        let r = relocate_list(init, parent, depth, path_len, moved, next);
        let all = relocate_list(dirs, parent, depth, path_len, moved, next);
        assert(is_plain(dirs[dirs.len() - 1]));
        assert(all_plain(child.dirs));
        let len = child_path_len(path_len, child.name);
        assert(dirs =~= init.push(child));
        list_sum_push(init, child, f);
        assert(tree_sum(child, f) == f(child) + list_sum(child.dirs, f));
        if depth + 1 > 8 || len > 255 {
            let name = relocated_name(r.next);
            let path = 9 + name_len(name);
            relocation_sums(child.dirs, child.id, 3, path, r.moved, r.next + 1, f);
            let sub = relocate_list(child.dirs, child.id, 3, path, r.moved, r.next + 1);
            let away = DirView {
                name,
                relocation: DirectoryRelocation::Moved { id: child.id, logical_parent: parent },
                dirs: sub.retained,
                ..child
            };
            assert(f(away) == f(child));
            assert(tree_sum(away, f) == f(away) + list_sum(away.dirs, f));
            list_sum_push(sub.moved, away, f);
            list_sum_push(r.retained, crate::iso::relocate::placeholder(child), f);
        } else {
            relocation_sums(child.dirs, child.id, depth + 1, len, r.moved, r.next, f);
            let sub = relocate_list(child.dirs, child.id, depth + 1, len, r.moved, r.next);
            let stays = DirView { dirs: sub.retained, ..child };
            assert(f(stays) == f(child));
            assert(tree_sum(stays, f) == f(stays) + list_sum(stays.dirs, f));
            list_sum_push(r.retained, stays, f);
        }
        assert(names_of(all.retained) =~= names_of(r.retained).push(child.name));
        assert(names_of(dirs) =~= names_of(init).push(child.name));
    }
}

/// What relocation adds to a sum over all directories.
pub proof fn relocation_adds(
    tree: Seq<EntryView>,
    rrip: Option<RripOptions>,
    f: spec_fn(DirView) -> int,
)
    requires
        is_local(f),
    ensures
        ({
            let root = built_tree(tree, rrip);
            let plain = plain_tree(tree);
            tree_sum(root, f) == tree_sum(plain, f) + (if is_relocated(tree, rrip) {
                f(root) - f(plain) + f(root.dirs[0])
            } else {
                0
            })
        }),
{
    let plain = plain_tree(tree);
    let root = built_tree(tree, rrip);
    assert(is_plain(new_dir(Seq::empty())));
    entries_are_plain(new_dir(Seq::empty()), tree, 1);
    assert(tree_sum(plain, f) == f(plain) + list_sum(plain.dirs, f));
    assert(tree_sum(root, f) == f(root) + list_sum(root.dirs, f));
    if relocates(rrip) {
        relocation_sums(plain.dirs, plain.id, 1, 0, Seq::empty(), 1, f);
        let r = relocate_list(plain.dirs, plain.id, 1, 0, Seq::empty(), 1);
        assert(list_sum(Seq::empty(), f) == 0);
        if r.moved.len() > 0 {
            let holder = root.dirs[0];
            assert(root.dirs =~= seq![holder] + r.retained);
            assert(holder.dirs == r.moved);
            list_sum_front(holder, r.retained, f);
            assert(tree_sum(holder, f) == f(holder) + list_sum(holder.dirs, f));
        } else {
            assert(r.moved =~= Seq::empty());
            assert(f(root) == f(plain));
        }
    }
}

/// Relocation moves no more directories than there are, and gives them numbers in order.
pub proof fn relocation_is_counted(
    dirs: Seq<DirView>,
    parent: usize,
    depth: nat,
    path_len: nat,
    moved: Seq<DirView>,
    next: nat,
)
    ensures
        ({
            let r = relocate_list(dirs, parent, depth, path_len, moved, next);
            &&& r.retained.len() == dirs.len()
            &&& moved.len() <= r.moved.len() <= moved.len() + tree_size(dirs)
            &&& next <= r.next <= next + tree_size(dirs)
        }),
    decreases dirs,
{
    if dirs.len() > 0 {
        let init = dirs.drop_last();
        let child = dirs.last();
        relocation_is_counted(init, parent, depth, path_len, moved, next);
        let r = relocate_list(init, parent, depth, path_len, moved, next);
        let len = child_path_len(path_len, child.name);
        if depth + 1 > 8 || len > 255 {
            let path = 9 + name_len(relocated_name(r.next));
            relocation_is_counted(child.dirs, child.id, 3, path, r.moved, r.next + 1);
        } else {
            relocation_is_counted(child.dirs, child.id, depth + 1, len, r.moved, r.next);
        }
    }
}

/// The most bytes of the records of directories in a path table, by their names.
pub open spec fn cover(dirs: Seq<DirView>, types: Seq<EntryType>) -> int
    decreases dirs,
{
    if dirs.len() == 0 {
        0
    } else {
        cover(dirs.drop_last(), types) + 9 + longest_name_len(dirs.last().name, types) + cover(
            dirs.last().dirs,
            types,
        )
    }
}

/// No identifier is longer than the longest of all namespaces.
pub proof fn longest_covers(name: Seq<char>, ty: EntryType, types: Seq<EntryType>)
    requires
        types.contains(ty),
    ensures
        base_identifier(ty, name).len() <= longest_name_len(name, types),
    decreases types.len(),
{
    crate::iso::estimator::estimate_covers_identifiers(name, ty);
    let i = choose|i: int| 0 <= i < types.len() && types[i] == ty;
    if i < types.len() - 1 {
        assert(types.drop_last()[i] == ty);
        longest_covers(name, ty, types.drop_last());
    }
}

proof fn longest_is_natural(name: Seq<char>, types: Seq<EntryType>)
    ensures
        longest_name_len(name, types) >= 0,
    decreases types.len(),
{
    if types.len() > 0 {
        longest_is_natural(name, types.drop_last());
    }
}

proof fn cover_is_natural(dirs: Seq<DirView>, types: Seq<EntryType>)
    ensures
        cover(dirs, types) >= 0,
    decreases dirs,
{
    if dirs.len() > 0 {
        cover_is_natural(dirs.drop_last(), types);
        cover_is_natural(dirs.last().dirs, types);
        longest_is_natural(dirs.last().name, types);
    }
}

proof fn push_records_len(dirs: Seq<DirView>, child: DirView, ty: EntryType)
    ensures
        list_records_len(dirs.push(child), ty) == list_records_len(dirs, ty) + (
        if child.relocation is Placeholder {
            0
        } else {
            table_record_len(child, ty) + list_records_len(child.dirs, ty)
        }),
{
    assert(dirs.push(child).drop_last() =~= dirs);
    assert(dirs.push(child).last() == child);
    assert(records_len(child, ty) == list_records_len(child.dirs, ty));
}

proof fn relocated_identifier_len(k: nat, ty: EntryType, count: int)
    requires
        1 <= k <= count,
        k <= usize::MAX,
    ensures
        base_identifier(ty, relocated_name(k)).len() <= relocated_len(count),
{
    relocated_name_len(k as usize);
    let name = relocated_name(k);
    crate::iso::relocate::relocated_name_is_short(k);
    crate::iso::name::first_dot_bounds(vstd::utf8::encode_utf8(name));
}

/// Relocation makes the records in a path table no longer than by a new name for each
/// directory that moves.
pub proof fn relocation_tables(
    dirs: Seq<DirView>,
    parent: usize,
    depth: nat,
    path_len: nat,
    moved: Seq<DirView>,
    next: nat,
    ty: EntryType,
    types: Seq<EntryType>,
    count: int,
)
    requires
        all_plain(dirs),
        types.contains(ty),
        next >= 1,
        next + tree_size(dirs) <= count + 1,
        count <= usize::MAX,
    ensures
        ({
            let r = relocate_list(dirs, parent, depth, path_len, moved, next);
            list_records_len(r.retained, ty) + list_records_len(r.moved, ty) <= cover(dirs, types)
                + list_records_len(moved, ty) + (r.moved.len() - moved.len()) * relocated_len(
                count,
            )
        }),
    decreases dirs,
{
    let l = relocated_len(count);
    if dirs.len() == 0 {
        assert((moved.len() - moved.len()) * l == 0) by (nonlinear_arith);
        assert(list_records_len(Seq::empty(), ty) == 0);
    } else {
        let init = dirs.drop_last();
        let child = dirs.last();
        assert forall|i: int| 0 <= i < init.len() implies is_plain(#[trigger] init[i]) by {
            assert(is_plain(dirs[i]));
        }
        assert(is_plain(dirs[dirs.len() - 1]));
        assert(all_plain(child.dirs));
        assert(tree_size(dirs) == tree_size(init) + 1 + tree_size(child.dirs));
        relocation_tables(init, parent, depth, path_len, moved, next, ty, types, count);
        relocation_is_counted(init, parent, depth, path_len, moved, next);
        let r = relocate_list(init, parent, depth, path_len, moved, next);
        let len = child_path_len(path_len, child.name);
        let a = r.moved.len() - moved.len();
        longest_covers(child.name, ty, types);
        longest_is_natural(child.name, types);
        if depth + 1 > 8 || len > 255 {
            let name = relocated_name(r.next);
            let path = 9 + name_len(name);
            relocation_tables(
                child.dirs,
                child.id,
                3,
                path,
                r.moved,
                r.next + 1,
                ty,
                types,
                count,
            );
            let sub = relocate_list(child.dirs, child.id, 3, path, r.moved, r.next + 1);
            let away = DirView {
                name,
                relocation: DirectoryRelocation::Moved { id: child.id, logical_parent: parent },
                dirs: sub.retained,
                ..child
            };
            push_records_len(sub.moved, away, ty);
            push_records_len(r.retained, crate::iso::relocate::placeholder(child), ty);
            relocated_identifier_len(r.next, ty, count);
            let b = sub.moved.len() - r.moved.len();
            assert((a + b + 1) * l == a * l + b * l + l) by (nonlinear_arith);
        } else {
            relocation_tables(
                child.dirs,
                child.id,
                depth + 1,
                len,
                r.moved,
                r.next,
                ty,
                types,
                count,
            );
            let sub = relocate_list(child.dirs, child.id, depth + 1, len, r.moved, r.next);
            let stays = DirView { dirs: sub.retained, ..child };
            push_records_len(r.retained, stays, ty);
            let b = sub.moved.len() - r.moved.len();
            assert((a + b) * l == a * l + b * l) by (nonlinear_arith);
        }
    }
}

/// The most bytes of the Rock Ridge fields of directories, by their names.
pub open spec fn tree_fields(dirs: Seq<DirView>) -> int
    decreases dirs,
{
    if dirs.len() == 0 {
        0
    } else {
        tree_fields(dirs.drop_last()) + child_fields_len(dirs.last()) + tree_fields(
            dirs.last().dirs,
        )
    }
}

/// The relocated directories have no more fields than all directories, and relocation keeps
/// the names that all others show.
pub proof fn relocation_fields(
    dirs: Seq<DirView>,
    parent: usize,
    depth: nat,
    path_len: nat,
    moved: Seq<DirView>,
    next: nat,
)
    requires
        all_plain(dirs),
        all_tidy(moved),
    ensures
        ({
            let r = relocate_list(dirs, parent, depth, path_len, moved, next);
            &&& children_fields_len(r.moved) <= children_fields_len(moved) + tree_fields(dirs)
            &&& shows_names(r.retained)
            &&& all_tidy(r.retained)
            &&& all_tidy(r.moved)
        }),
        tree_fields(dirs) >= 0,
    decreases dirs,
{
    if dirs.len() > 0 {
        let init = dirs.drop_last();
        let child = dirs.last();
        assert forall|i: int| 0 <= i < init.len() implies is_plain(#[trigger] init[i]) by {
            assert(is_plain(dirs[i]));
        }
        assert(is_plain(dirs[dirs.len() - 1]));
        assert(all_plain(child.dirs));
        relocation_fields(init, parent, depth, path_len, moved, next);
        let r = relocate_list(init, parent, depth, path_len, moved, next);
        let all = relocate_list(dirs, parent, depth, path_len, moved, next);
        let len = child_path_len(path_len, child.name);
        let kept = all.retained.last();
        if depth + 1 > 8 || len > 255 {
            let path = 9 + name_len(relocated_name(r.next));
            relocation_fields(child.dirs, child.id, 3, path, r.moved, r.next + 1);
            let sub = relocate_list(child.dirs, child.id, 3, path, r.moved, r.next + 1);
            let away = all.moved.last();
            assert(all.moved.drop_last() =~= sub.moved);
            assert(is_tidy(away));
            assert(kept == crate::iso::relocate::placeholder(child));
            assert(is_tidy(kept));
            assert forall|i: int| 0 <= i < all.moved.len() implies is_tidy(
                #[trigger] all.moved[i],
            ) by {
                if i < sub.moved.len() {
                    assert(is_tidy(sub.moved[i]));
                }
            }
        } else {
            relocation_fields(child.dirs, child.id, depth + 1, len, r.moved, r.next);
            assert(is_tidy(kept));
        }
        assert(all.retained.drop_last() =~= r.retained);
        assert forall|i: int| 0 <= i < all.retained.len() implies is_tidy(
            #[trigger] all.retained[i],
        ) && all.retained[i].rrip_name == all.retained[i].name by {
            if i < r.retained.len() {
                assert(all.retained[i] == r.retained[i]);
                assert(is_tidy(r.retained[i]));
                assert(r.retained[i].rrip_name == r.retained[i].name);
            }
        }
    }
}

/// Whether all directories of a tree below its root have the names that they show.
pub open spec fn is_tidy(dir: DirView) -> bool
    decreases dir,
{
    &&& shows_names(dir.dirs)
    &&& forall|i: int| 0 <= i < dir.dirs.len() ==> is_tidy(#[trigger] dir.dirs[i])
}

/// Whether that holds of all of them.
pub open spec fn all_tidy(dirs: Seq<DirView>) -> bool {
    forall|i: int| 0 <= i < dirs.len() ==> is_tidy(#[trigger] dirs[i])
}

/// In a tidy tree every directory shows the names of its children.
pub proof fn tidy_at(dir: DirView, path: Seq<usize>)
    requires
        is_tidy(dir),
        valid_path(dir, path),
    ensures
        shows_names(dir_at(dir, path).dirs),
    decreases path.len(),
{
    if path.len() > 0 {
        assert(is_tidy(dir.dirs[path[0] as int]));
        tidy_at(dir.dirs[path[0] as int], path.drop_first());
    }
}

proof fn plain_is_tidy(dir: DirView)
    requires
        is_plain(dir),
    ensures
        is_tidy(dir),
    decreases dir,
{
    assert forall|i: int| 0 <= i < dir.dirs.len() implies is_tidy(#[trigger] dir.dirs[i]) by {
        assert(is_plain(dir.dirs[i]));
        plain_is_tidy(dir.dirs[i]);
    }
    assert forall|i: int| 0 <= i < dir.dirs.len() implies (#[trigger] dir.dirs[i]).rrip_name
        == dir.dirs[i].name by {
        assert(is_plain(dir.dirs[i]));
    }
}

/// In the tree of an image every directory shows the names of its children, but for the one
/// that holds relocated directories.
pub proof fn built_tree_shows_names(
    tree: Seq<EntryView>,
    rrip: Option<RripOptions>,
    path: Seq<usize>,
)
    requires
        valid_path(built_tree(tree, rrip), path),
        !(is_relocated(tree, rrip) && path == seq![0usize]),
    ensures
        shows_names(dir_at(built_tree(tree, rrip), path).dirs),
{
    let plain = plain_tree(tree);
    let root = built_tree(tree, rrip);
    assert(is_plain(new_dir(Seq::empty())));
    entries_are_plain(new_dir(Seq::empty()), tree, 1);
    if relocates(rrip) {
        relocation_fields(plain.dirs, plain.id, 1, 0, Seq::empty(), 1);
        let r = relocate_list(plain.dirs, plain.id, 1, 0, Seq::empty(), 1);
        if r.moved.len() > 0 {
            let holder = root.dirs[0];
            assert(root.dirs =~= seq![holder] + r.retained);
            assert(holder.dirs == r.moved);
            if path.len() == 0 {
                assert forall|i: int| 0 <= i < root.dirs.len() implies (
                #[trigger] root.dirs[i]).rrip_name == root.dirs[i].name by {
                    if i > 0 {
                        assert(root.dirs[i] == r.retained[i - 1]);
                        assert(r.retained[i - 1].rrip_name == r.retained[i - 1].name);
                    }
                }
            } else {
                let i = path[0] as int;
                let rest = path.drop_first();
                if i == 0 {
                    if rest.len() == 0 {
                        assert(path =~= seq![0usize]);
                    }
                    assert(valid_path(holder, rest));
                    assert(rest.len() > 0);
                    assert(is_tidy(r.moved[rest[0] as int]));
                    assert(dir_at(root, path) == dir_at(holder, rest));
                    tidy_at(r.moved[rest[0] as int], rest.drop_first());
                } else {
                    assert(root.dirs[i] == r.retained[i - 1]);
                    assert(is_tidy(r.retained[i - 1]));
                    tidy_at(root.dirs[i], rest);
                }
            }
        } else {
            assert(is_tidy(root));
            tidy_at(root, path);
        }
    } else {
        plain_is_tidy(root);
        tidy_at(root, path);
    }
}

/// The directory that holds relocated directories is the first in the root, has a name of at
/// most 29 bytes, and no files; the root keeps its other directories' names and its files.
pub proof fn holder_is_known(tree: Seq<EntryView>, rrip: Option<RripOptions>)
    requires
        is_relocated(tree, rrip),
        plain_tree(tree).dirs.len() <= usize::MAX,
    ensures
        ({
            let plain = plain_tree(tree);
            let root = built_tree(tree, rrip);
            let holder = root.dirs[0];
            let r = relocate_list(plain.dirs, plain.id, 1, 0, Seq::empty(), 1);
            &&& root.dirs == seq![holder] + r.retained
            &&& root.files == plain.files
            &&& holder.dirs == r.moved
            &&& holder.files.len() == 0
            &&& holder.rrip_name == holder.name
            &&& holder.name.len() <= 29
            &&& name_len(holder.name) == holder.name.len()
            &&& vstd::utf8::is_ascii_chars(holder.name)
            &&& !(holder.relocation is Placeholder)
            &&& names_of(r.retained) == names_of(plain.dirs)
        }),
{
    let plain = plain_tree(tree);
    let root = built_tree(tree, rrip);
    let r = relocate_list(plain.dirs, plain.id, 1, 0, Seq::empty(), 1);
    assert(is_plain(new_dir(Seq::empty())));
    entries_are_plain(new_dir(Seq::empty()), tree, 1);
    relocation_sums(plain.dirs, plain.id, 1, 0, Seq::empty(), 1, |d: DirView| 0int);
    assert(names_of(r.retained).len() == names_of(plain.dirs).len());
    some_name_is_free(r.retained, 0);
    let k = choose|k: nat| first_free(r.retained, k);
    free_name_soon(r.retained, k);
    crate::iso::relocate::holder_name_len(k as usize);
    let holder = root.dirs[0];
    assert(root.dirs =~= seq![holder] + r.retained);
}

/// Where nothing is relocated, the root keeps its directories' names and its files.
pub proof fn root_is_kept(tree: Seq<EntryView>, rrip: Option<RripOptions>)
    requires
        !is_relocated(tree, rrip),
    ensures
        names_of(built_tree(tree, rrip).dirs) == names_of(plain_tree(tree).dirs),
        built_tree(tree, rrip).files == plain_tree(tree).files,
{
    let plain = plain_tree(tree);
    if relocates(rrip) {
        assert(is_plain(new_dir(Seq::empty())));
        entries_are_plain(new_dir(Seq::empty()), tree, 1);
        relocation_sums(plain.dirs, plain.id, 1, 0, Seq::empty(), 1, |d: DirView| 0int);
    }
}

/// The most bytes of the records of all directories of an image in a path table.
pub proof fn built_tree_tables(
    tree: Seq<EntryView>,
    rrip: Option<RripOptions>,
    ty: EntryType,
    types: Seq<EntryType>,
)
    requires
        types.contains(ty),
        tree_size(plain_tree(tree).dirs) < usize::MAX,
        plain_tree(tree).dirs.len() <= usize::MAX,
    ensures
        ({
            let plain = plain_tree(tree);
            let count = tree_size(plain.dirs) as int;
            records_len(built_tree(tree, rrip), ty) <= cover(plain.dirs, types) + (if relocates(
                rrip,
            ) {
                67 + count * relocated_len(count)
            } else {
                0
            })
        }),
{
    let plain = plain_tree(tree);
    let root = built_tree(tree, rrip);
    let count = tree_size(plain.dirs) as int;
    let l = relocated_len(count);
    assert(is_plain(new_dir(Seq::empty())));
    entries_are_plain(new_dir(Seq::empty()), tree, 1);
    assert(records_len(root, ty) == list_records_len(root.dirs, ty));
    if relocates(rrip) {
        relocation_tables(plain.dirs, plain.id, 1, 0, Seq::empty(), 1, ty, types, count);
        relocation_is_counted(plain.dirs, plain.id, 1, 0, Seq::empty(), 1);
        let r = relocate_list(plain.dirs, plain.id, 1, 0, Seq::empty(), 1);
        let m = r.moved.len() as int;
        assert(list_records_len(Seq::empty(), ty) == 0);
        assert(m * l <= count * l) by (nonlinear_arith)
            requires
                m <= count,
                l >= 0,
        ;
        if r.moved.len() > 0 {
            holder_is_known(tree, rrip);
            let holder = root.dirs[0];
            front_records_len(holder, r.retained, ty);
            assert(vstd::utf8::encode_utf8(holder.name).len() == name_len(holder.name));
            crate::iso::name::first_dot_bounds(vstd::utf8::encode_utf8(holder.name));
            assert(base_identifier(ty, holder.name).len() <= 58);
        } else {
            assert(list_records_len(r.moved, ty) == 0);
        }
    } else {
        plain_tables(plain.dirs, ty, types);
    }
}

proof fn plain_tables(dirs: Seq<DirView>, ty: EntryType, types: Seq<EntryType>)
    requires
        all_plain(dirs),
        types.contains(ty),
    ensures
        list_records_len(dirs, ty) <= cover(dirs, types),
    decreases dirs,
{
    if dirs.len() > 0 {
        let init = dirs.drop_last();
        let child = dirs.last();
        assert forall|i: int| 0 <= i < init.len() implies is_plain(#[trigger] init[i]) by {
            assert(is_plain(dirs[i]));
        }
        assert(is_plain(dirs[dirs.len() - 1]));
        assert(all_plain(child.dirs));
        plain_tables(init, ty, types);
        plain_tables(child.dirs, ty, types);
        longest_covers(child.name, ty, types);
        assert(records_len(child, ty) == list_records_len(child.dirs, ty));
    }
}

proof fn front_records_len(child: DirView, dirs: Seq<DirView>, ty: EntryType)
    requires
        !(child.relocation is Placeholder),
    ensures
        list_records_len(seq![child] + dirs, ty) == table_record_len(child, ty)
            + list_records_len(child.dirs, ty) + list_records_len(dirs, ty),
    decreases dirs.len(),
{
    let all = seq![child] + dirs;
    if dirs.len() == 0 {
        assert(all =~= Seq::empty().push(child));
        push_records_len(Seq::empty(), child, ty);
        assert(list_records_len(Seq::empty(), ty) == 0);
    } else {
        front_records_len(child, dirs.drop_last(), ty);
        assert(all.drop_last() =~= seq![child] + dirs.drop_last());
        assert(all.last() == dirs.last());
    }
}

} // verus!
