//! What making an image bootable changes in it.

#[allow(unused_imports)]
use crate::iso::boot::{
    catalog_file_name, entries_bytes, header_bytes, sections_bytes, with_section, x86_validation,
    BootEntryOptions, BootOptions, SectionView,
};
#[allow(unused_imports)]
use crate::iso::boot_image::{
    catalog_bytes, catalog_step, catalog_steps, info_table, overwritten, with_catalog,
    with_info_table,
};
#[allow(unused_imports)]
use crate::iso::content_laws::{join_starts_with, lies_at, padded_starts_with, still_lies};
#[allow(unused_imports)]
use crate::iso::emit::{padded, padded_is_aligned};
#[allow(unused_imports)]
use crate::iso::image::{built_tree, layout, order_of};
#[allow(unused_imports)]
use crate::iso::plan::{contents_of, same_tree};
#[allow(unused_imports)]
use crate::iso::plan_laws::{countable, placed_files_are_in_order};
#[allow(unused_imports)]
use crate::iso::relocate::{
    child_path_len, first_free, holder_name, relocate_list, relocated_name, relocated_root,
};
#[allow(unused_imports)]
use crate::iso::tree::{name_len, relocates, EntryView, KindView};
#[allow(unused_imports)]
use crate::iso::types::{DirectoryRef, EntryType, RripOptions};
#[allow(unused_imports)]
use crate::iso::written::{
    dir_at, directory_count, find_dir, find_name, find_parts, fresh_dir, lookup_parts, new_dir,
    valid_path, with_entries, DirView,
};
use vstd::prelude::*;

verus! {

/// Whether a boot image gets a boot information table.
pub open spec fn gets_table(entry: BootEntryOptions) -> bool {
    entry.boot_info_table || entry.grub2_boot_info
}

/// Whether a boot image is the file with the given first extent.
pub open spec fn is_image(root: DirView, entry: BootEntryOptions, r: DirectoryRef) -> bool {
    find_parts(root, lookup_parts(entry.boot_image_path@)) == Some(r)
}

/// Whether making the image bootable changes the file with the given first extent: it is a
/// boot image that gets a boot information table, or the file of the boot catalog.
pub open spec fn is_patched(root: DirView, boot: BootOptions, r: DirectoryRef) -> bool {
    ||| gets_table(boot.default) && is_image(root, boot.default, r)
    ||| exists|i: int|
        0 <= i < boot.entries@.len() && gets_table((#[trigger] boot.entries@[i]).1) && is_image(
            root,
            boot.entries@[i].1,
            r,
        )
    ||| boot.write_boot_catalog && find_parts(root, lookup_parts(catalog_file_name())) == Some(r)
}

/// Whether a place of `n` bytes lies before or behind an extent.
pub open spec fn clear_of(r: DirectoryRef, at: int, n: int) -> bool {
    at + n <= r.extent.0 * 2048 || r.extent.0 * 2048 + r.size <= at
}

proof fn overwriting_around(data: Seq<u8>, from: int, new: Seq<u8>, at: int, bytes: Seq<u8>)
    requires
        0 <= from,
        from + new.len() <= data.len(),
        from + new.len() <= at || at + bytes.len() <= from,
        lies_at(data, at, bytes),
    ensures
        lies_at(overwritten(data, from, new), at, bytes),
        overwritten(data, from, new).len() == data.len(),
{
    assert(overwritten(data, from, new).subrange(at, at + bytes.len()) =~= data.subrange(
        at,
        at + bytes.len(),
    ));
}

proof fn step_keeps(
    root: DirView,
    s: crate::iso::boot_image::CatalogState,
    section: Option<crate::iso::boot::BootSectionOptions>,
    entry: BootEntryOptions,
    at: int,
    bytes: Seq<u8>,
)
    requires
        catalog_step(root, s, section, entry) is Ok,
        lies_at(s.data, at, bytes),
        forall|r: DirectoryRef|
            r.size > 0 && gets_table(entry) && #[trigger] is_image(root, entry, r) ==> clear_of(
                r,
                at,
                bytes.len() as int,
            ),
    ensures
        lies_at(catalog_step(root, s, section, entry)->Ok_0.data, at, bytes),
        catalog_step(root, s, section, entry)->Ok_0.data.len() == s.data.len(),
{
    let image = find_parts(root, lookup_parts(entry.boot_image_path@))->Some_0;
    if gets_table(entry) {
        assert(is_image(root, entry, image));
        assert(with_info_table(s.data, entry, image) is Ok);
        let sum = crate::iso::boot_image::words_sum(
            crate::iso::boot_image::checked_part(s.data, image),
        ) as u32;
        let table = info_table(entry, image, sum);
        assert(table.len() <= 56);
        overwriting_around(s.data, image.extent.0 * 2048 + 8, table, at, bytes);
    }
}

proof fn steps_keep(
    root: DirView,
    boot: BootOptions,
    data: Seq<u8>,
    n: int,
    at: int,
    bytes: Seq<u8>,
)
    requires
        0 <= n <= boot.entries@.len(),
        catalog_steps(root, boot, data, n) is Ok,
        lies_at(data, at, bytes),
        forall|r: DirectoryRef|
            r.size > 0 && #[trigger] is_patched(root, boot, r) ==> clear_of(
                r,
                at,
                bytes.len() as int,
            ),
    ensures
        lies_at(catalog_steps(root, boot, data, n)->Ok_0.data, at, bytes),
        catalog_steps(root, boot, data, n)->Ok_0.data.len() == data.len(),
    decreases n,
{
    let entry = if n == 0 {
        boot.default
    } else {
        boot.entries@[n - 1].1
    };
    assert forall|r: DirectoryRef|
        r.size > 0 && gets_table(entry) && #[trigger] is_image(
            root,
            entry,
            r,
        ) implies clear_of(r, at, bytes.len() as int) by {
        assert(is_patched(root, boot, r));
    }
    if n == 0 {
        let s = crate::iso::boot_image::CatalogState {
            data,
            default: crate::iso::boot::boot_entry_bytes(
                crate::iso::boot::EmulationType::NoEmulation,
                0,
                0,
                0,
            ),
            sections: Seq::empty(),
        };
        step_keeps(root, s, None, entry, at, bytes);
    } else {
        steps_keep(root, boot, data, n - 1, at, bytes);
        let s = catalog_steps(root, boot, data, n - 1)->Ok_0;
        step_keeps(root, s, Some(boot.entries@[n - 1].0), entry, at, bytes);
    }
}

/// A catalog has bytes.
pub proof fn catalog_is_not_empty(s: crate::iso::boot_image::CatalogState)
    ensures
        catalog_bytes(s).len() > 0,
{
    assert(x86_validation().len() == 32);
}

/// Boot catalog and boot information tables leave alone what lies outside the files that
/// they are written to.
pub proof fn booting_keeps(
    root: DirView,
    boot: BootOptions,
    data: Seq<u8>,
    at: int,
    bytes: Seq<u8>,
)
    requires
        with_catalog(root, boot, data) is Ok,
        lies_at(data, at, bytes),
        forall|r: DirectoryRef|
            r.size > 0 && #[trigger] is_patched(root, boot, r) ==> clear_of(
                r,
                at,
                bytes.len() as int,
            ),
    ensures
        lies_at(with_catalog(root, boot, data)->Ok_0.0, at, bytes),
{
    let n = boot.entries@.len() as int;
    let s = catalog_steps(root, boot, padded(data), n)->Ok_0;
    padded_starts_with(data);
    still_lies(padded(data), data, at, bytes);
    steps_keep(root, boot, padded(data), n, at, bytes);
    catalog_is_not_empty(s);
    if boot.write_boot_catalog {
        let file = find_parts(root, lookup_parts(catalog_file_name()))->Some_0;
        assert(is_patched(root, boot, file));
        overwriting_around(s.data, file.extent.0 * 2048, catalog_bytes(s), at, bytes);
    } else {
        join_starts_with(s.data, catalog_bytes(s));
        still_lies(s.data + catalog_bytes(s), s.data, at, bytes);
        padded_starts_with(s.data + catalog_bytes(s));
        still_lies(padded(s.data + catalog_bytes(s)), s.data + catalog_bytes(s), at, bytes);
    }
}

/// The boot catalog lies at its sector.
pub proof fn catalog_lies(root: DirView, boot: BootOptions, data: Seq<u8>)
    requires
        with_catalog(root, boot, data) is Ok,
        with_catalog(root, boot, data)->Ok_0.0.len() <= 2048 * u32::MAX,
    ensures
        lies_at(
            with_catalog(root, boot, data)->Ok_0.0,
            with_catalog(root, boot, data)->Ok_0.1 * 2048,
            catalog_bytes(
                catalog_steps(root, boot, padded(data), boot.entries@.len() as int)->Ok_0,
            ),
        ),
{
    let n = boot.entries@.len() as int;
    padded_is_aligned(data);
    let s = catalog_steps(root, boot, padded(data), n)->Ok_0;
    let bytes = catalog_bytes(s);
    catalog_is_not_empty(s);
    steps_keep_length(root, boot, padded(data), n);
    if boot.write_boot_catalog {
        let file = find_parts(root, lookup_parts(catalog_file_name()))->Some_0;
        let at = file.extent.0 * 2048;
        let after = overwritten(s.data, at, bytes);
        assert(after.subrange(at, at + bytes.len()) =~= bytes);
    } else {
        let at = s.data.len() as int;
        padded_is_aligned(s.data + bytes);
        assert((s.data + bytes).subrange(at, at + bytes.len()) =~= bytes);
        padded_starts_with(s.data + bytes);
        still_lies(padded(s.data + bytes), s.data + bytes, at, bytes);
    }
}

/// Boot information tables lie in what is there.
pub proof fn steps_keep_length(root: DirView, boot: BootOptions, data: Seq<u8>, n: int)
    requires
        0 <= n <= boot.entries@.len(),
        catalog_steps(root, boot, data, n) is Ok,
    ensures
        catalog_steps(root, boot, data, n)->Ok_0.data.len() == data.len(),
{
    let nothing = Seq::<u8>::empty();
    assert(data.subrange(0, 0) =~= nothing);
    assert(lies_at(data, 0, nothing));
    steps_keep(root, boot, data, n, 0, nothing);
}

proof fn entry_bytes_len(kind: crate::iso::boot::EmulationType, count: u16, sector: u32)
    ensures
        crate::iso::boot::boot_entry_bytes(kind, 0, count, sector).len() == 32,
{
}

proof fn one_more_section(sections: Seq<SectionView>, section: SectionView)
    requires
        sections.len() > 0 ==> sections.last().header.len() > 0,
    ensures
        sections_bytes(with_section(sections, section)).len() == sections_bytes(sections).len()
            + section.header.len() + entries_bytes(section.entries).len(),
{
    let all = with_section(sections, section);
    assert(all.last() == section);
    if sections.len() > 0 {
        let part = all.drop_last();
        assert(part.drop_last() =~= sections.drop_last());
        assert(part.last().header.len() == sections.last().header.len());
        assert(part.last().entries == sections.last().entries);
        assert(sections_bytes(part) == sections_bytes(part.drop_last()) + part.last().header
            + entries_bytes(part.last().entries));
        assert(sections_bytes(sections) == sections_bytes(sections.drop_last())
            + sections.last().header + entries_bytes(sections.last().entries));
        assert(sections_bytes(part).len() == sections_bytes(sections).len());
    } else {
        assert(all.drop_last() =~= sections);
    }
    assert(sections_bytes(all) == sections_bytes(all.drop_last()) + section.header + entries_bytes(
        section.entries,
    ));
}

/// A catalog has 96 bytes, and 64 more for each section.
pub proof fn catalog_len(root: DirView, boot: BootOptions, data: Seq<u8>, n: int)
    requires
        0 <= n <= boot.entries@.len(),
        catalog_steps(root, boot, data, n) is Ok,
    ensures
        catalog_steps(root, boot, data, n)->Ok_0.default.len() == 32,
        sections_bytes(catalog_steps(root, boot, data, n)->Ok_0.sections).len() == 64 * n,
        ({
            let sections = catalog_steps(root, boot, data, n)->Ok_0.sections;
            sections.len() > 0 ==> sections.last().header.len() > 0
        }),
        catalog_bytes(catalog_steps(root, boot, data, n)->Ok_0).len() == 96 + 64 * n,
    decreases n,
{
    let s = catalog_steps(root, boot, data, n)->Ok_0;
    assert(x86_validation().len() == 32);
    assert(crate::iso::boot::terminator().len() == 32);
    if n == 0 {
        let entry = boot.default;
        let image = find_parts(root, lookup_parts(entry.boot_image_path@))->Some_0;
        entry_bytes_len(
            entry.emulation,
            crate::iso::boot_image::load_size_of(entry, image.size),
            image.extent.0 as u32,
        );
    } else {
        catalog_len(root, boot, data, n - 1);
        let (o, entry) = boot.entries@[n - 1];
        let before = catalog_steps(root, boot, data, n - 1)->Ok_0;
        let image = find_parts(root, lookup_parts(entry.boot_image_path@))->Some_0;
        let size = crate::iso::boot_image::load_size_of(entry, image.size);
        let bytes = crate::iso::boot::boot_entry_bytes(
            entry.emulation,
            0,
            size,
            image.extent.0 as u32,
        );
        entry_bytes_len(entry.emulation, size, image.extent.0 as u32);
        let section = SectionView {
            header: header_bytes(0x91, o.platform.spec_to_u8()),
            entries: seq![bytes],
        };
        assert(section.header.len() == 32);
        one_more_section(before.sections, section);
        assert(section.entries.drop_last() =~= Seq::empty());
        assert(section.entries.last() == bytes);
        assert(entries_bytes(section.entries.drop_last()).len() == 0);
        assert(s.sections == with_section(before.sections, section));
        assert(s.default == before.default);
    }
}

/// Making an image bootable takes as many bytes as the catalog in whole sectors, where the
/// catalog has no file of its own, and else none.
pub proof fn booting_length(root: DirView, boot: BootOptions, data: Seq<u8>)
    requires
        with_catalog(root, boot, data) is Ok,
    ensures
        ({
            let after = with_catalog(root, boot, data)->Ok_0.0;
            let s = catalog_steps(root, boot, padded(data), boot.entries@.len() as int)->Ok_0;
            &&& after.len() % 2048 == 0
            &&& boot.write_boot_catalog ==> after.len() == padded(data).len()
            &&& !boot.write_boot_catalog ==> after.len() == padded(data).len() + padded(
                catalog_bytes(s),
            ).len()
        }),
{
    let n = boot.entries@.len() as int;
    padded_is_aligned(data);
    let s = catalog_steps(root, boot, padded(data), n)->Ok_0;
    steps_keep_length(root, boot, padded(data), n);
    padded_is_aligned(s.data + catalog_bytes(s));
    padded_is_aligned(catalog_bytes(s));
    let a = s.data.len() as int;
    let b = catalog_bytes(s).len() as int;
    assert((a + b + 2047) / 2048 == a / 2048 + (b + 2047) / 2048);
}

/// Whether no file of a tree has a place, and nothing is in a placeholder.
pub open spec fn unplaced(dir: DirView) -> bool
    decreases dir,
{
    &&& dir.relocation is Placeholder ==> dir.files.len() == 0 && dir.dirs.len() == 0
    &&& forall|i: int|
        0 <= i < dir.files.len() ==> (#[trigger] dir.files[i]).entry.size == 0
            && dir.files[i].additional_extents.len() == 0 && !(dir.files[i].kind is Directory)
    &&& forall|i: int| 0 <= i < dir.dirs.len() ==> unplaced(#[trigger] dir.dirs[i])
}

spec fn all_unplaced(dirs: Seq<DirView>) -> bool {
    forall|i: int| 0 <= i < dirs.len() ==> unplaced(#[trigger] dirs[i])
}

proof fn entries_are_unplaced(dir: DirView, entries: Seq<EntryView>, id: int)
    requires
        unplaced(dir),
        dir.relocation is InPlace,
    ensures
        unplaced(with_entries(dir, entries, id)),
        with_entries(dir, entries, id).relocation is InPlace,
    decreases entries,
{
    if entries.len() > 0 {
        let init = entries.drop_last();
        let last = entries.last();
        entries_are_unplaced(dir, init, id);
        let before = with_entries(dir, init, id);
        let all = with_entries(dir, entries, id);
        match last.kind {
            KindView::Directory(children) => {
                let next = id + directory_count(init);
                let fresh = fresh_dir(last, next);
                assert(unplaced(fresh));
                entries_are_unplaced(fresh, children, next + 1);
                assert forall|i: int| 0 <= i < all.dirs.len() implies unplaced(
                    #[trigger] all.dirs[i],
                ) by {
                    if i < before.dirs.len() {
                        assert(unplaced(before.dirs[i]));
                    }
                }
                assert(all.files == before.files);
            },
            _ => {
                assert forall|i: int| 0 <= i < all.dirs.len() implies unplaced(
                    #[trigger] all.dirs[i],
                ) by {
                    assert(unplaced(before.dirs[i]));
                }
                assert forall|i: int| 0 <= i < all.files.len() implies (
                #[trigger] all.files[i]).entry.size == 0 && all.files[i].additional_extents.len()
                    == 0 && !(all.files[i].kind is Directory) by {
                    if i < before.files.len() {
                        assert(before.files[i].entry.size == 0);
                    }
                }
            },
        }
    }
}

proof fn relocation_keeps_unplaced(
    dirs: Seq<DirView>,
    parent: usize,
    depth: nat,
    path_len: nat,
    moved: Seq<DirView>,
    next: nat,
)
    requires
        all_unplaced(dirs),
        all_unplaced(moved),
    ensures
        all_unplaced(relocate_list(dirs, parent, depth, path_len, moved, next).retained),
        all_unplaced(relocate_list(dirs, parent, depth, path_len, moved, next).moved),
        relocate_list(dirs, parent, depth, path_len, moved, next).retained.len() == dirs.len(),
    decreases dirs,
{
    if dirs.len() > 0 {
        let init = dirs.drop_last();
        let child = dirs.last();
        assert forall|i: int| 0 <= i < init.len() implies unplaced(#[trigger] init[i]) by {
            assert(unplaced(dirs[i]));
        }
        relocation_keeps_unplaced(init, parent, depth, path_len, moved, next);
        let r = relocate_list(init, parent, depth, path_len, moved, next);
        assert(unplaced(dirs[dirs.len() - 1]));
        assert(all_unplaced(child.dirs));
        let len = child_path_len(path_len, child.name);
        if depth + 1 > 8 || len > 255 {
            let name = relocated_name(r.next);
            relocation_keeps_unplaced(
                child.dirs,
                child.id,
                3,
                9 + name_len(name),
                r.moved,
                r.next + 1,
            );
        } else {
            relocation_keeps_unplaced(child.dirs, child.id, depth + 1, len, r.moved, r.next);
        }
    }
}

/// The tree of an image is not laid out yet.
pub proof fn built_tree_is_unplaced(tree: Seq<EntryView>, rrip: Option<RripOptions>)
    ensures
        unplaced(built_tree(tree, rrip)),
{
    let empty = new_dir(Seq::empty());
    assert(unplaced(empty));
    entries_are_unplaced(empty, tree, 1);
    let root = with_entries(empty, tree, 1);
    if relocates(rrip) {
        relocation_keeps_unplaced(root.dirs, root.id, 1, 0, Seq::empty(), 1);
        let r = relocate_list(root.dirs, root.id, 1, 0, Seq::empty(), 1);
        let all = relocated_root(root);
        if r.moved.len() > 0 {
            let k = choose|k: nat| first_free(r.retained, k);
            let holder = DirView { id: usize::MAX, dirs: r.moved, ..new_dir(holder_name(k)) };
            assert(unplaced(holder)) by {
                assert forall|i: int| 0 <= i < r.moved.len() implies unplaced(
                    #[trigger] holder.dirs[i],
                ) by {
                    assert(unplaced(r.moved[i]));
                }
            }
            assert forall|i: int| 0 <= i < all.dirs.len() implies unplaced(
                #[trigger] all.dirs[i],
            ) by {
                if i > 0 {
                    assert(all.dirs[i] == r.retained[i - 1]);
                } else {
                    assert(all.dirs[0] == holder);
                }
            }
        } else {
            assert forall|i: int| 0 <= i < all.dirs.len() implies unplaced(
                #[trigger] all.dirs[i],
            ) by {
                assert(unplaced(r.retained[i]));
            }
        }
    }
}

/// The same holds of every directory below.
pub proof fn unplaced_at(dir: DirView, path: Seq<usize>)
    requires
        unplaced(dir),
        valid_path(dir, path),
    ensures
        unplaced(dir_at(dir, path)),
    decreases path.len(),
{
    if path.len() > 0 {
        assert(unplaced(dir.dirs[path[0] as int]));
        unplaced_at(dir.dirs[path[0] as int], path.drop_first());
    }
}

/// Whether a file of a tree has the given first extent.
pub open spec fn is_file(dir: DirView, q: (Seq<usize>, usize), r: DirectoryRef) -> bool {
    &&& valid_path(dir, q.0)
    &&& q.1 < dir_at(dir, q.0).files.len()
    &&& dir_at(dir, q.0).files[q.1 as int].entry == r
}

proof fn find_name_bounds(files: Seq<crate::iso::written::FileView>, name: Seq<u8>)
    ensures
        0 <= find_name(files, name) <= files.len(),
    decreases files.len(),
{
    if files.len() > 0 {
        find_name_bounds(files.drop_first(), name);
    }
}

proof fn find_dir_bounds(dirs: Seq<DirView>, name: Seq<u8>)
    ensures
        0 <= find_dir(dirs, name) <= dirs.len(),
    decreases dirs.len(),
{
    if dirs.len() > 0 {
        find_dir_bounds(dirs.drop_first(), name);
    }
}

/// What is found is a file of the tree.
proof fn found_file(dir: DirView, parts: Seq<Seq<u8>>) -> (q: (Seq<usize>, usize))
    requires
        countable(dir),
        find_parts(dir, parts) is Some,
    ensures
        is_file(dir, q, find_parts(dir, parts)->Some_0),
    decreases parts.len(),
{
    if parts.len() == 1 {
        find_name_bounds(dir.files, parts[0]);
        (Seq::empty(), find_name(dir.files, parts[0]) as usize)
    } else {
        find_dir_bounds(dir.dirs, parts[0]);
        let i = find_dir(dir.dirs, parts[0]);
        assert(countable(dir.dirs[i]));
        let q = found_file(dir.dirs[i], parts.drop_first());
        let path = seq![i as usize] + q.0;
        assert(path.drop_first() =~= q.0);
        (path, q.1)
    }
}

proof fn same_tree_is_countable(a: DirView, b: DirView)
    requires
        same_tree(a, b, false),
        countable(a),
    ensures
        countable(b),
    decreases a,
{
    assert forall|i: int| 0 <= i < b.dirs.len() implies countable(#[trigger] b.dirs[i]) by {
        assert(countable(a.dirs[i]));
        assert(same_tree(a.dirs[i], b.dirs[i], false));
        same_tree_is_countable(a.dirs[i], b.dirs[i]);
    }
}

/// A file that booting changes is one of those laid out, and has as many bytes as its first
/// extent says.
pub proof fn patched_file(
    tree: Seq<EntryView>,
    types: Seq<EntryType>,
    rrip: Option<RripOptions>,
    time: Seq<u8>,
    start: int,
    boot: BootOptions,
    r: DirectoryRef,
) -> (j: int)
    requires
        types.no_duplicates(),
        start >= 0,
        countable(built_tree(tree, rrip)),
        layout(built_tree(tree, rrip), types, rrip, time, start) is Ok,
        r.size > 0,
        is_patched(layout(built_tree(tree, rrip), types, rrip, time, start)->Ok_0.root, boot, r),
    ensures
        ({
            let root = built_tree(tree, rrip);
            let full = layout(root, types, rrip, time, start)->Ok_0.root;
            let q = order_of(root)[j];
            let file = dir_at(full, q.0).files[q.1 as int];
            &&& 0 <= j < order_of(root).len()
            &&& file.entry == r
            &&& r.size <= contents_of(file.kind).len()
        }),
{
    let root = built_tree(tree, rrip);
    let full = layout(root, types, rrip, time, start)->Ok_0.root;
    crate::iso::plan_laws::layout_keeps_the_tree(root, types, rrip, time, start);
    same_tree_is_countable(root, full);
    let q = if gets_table(boot.default) && is_image(full, boot.default, r) {
        found_file(full, lookup_parts(boot.default.boot_image_path@))
    } else if boot.write_boot_catalog && find_parts(full, lookup_parts(catalog_file_name()))
        == Some(r) {
        found_file(full, lookup_parts(catalog_file_name()))
    } else {
        let i = choose|i: int|
            0 <= i < boot.entries@.len() && gets_table((#[trigger] boot.entries@[i]).1)
                && is_image(full, boot.entries@[i].1, r);
        found_file(full, lookup_parts(boot.entries@[i].1.boot_image_path@))
    };
    assert(is_file(full, q, r));
    crate::iso::plan_laws::same_tree_at_back(root, full, q.0);
    built_tree_is_unplaced(tree, rrip);
    unplaced_at(root, q.0);
    assert(dir_at(root, q.0).files[q.1 as int].entry.size == 0);
    placed_files_are_in_order(root, types, rrip, time, start, q);
    choose|j: int| 0 <= j < order_of(root).len() && order_of(root)[j] == q
}

} // verus!
