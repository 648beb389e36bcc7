//! Path tables.

use crate::bytes::{push_all, push_be16, push_be32, push_le16, push_le32};
#[allow(unused_imports)]
use crate::bytes::{be16, be32, le16, le32};
#[allow(unused_imports)]
use crate::iso::emit::entry_of;
use crate::iso::emit::get_entry;
use crate::iso::error::IsoCreationError;
use crate::iso::name::ConvertedName;
#[allow(unused_imports)]
use crate::iso::name::base_identifier;
use crate::iso::order::sort_positions;
#[allow(unused_imports)]
use crate::iso::order::{
    key_views, positions, stable_order, stable_order_exists, stable_order_is_unique,
};
use crate::iso::types::EntryType;
#[allow(unused_imports)]
use crate::iso::written::DirView;
use crate::iso::written::{DirectoryRelocation, WrittenDirectory, WrittenFiles};
use vstd::prelude::*;

verus! {

/// The byte order of a path table.
#[derive(Debug, Clone, Copy, PartialEq, Eq, Structural)]
pub enum EndianType {
    /// Least significant byte first.
    LittleEndian,
    /// Most significant byte first.
    BigEndian,
}

/// A record of a path table: the identifier's length, no extended attributes, the extent,
/// the parent's number, the identifier filled up to an even length.
pub open spec fn table_record(endian: EndianType, parent: u16, extent: u32, name: Seq<u8>) -> Seq<
    u8,
> {
    let head = match endian {
        EndianType::LittleEndian => le32(extent) + le16(parent),
        EndianType::BigEndian => be32(extent) + be16(parent),
    };
    seq![name.len() as u8, 0u8] + head + name + (if name.len() % 2 == 0 {
        Seq::empty()
    } else {
        seq![0u8]
    })
}

/// Appends a record of a path table.
fn write_pt_record(
    data: &mut Vec<u8>,
    endian: EndianType,
    parent_number: u16,
    extent: u32,
    name: &[u8],
)
    ensures
        final(data)@ == old(data)@ + table_record(endian, parent_number, extent, name@),
{
    data.push(name.len() as u8);
    data.push(0);
    match endian {
        EndianType::LittleEndian => {
            push_le32(data, extent);
            push_le16(data, parent_number);
        },
        EndianType::BigEndian => {
            push_be32(data, extent);
            push_be16(data, parent_number);
        },
    }
    push_all(data, name);
    if name.len() % 2 != 0 {
        data.push(0);
    }
    assert(data@ =~= old(data)@ + table_record(endian, parent_number, extent, name@));
}

/// The directories that are not placeholders.
pub open spec fn kept(dirs: Seq<DirView>) -> Seq<DirView>
    decreases dirs.len(),
{
    if dirs.len() == 0 {
        Seq::empty()
    } else if dirs.last().relocation is Placeholder {
        kept(dirs.drop_last())
    } else {
        kept(dirs.drop_last()).push(dirs.last())
    }
}

/// The identifiers of directories in a namespace.
pub open spec fn identifiers(dirs: Seq<DirView>, ty: EntryType) -> Seq<Seq<u8>> {
    Seq::new(dirs.len(), |i: int| base_identifier(ty, dirs[i].name))
}

/// Directories in the given order.
pub open spec fn picked(dirs: Seq<DirView>, perm: Seq<int>) -> Seq<DirView> {
    Seq::new(perm.len(), |i: int| dirs[perm[i]])
}

/// The children that are not placeholders, by identifier, and those with one identifier
/// in the order they had.
pub open spec fn ordered(dirs: Seq<DirView>, ty: EntryType) -> Seq<DirView> {
    picked(
        kept(dirs),
        choose|perm: Seq<int>| stable_order(identifiers(kept(dirs), ty), perm),
    )
}

/// The records of directories with one parent.
pub open spec fn sibling_records(
    dirs: Seq<DirView>,
    parent: int,
    ty: EntryType,
    endian: EndianType,
) -> Seq<u8>
    decreases dirs.len(),
{
    if dirs.len() == 0 {
        Seq::empty()
    } else {
        sibling_records(dirs.drop_last(), parent, ty, endian) + table_record(
            endian,
            parent as u16,
            entry_of(dirs.last(), ty).extent.0 as u32,
            base_identifier(ty, dirs.last().name),
        )
    }
}

/// The records of the children of numbered directories.
pub open spec fn level_records(level: Seq<(DirView, int)>, ty: EntryType, endian: EndianType) -> Seq<
    u8,
>
    decreases level.len(),
{
    if level.len() == 0 {
        Seq::empty()
    } else {
        level_records(level.drop_last(), ty, endian) + sibling_records(
            ordered(level.last().0.dirs, ty),
            level.last().1,
            ty,
            endian,
        )
    }
}

/// The children of numbered directories, numbered from `next` on.
pub open spec fn level_below(level: Seq<(DirView, int)>, ty: EntryType, next: int) -> Seq<
    (DirView, int),
>
    decreases level.len(),
{
    if level.len() == 0 {
        Seq::empty()
    } else {
        let before = level_below(level.drop_last(), ty, next);
        let own = ordered(level.last().0.dirs, ty);
        before + Seq::new(own.len(), |i: int| (own[i], next + before.len() + i))
    }
}

/// How many levels there are below a directory.
pub open spec fn height(dir: DirView) -> nat
    decreases dir, 0nat,
{
    list_height(dir.dirs)
}

/// How many levels the directories and those below them take.
pub open spec fn list_height(dirs: Seq<DirView>) -> nat
    decreases dirs, 1nat,
{
    if dirs.len() == 0 {
        0
    } else {
        let a = list_height(dirs.drop_last());
        let b = 1 + height(dirs.last());
        if a > b {
            a
        } else {
            b
        }
    }
}

/// How many levels the numbered directories and those below them take.
pub open spec fn level_height(level: Seq<(DirView, int)>) -> nat
    decreases level.len(),
{
    if level.len() == 0 {
        0
    } else {
        let a = level_height(level.drop_last());
        let b = 1 + height(level.last().0);
        if a > b {
            a
        } else {
            b
        }
    }
}

proof fn child_is_lower(dirs: Seq<DirView>, i: int)
    requires
        0 <= i < dirs.len(),
    ensures
        1 + height(dirs[i]) <= list_height(dirs),
    decreases dirs.len(),
{
    if i < dirs.len() - 1 {
        child_is_lower(dirs.drop_last(), i);
    }
}

proof fn member_is_lower(level: Seq<(DirView, int)>, i: int)
    requires
        0 <= i < level.len(),
    ensures
        1 + height(level[i].0) <= level_height(level),
    decreases level.len(),
{
    if i < level.len() - 1 {
        member_is_lower(level.drop_last(), i);
    }
}

proof fn level_is_bounded(level: Seq<(DirView, int)>, bound: nat)
    requires
        forall|i: int| 0 <= i < level.len() ==> 1 + height((#[trigger] level[i]).0) <= bound,
    ensures
        level_height(level) <= bound,
    decreases level.len(),
{
    if level.len() > 0 {
        level_is_bounded(level.drop_last(), bound);
        assert(1 + height(level[level.len() - 1].0) <= bound);
    }
}

proof fn kept_are_children(dirs: Seq<DirView>)
    ensures
        kept(dirs).len() <= dirs.len(),
        forall|i: int|
            0 <= i < kept(dirs).len() ==> 1 + height(#[trigger] kept(dirs)[i]) <= list_height(dirs),
    decreases dirs.len(),
{
    if dirs.len() > 0 {
        kept_are_children(dirs.drop_last());
    }
}

proof fn ordered_are_children(dirs: Seq<DirView>, ty: EntryType)
    ensures
        ordered(dirs, ty).len() == kept(dirs).len(),
        forall|i: int|
            0 <= i < ordered(dirs, ty).len() ==> 1 + height(#[trigger] ordered(dirs, ty)[i])
                <= list_height(dirs),
{
    let keys = identifiers(kept(dirs), ty);
    stable_order_exists(keys);
    let perm = choose|perm: Seq<int>| stable_order(keys, perm);
    assert(stable_order(keys, perm));
    kept_are_children(dirs);
    assert forall|i: int| 0 <= i < ordered(dirs, ty).len() implies 1 + height(
        #[trigger] ordered(dirs, ty)[i],
    ) <= list_height(dirs) by {
        assert(0 <= perm[i] < keys.len());
        assert(ordered(dirs, ty)[i] == kept(dirs)[perm[i]]);
    }
}

proof fn below_is_lower(level: Seq<(DirView, int)>, ty: EntryType, next: int, bound: nat)
    requires
        forall|i: int| 0 <= i < level.len() ==> 1 + height((#[trigger] level[i]).0) <= bound,
    ensures
        forall|i: int|
            0 <= i < level_below(level, ty, next).len() ==> 2 + height(
                (#[trigger] level_below(level, ty, next)[i]).0,
            ) <= bound,
    decreases level.len(),
{
    if level.len() > 0 {
        let init = level.drop_last();
        assert forall|i: int| 0 <= i < init.len() implies 1 + height((#[trigger] init[i]).0)
            <= bound by {
            assert(1 + height(level[i].0) <= bound);
        }
        below_is_lower(init, ty, next, bound);
        let last = level[level.len() - 1];
        assert(1 + height(last.0) <= bound);
        ordered_are_children(last.0.dirs, ty);
        let before = level_below(init, ty, next);
        let own = ordered(last.0.dirs, ty);
        assert forall|i: int| 0 <= i < level_below(level, ty, next).len() implies 2 + height(
            (#[trigger] level_below(level, ty, next)[i]).0,
        ) <= bound by {
            if i < before.len() {
                assert(level_below(level, ty, next)[i] == before[i]);
            } else {
                assert(level_below(level, ty, next)[i].0 == own[i - before.len()]);
            }
        }
    }
}

/// The levels below a level are fewer.
pub proof fn next_level_is_lower(level: Seq<(DirView, int)>, ty: EntryType, next: int)
    requires
        level.len() > 0,
    ensures
        level_height(level_below(level, ty, next)) < level_height(level),
{
    let bound = level_height(level);
    assert forall|i: int| 0 <= i < level.len() implies 1 + height((#[trigger] level[i]).0)
        <= bound by {
        member_is_lower(level, i);
    }
    member_is_lower(level, 0);
    below_is_lower(level, ty, next, bound);
    let below = level_below(level, ty, next);
    assert forall|i: int| 0 <= i < below.len() implies 1 + height((#[trigger] below[i]).0)
        <= bound - 1 by {
        assert(2 + height(below[i].0) <= bound);
    }
    level_is_bounded(below, (bound - 1) as nat);
}

/// The records below a level, level by level, numbered from `next` on. Directories are
/// numbered with 16 bits.
pub open spec fn records_below(
    level: Seq<(DirView, int)>,
    next: int,
    ty: EntryType,
    endian: EndianType,
) -> Result<Seq<u8>, IsoCreationError>
    decreases level_height(level),
    via records_below_decreases
{
    if level.len() == 0 {
        Ok(Seq::empty())
    } else {
        let below = level_below(level, ty, next);
        if next - 1 + below.len() > u16::MAX {
            Err(IsoCreationError::TooManyDirectories)
        } else {
            match records_below(below, next + below.len(), ty, endian) {
                Err(e) => Err(e),
                Ok(rest) => Ok(level_records(level, ty, endian) + rest),
            }
        }
    }
}

#[via_fn]
proof fn records_below_decreases(
    level: Seq<(DirView, int)>,
    next: int,
    ty: EntryType,
    endian: EndianType,
) {
    if level.len() > 0 {
        next_level_is_lower(level, ty, next);
    }
}

/// The path table of a tree in a namespace: the root, which is its own parent, then the
/// others level by level, by the parent's number and by identifier.
pub open spec fn path_table(root: DirView, ty: EntryType, endian: EndianType) -> Result<
    Seq<u8>,
    IsoCreationError,
> {
    match records_below(seq![(root, 1int)], 2, ty, endian) {
        Err(e) => Err(e),
        Ok(rest) => Ok(
            table_record(endian, 1, entry_of(root, ty).extent.0 as u32, seq![0u8]) + rest,
        ),
    }
}

spec fn refs_view(dirs: Seq<&WrittenDirectory>) -> Seq<DirView> {
    Seq::new(dirs.len(), |i: int| dirs[i].view())
}

spec fn level_view(level: Seq<(&WrittenDirectory, u16)>) -> Seq<(DirView, int)> {
    Seq::new(level.len(), |i: int| (level[i].0.view(), level[i].1 as int))
}

fn ordered_children<'a>(dir: &'a WrittenDirectory, ty: EntryType) -> (r: Vec<&'a WrittenDirectory>)
    ensures
        refs_view(r@) == ordered(dir.view().dirs, ty),
{
    let ghost all = dir.view().dirs;
    let mut children: Vec<&'a WrittenDirectory> = Vec::new();
    let mut keys: Vec<Vec<u8>> = Vec::new();
    let mut i: usize = 0;
    proof {
        assert(all.take(0) =~= Seq::empty());
        assert(refs_view(children@) =~= kept(all.take(0)));
        assert(key_views(keys@) =~= identifiers(kept(all.take(0)), ty));
    }
    while i < dir.dirs.len()
        invariant
            i <= dir.dirs@.len(),
            all == dir.view().dirs,
            refs_view(children@) == kept(all.take(i as int)),
            key_views(keys@) == identifiers(kept(all.take(i as int)), ty),
        decreases dir.dirs.len() - i,
    {
        let child: &'a WrittenDirectory = &dir.dirs[i];
        let ghost before = kept(all.take(i as int));
        let ghost keys_before = key_views(keys@);
        proof {
            assert(all[i as int] == child.view());
            assert(all.take(i + 1).drop_last() =~= all.take(i as int));
            assert(all.take(i + 1).last() == child.view());
        }
        let skip: bool = match child.relocation {
            DirectoryRelocation::Placeholder { .. } => true,
            _ => false,
        };
        if !skip {
            let name: ConvertedName = ty.convert_directory_name(child.name.as_str());
            let key: Vec<u8> = crate::bytes::copy_range(name.as_bytes(), 0, name.len());
            assert(key@ =~= base_identifier(ty, child.view().name));
            children.push(child);
            keys.push(key);
            proof {
                assert(refs_view(children@) =~= before.push(child.view()));
                assert(key_views(keys@) =~= keys_before.push(key@));
                assert(key_views(keys@) =~= identifiers(before.push(child.view()), ty));
            }
        }
        i += 1;
    }
    assert(all.take(i as int) =~= all);
    let perm: Vec<usize> = sort_positions(&keys);
    let ghost p = positions(perm@);
    proof {
        assert(stable_order(identifiers(kept(all), ty), p));
        stable_order_is_unique(
            identifiers(kept(all), ty),
            p,
            choose|perm: Seq<int>| stable_order(identifiers(kept(all), ty), perm),
        );
        assert(key_views(keys@).len() == keys@.len());
        assert(refs_view(children@).len() == children@.len());
    }
    let mut out: Vec<&'a WrittenDirectory> = Vec::new();
    let mut k: usize = 0;
    while k < perm.len()
        invariant
            k <= perm@.len(),
            p == positions(perm@),
            refs_view(children@) == kept(all),
            children@.len() == keys@.len(),
            stable_order(key_views(keys@), p),
            out@.len() == k,
            forall|j: int| 0 <= j < k ==> (#[trigger] out@[j]).view() == kept(all)[p[j]],
        decreases perm.len() - k,
    {
        assert(0 <= p[k as int] < key_views(keys@).len());
        let at: usize = perm[k];
        assert(p[k as int] == at);
        assert(refs_view(children@)[at as int] == children@[at as int].view());
        out.push(children[at]);
        k += 1;
    }
    assert(refs_view(out@) =~= ordered(all, ty));
    out
}

/// Writes the path table of a tree in a namespace.
pub struct PathTableWriter<'a> {
    /// The tree.
    pub written_files: &'a WrittenFiles,
    /// The namespace.
    pub ty: EntryType,
    /// The byte order.
    pub endian: EndianType,
}

impl<'a> PathTableWriter<'a> {
    fn write_children(
        &self,
        data: &mut Vec<u8>,
        dir: &'a WrittenDirectory,
        number: u16,
        current_number: &mut u16,
        next_level: &mut Vec<(&'a WrittenDirectory, u16)>,
    ) -> (r: Result<(), IsoCreationError>)
        ensures
            ({
                let own = ordered(dir.view().dirs, self.ty);
                if *old(current_number) + own.len() > u16::MAX {
                    r == Err::<(), IsoCreationError>(IsoCreationError::TooManyDirectories)
                } else {
                    &&& r == Ok::<(), IsoCreationError>(())
                    &&& final(data)@ == old(data)@ + sibling_records(
                        own,
                        number as int,
                        self.ty,
                        self.endian,
                    )
                    &&& *final(current_number) == *old(current_number) + own.len()
                    &&& level_view(final(next_level)@) == level_view(old(next_level)@) + Seq::new(
                        own.len(),
                        |i: int| (own[i], *old(current_number) + 1 + i),
                    )
                }
            }),
    {
        let children: Vec<&'a WrittenDirectory> = ordered_children(dir, self.ty);
        let ghost own = ordered(dir.view().dirs, self.ty);
        assert(refs_view(children@).len() == children@.len());
        let ghost start = *current_number as int;
        let ghost data0 = data@;
        let ghost level0 = level_view(next_level@);
        let ghost added = Seq::new(own.len(), |i: int| (own[i], start + 1 + i));
        let mut i: usize = 0;
        proof {
            assert(own.take(0) =~= Seq::empty());
            assert(data@ =~= data0 + sibling_records(
                own.take(0),
                number as int,
                self.ty,
                self.endian,
            ));
            assert(level_view(next_level@) =~= level0 + added.take(0));
        }
        while i < children.len()
            invariant
                i <= children@.len(),
                own == refs_view(children@),
                own == ordered(dir.view().dirs, self.ty),
                own.len() == children@.len(),
                start == *old(current_number),
                *current_number == start + i,
                added == Seq::new(own.len(), |i: int| (own[i], start + 1 + i)),
                data@ == data0 + sibling_records(
                    own.take(i as int),
                    number as int,
                    self.ty,
                    self.endian,
                ),
                level_view(next_level@) == level0 + added.take(i as int),
            decreases children.len() - i,
        {
            let child: &'a WrittenDirectory = children[i];
            proof {
                assert(own[i as int] == child.view());
                assert(own.take(i + 1).drop_last() =~= own.take(i as int));
                assert(own.take(i + 1).last() == child.view());
            }
            if *current_number == 65535 {
                return Err(IsoCreationError::TooManyDirectories);
            }
            *current_number += 1;
            let name: ConvertedName = self.ty.convert_directory_name(child.name.as_str());
            let extent: u32 = get_entry(child, self.ty).extent.0 as u32;
            let ghost data1 = data@;
            write_pt_record(data, self.endian, number, extent, name.as_bytes());
            let ghost level1 = level_view(next_level@);
            next_level.push((child, *current_number));
            i += 1;
            proof {
                assert(data@ =~= data0 + sibling_records(
                    own.take(i as int),
                    number as int,
                    self.ty,
                    self.endian,
                ));
                assert(level_view(next_level@) =~= level1.push((child.view(), start + i)));
                assert(level_view(next_level@) =~= level0 + added.take(i as int));
            }
        }
        proof {
            assert(own.take(i as int) =~= own);
            assert(added.take(i as int) =~= added);
        }
        Ok(())
    }

    fn write_level(
        &self,
        data: &mut Vec<u8>,
        level: &Vec<(&'a WrittenDirectory, u16)>,
        current_number: &mut u16,
    ) -> (r: Result<Vec<(&'a WrittenDirectory, u16)>, IsoCreationError>)
        ensures
            ({
                let all = level_view(level@);
                let below = level_below(all, self.ty, *old(current_number) + 1);
                if *old(current_number) + below.len() > u16::MAX {
                    r == Err::<Vec<(&'a WrittenDirectory, u16)>, IsoCreationError>(
                        IsoCreationError::TooManyDirectories,
                    )
                } else {
                    &&& r matches Ok(v) && level_view(v@) == below
                    &&& final(data)@ == old(data)@ + level_records(all, self.ty, self.endian)
                    &&& *final(current_number) == *old(current_number) + below.len()
                }
            }),
    {
        let ghost all = level_view(level@);
        let ghost start = *current_number as int;
        let ghost data0 = data@;
        let mut next_level: Vec<(&'a WrittenDirectory, u16)> = Vec::new();
        let mut i: usize = 0;
        proof {
            assert(all.take(0) =~= Seq::empty());
            assert(data@ =~= data0 + level_records(all.take(0), self.ty, self.endian));
            assert(level_view(next_level@) =~= level_below(all.take(0), self.ty, start + 1));
        }
        while i < level.len()
            invariant
                i <= level@.len(),
                all == level_view(level@),
                start == *old(current_number),
                *current_number == start + next_level@.len(),
                data@ == data0 + level_records(all.take(i as int), self.ty, self.endian),
                level_view(next_level@) == level_below(all.take(i as int), self.ty, start + 1),
            decreases level.len() - i,
        {
            let (dir, number): (&'a WrittenDirectory, u16) = level[i];
            let ghost before = level_below(all.take(i as int), self.ty, start + 1);
            let ghost own = ordered(dir.view().dirs, self.ty);
            proof {
                assert(all[i as int] == (dir.view(), number as int));
                assert(all.take(i + 1).drop_last() =~= all.take(i as int));
                assert(all.take(i + 1).last() == all[i as int]);
                assert(level_view(next_level@).len() == next_level@.len());
                below_grows(all, i + 1, self.ty, start + 1);
                assert(level_below(all.take(i + 1), self.ty, start + 1).len() == before.len()
                    + own.len());
            }
            match self.write_children(data, dir, number, current_number, &mut next_level) {
                Ok(_) => {},
                Err(e) => {
                    return Err(e);
                },
            }
            i += 1;
            proof {
                assert(data@ =~= data0 + level_records(
                    all.take(i as int),
                    self.ty,
                    self.endian,
                ));
                assert(level_view(next_level@) =~= level_below(
                    all.take(i as int),
                    self.ty,
                    start + 1,
                ));
                assert(level_view(next_level@).len() == next_level@.len());
            }
        }
        assert(all.take(i as int) =~= all);
        Ok(next_level)
    }

    /// Appends the path table.
    pub fn write(&self, data: &mut Vec<u8>) -> (r: Result<(), IsoCreationError>)
        ensures
            match path_table(self.written_files@, self.ty, self.endian) {
                Ok(table) => r == Ok::<(), IsoCreationError>(()) && final(data)@ == old(data)@
                    + table,
                Err(e) => r == Err::<(), IsoCreationError>(e),
            },
    {
        let root: &'a WrittenDirectory = &self.written_files.root;
        let ghost data0 = data@;
        let mut current_number: u16 = 1;
        let mut root_name: Vec<u8> = Vec::new();
        root_name.push(0);
        let extent: u32 = get_entry(root, self.ty).extent.0 as u32;
        write_pt_record(data, self.endian, 1, extent, root_name.as_slice());
        let ghost first = table_record(self.endian, 1, extent, root_name@);
        assert(root_name@ =~= seq![0u8]);
        let mut level: Vec<(&'a WrittenDirectory, u16)> = Vec::new();
        level.push((root, 1));
        let ghost whole = records_below(seq![(root.view(), 1int)], 2, self.ty, self.endian);
        let ghost mut done: Seq<u8> = Seq::empty();
        proof {
            assert(level_view(level@) =~= seq![(root.view(), 1int)]);
            assert(data@ =~= data0 + first + done);
        }
        while level.len() > 0
            invariant
                data@ == data0 + first + done,
                data0 == old(data)@,
                first == table_record(
                    self.endian,
                    1,
                    entry_of(root.view(), self.ty).extent.0 as u32,
                    seq![0u8],
                ),
                root.view() == self.written_files@,
                whole == records_below(seq![(root.view(), 1int)], 2, self.ty, self.endian),
                match records_below(
                    level_view(level@),
                    current_number + 1,
                    self.ty,
                    self.endian,
                ) {
                    Ok(rest) => whole == Ok::<Seq<u8>, IsoCreationError>(done + rest),
                    Err(e) => whole == Err::<Seq<u8>, IsoCreationError>(e),
                },
            decreases level_height(level_view(level@)),
        {
            let ghost here = level_view(level@);
            let ghost next = current_number + 1;
            proof {
                assert(here.len() == level@.len());
                next_level_is_lower(here, self.ty, next);
            }
            match self.write_level(data, &level, &mut current_number) {
                Ok(next_level) => {
                    level = next_level;
                    proof {
                        let own = level_records(here, self.ty, self.endian);
                        assert(data@ =~= data0 + first + (done + own));
                        match records_below(
                            level_view(level@),
                            current_number + 1,
                            self.ty,
                            self.endian,
                        ) {
                            Ok(rest) => {
                                assert(done + (own + rest) =~= (done + own) + rest);
                            },
                            Err(e) => {},
                        }
                        done = done + own;
                    }
                },
                Err(e) => {
                    return Err(e);
                },
            }
        }
        proof {
            assert(level_view(level@).len() == 0);
            assert(done + Seq::<u8>::empty() =~= done);
            assert(data@ =~= data0 + (first + done));
        }
        Ok(())
    }
}

proof fn below_grows(level: Seq<(DirView, int)>, k: int, ty: EntryType, next: int)
    requires
        0 <= k <= level.len(),
    ensures
        level_below(level.take(k), ty, next).len() <= level_below(level, ty, next).len(),
    decreases level.len(),
{
    if k == level.len() {
        assert(level.take(k) =~= level);
    } else {
        below_grows(level.drop_last(), k, ty, next);
        assert(level.drop_last().take(k) =~= level.take(k));
    }
}

} // verus!
