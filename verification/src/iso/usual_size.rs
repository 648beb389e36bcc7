//! What a tree takes as a rule: the identifiers of the first namespace stand for those of all,
//! and nothing is set aside for identifiers that must be kept apart from others or for records
//! that do not fit the end of a sector.

#[allow(unused_imports)]
use crate::iso::estimator::{any_rrip, estimated_name_len, least, name_len_natural, whole};
use crate::iso::estimator::{estimate_converted_name_len, sectors_bounds, whole_sectors};
#[allow(unused_imports)]
use crate::iso::records::even_up;
#[allow(unused_imports)]
use crate::iso::tree::{entries_view, files_view, EntryView, KindView};
use crate::iso::tree::{File, InputEntry, InputEntryKind};
use crate::iso::types::EntryType;
use vstd::prelude::*;
#[allow(unused_imports)]
use vstd::utf8::encode_utf8;

verus! {

/// Bytes of the Rock Ridge fields that only links and devices have.
pub open spec fn usual_kind_len(kind: KindView) -> int {
    match kind {
        KindView::Symlink(target) => encode_utf8(target).len() as int + 8,
        KindView::CharacterDevice(..) => 20,
        KindView::BlockDevice(..) => 20,
        _ => 0,
    }
}

/// Bytes of an entry's record: header and identifier, filled up to an even length, and 68
/// bytes of Rock Ridge fields with the name and what its kind needs, up to 256 in all.
pub open spec fn usual_record(entry: EntryView, types: Seq<EntryType>) -> int {
    let plain = even_up(33 + estimated_name_len(entry.name, types[0]));
    if any_rrip(types) {
        least(plain + 68 + encode_utf8(entry.name).len() + usual_kind_len(entry.kind), 256)
    } else {
        plain
    }
}

/// Bytes of the records of a directory, with those of itself and of its parent.
pub open spec fn usual_total(entries: Seq<EntryView>, types: Seq<EntryType>) -> int
    decreases entries.len(),
{
    if entries.len() == 0 {
        if any_rrip(types) {
            384
        } else {
            68
        }
    } else {
        usual_total(entries.drop_last(), types) + usual_record(entries.last(), types)
    }
}

/// What a tree takes as a rule.
pub struct Usual {
    /// Bytes of directory identifiers.
    pub name_bytes: int,
    /// Directory records of one namespace in whole sectors.
    pub record_bytes: int,
}

impl Usual {
    /// Both together.
    pub open spec fn plus(self, other: Usual) -> Usual {
        Usual {
            name_bytes: self.name_bytes + other.name_bytes,
            record_bytes: self.record_bytes + other.record_bytes,
        }
    }

    /// Whether both fit 64 bits.
    pub open spec fn fits(self) -> bool {
        &&& self.name_bytes <= u64::MAX
        &&& self.record_bytes <= u64::MAX
    }

    /// Whether neither is negative.
    pub open spec fn natural(self) -> bool {
        &&& self.name_bytes >= 0
        &&& self.record_bytes >= 0
    }
}

/// What an entry and those below it take.
pub open spec fn entry_usual(entry: EntryView, types: Seq<EntryType>, s: int) -> Usual
    decreases entry,
{
    match entry.kind {
        KindView::Directory(children) => Usual {
            name_bytes: estimated_name_len(entry.name, types[0]),
            record_bytes: 0,
        }.plus(tree_usual(children, types, s)),
        _ => Usual { name_bytes: 0, record_bytes: 0 },
    }
}

/// What entries and those below them take, without the directory that holds them.
pub open spec fn list_usual(entries: Seq<EntryView>, types: Seq<EntryType>, s: int) -> Usual
    decreases entries, 0nat,
{
    if entries.len() == 0 {
        Usual { name_bytes: 0, record_bytes: 0 }
    } else {
        list_usual(entries.drop_last(), types, s).plus(entry_usual(entries.last(), types, s))
    }
}

/// What a directory with the given entries takes.
pub open spec fn tree_usual(entries: Seq<EntryView>, types: Seq<EntryType>, s: int) -> Usual
    decreases entries, 1nat,
{
    list_usual(entries, types, s).plus(
        Usual { name_bytes: 0, record_bytes: whole(usual_total(entries, types), s) },
    )
}

proof fn usual_record_natural(entry: EntryView, types: Seq<EntryType>)
    ensures
        0 <= usual_record(entry, types) <= 256,
{
    name_len_natural(entry.name, types[0]);
}

proof fn usual_total_natural(entries: Seq<EntryView>, types: Seq<EntryType>)
    ensures
        68 <= usual_total(entries, types) <= 384 + 256 * entries.len(),
    decreases entries.len(),
{
    if entries.len() > 0 {
        usual_total_natural(entries.drop_last(), types);
        usual_record_natural(entries.last(), types);
    }
}

/// Nothing that a tree takes is negative.
pub proof fn usual_natural(entries: Seq<EntryView>, types: Seq<EntryType>, s: int)
    requires
        s > 0,
    ensures
        list_usual(entries, types, s).natural(),
        tree_usual(entries, types, s).natural(),
        list_usual(entries, types, s).record_bytes <= tree_usual(entries, types, s).record_bytes,
    decreases entries,
{
    usual_total_natural(entries, types);
    sectors_bounds(usual_total(entries, types), s);
    if entries.len() > 0 {
        usual_natural(entries.drop_last(), types, s);
        entry_usual_natural(entries.last(), types, s);
    }
}

proof fn entry_usual_natural(entry: EntryView, types: Seq<EntryType>, s: int)
    requires
        s > 0,
    ensures
        entry_usual(entry, types, s).natural(),
    decreases entry,
{
    if let KindView::Directory(children) = entry.kind {
        usual_natural(children, types, s);
        name_len_natural(entry.name, types[0]);
    }
}

proof fn usual_prefix(entries: Seq<EntryView>, i: int, types: Seq<EntryType>, s: int)
    requires
        s > 0,
        0 <= i < entries.len(),
    ensures
        list_usual(entries.take(i + 1), types, s) == list_usual(entries.take(i), types, s).plus(
            entry_usual(entries[i], types, s),
        ),
        list_usual(entries.take(i), types, s).natural(),
        entry_usual(entries[i], types, s).natural(),
        list_usual(entries.take(i + 1), types, s).name_bytes <= list_usual(
            entries,
            types,
            s,
        ).name_bytes,
        list_usual(entries.take(i + 1), types, s).record_bytes <= list_usual(
            entries,
            types,
            s,
        ).record_bytes,
    decreases entries.len() - i,
{
    assert(entries.take(i + 1).drop_last() =~= entries.take(i));
    assert(entries.take(i + 1).last() == entries[i]);
    usual_natural(entries.take(i), types, s);
    entry_usual_natural(entries[i], types, s);
    if i + 1 < entries.len() {
        usual_prefix(entries, i + 1, types, s);
    } else {
        assert(entries.take(i + 1) =~= entries);
    }
}

/// Bytes of an entry's record, where `extra` are those that its kind needs.
fn usual_record_len(
    name: &str,
    extra: u128,
    ty: EntryType,
    has_rrip: bool,
    Ghost(entry): Ghost<EntryView>,
    Ghost(types): Ghost<Seq<EntryType>>,
) -> (r: u64)
    requires
        entry.name == name@,
        extra == usual_kind_len(entry.kind),
        extra <= 0x1_0000_0000_0000_0007,
        ty == types[0],
        has_rrip == any_rrip(types),
    ensures
        r == usual_record(entry, types),
        r <= 256,
{
    let base: u64 = 33 + estimate_converted_name_len(name, ty);
    let padded: u64 = base + base % 2;
    if has_rrip {
        let all: u128 = padded as u128 + 68 + name.as_bytes().len() as u128 + extra;
        if all < 256 {
            all as u64
        } else {
            256
        }
    } else {
        padded
    }
}

/// Bytes of the records of a directory with the given files.
fn usual_files_total(files: &Vec<File>, entry_types: &Vec<EntryType>, has_rrip: bool) -> (r: u64)
    requires
        entry_types@.len() > 0,
        has_rrip == any_rrip(entry_types@),
        usual_total(files_view(files@), entry_types@) <= u64::MAX,
    ensures
        r == usual_total(files_view(files@), entry_types@),
{
    let ghost all = files_view(files@);
    let ghost types = entry_types@;
    let ty: EntryType = entry_types[0];
    let mut total: u64 = if has_rrip {
        256 + 128
    } else {
        34 + 34
    };
    let mut i: usize = 0;
    assert(all.take(0) =~= Seq::empty());
    while i < files.len()
        invariant
            i <= files@.len(),
            all == files_view(files@),
            ty == types[0],
            has_rrip == any_rrip(types),
            usual_total(all, types) <= u64::MAX,
            total == usual_total(all.take(i as int), types),
        decreases files.len() - i,
    {
        let ghost value = files@[i as int].view();
        proof {
            assert(all[i as int] == value);
            assert(all.take(i + 1).drop_last() =~= all.take(i as int));
            usual_total_prefix(all, i + 1, types);
        }
        let name: &str = match &files[i] {
            File::File { name, .. } => name.as_str(),
            File::Directory { name, .. } => name.as_str(),
        };
        total = total + usual_record_len(name, 0, ty, has_rrip, Ghost(value), Ghost(types));
        i += 1;
    }
    assert(all.take(i as int) =~= all);
    total
}

proof fn usual_total_prefix(entries: Seq<EntryView>, k: int, types: Seq<EntryType>)
    requires
        0 <= k <= entries.len(),
    ensures
        usual_total(entries.take(k), types) <= usual_total(entries, types),
    decreases entries.len(),
{
    if k < entries.len() {
        usual_record_natural(entries.last(), types);
        usual_total_prefix(entries.drop_last(), k, types);
        assert(entries.drop_last().take(k) =~= entries.take(k));
    } else {
        assert(entries.take(k) =~= entries);
    }
}

/// Bytes of the Rock Ridge fields that only links and devices have.
fn usual_kind_bytes(kind: &InputEntryKind) -> (r: u128)
    ensures
        r == usual_kind_len(kind.view()),
        r <= 0x1_0000_0000_0000_0007,
{
    match kind {
        InputEntryKind::Symlink(target) => target.as_str().as_bytes().len() as u128 + 8,
        InputEntryKind::CharacterDevice { .. } => 20,
        InputEntryKind::BlockDevice { .. } => 20,
        _ => 0,
    }
}

/// Bytes of the records of a directory with the given entries.
fn usual_entries_total(
    entries: &Vec<InputEntry>,
    entry_types: &Vec<EntryType>,
    has_rrip: bool,
) -> (r: u64)
    requires
        entry_types@.len() > 0,
        has_rrip == any_rrip(entry_types@),
        usual_total(entries_view(entries@), entry_types@) <= u64::MAX,
    ensures
        r == usual_total(entries_view(entries@), entry_types@),
{
    let ghost all = entries_view(entries@);
    let ghost types = entry_types@;
    let ty: EntryType = entry_types[0];
    let mut total: u64 = if has_rrip {
        256 + 128
    } else {
        34 + 34
    };
    let mut i: usize = 0;
    assert(all.take(0) =~= Seq::empty());
    while i < entries.len()
        invariant
            i <= entries@.len(),
            all == entries_view(entries@),
            ty == types[0],
            has_rrip == any_rrip(types),
            usual_total(all, types) <= u64::MAX,
            total == usual_total(all.take(i as int), types),
        decreases entries.len() - i,
    {
        let entry: &InputEntry = &entries[i];
        let ghost value = entry.view();
        proof {
            assert(all[i as int] == value);
            assert(all.take(i + 1).drop_last() =~= all.take(i as int));
            usual_total_prefix(all, i + 1, types);
        }
        let extra: u128 = usual_kind_bytes(&entry.kind);
        total = total + usual_record_len(
            entry.name.as_str(),
            extra,
            ty,
            has_rrip,
            Ghost(value),
            Ghost(types),
        );
        i += 1;
    }
    assert(all.take(i as int) =~= all);
    total
}

/// The value of two sums.
pub open spec fn usual_pair(name_bytes: u64, record_bytes: u64) -> Usual {
    Usual { name_bytes: name_bytes as int, record_bytes: record_bytes as int }
}

/// Bytes of directory identifiers and of directory records with the given files, added to
/// those before.
pub fn usual_files(
    files: &Vec<File>,
    entry_types: &Vec<EntryType>,
    has_rrip: bool,
    sector_size: u64,
    before: (u64, u64),
) -> (r: (u64, u64))
    requires
        sector_size > 0,
        entry_types@.len() > 0,
        has_rrip == any_rrip(entry_types@),
        usual_pair(before.0, before.1).plus(
            tree_usual(files_view(files@), entry_types@, sector_size as int),
        ).fits(),
    ensures
        usual_pair(r.0, r.1) == usual_pair(before.0, before.1).plus(
            tree_usual(files_view(files@), entry_types@, sector_size as int),
        ),
    decreases *files,
{
    let ghost all = files_view(files@);
    let ghost s = sector_size as int;
    let ghost types = entry_types@;
    let ghost start = usual_pair(before.0, before.1);
    let (mut names, mut records): (u64, u64) = before;
    let mut i: usize = 0;
    proof {
        usual_natural(all, types, s);
        usual_total_natural(all, types);
        sectors_bounds(usual_total(all, types), s);
        assert(all.take(0) =~= Seq::empty());
    }
    while i < files.len()
        invariant
            i <= files@.len(),
            sector_size > 0,
            s == sector_size,
            types == entry_types@,
            types.len() > 0,
            has_rrip == any_rrip(types),
            all == files_view(files@),
            start.natural(),
            start.plus(tree_usual(all, types, s)).fits(),
            list_usual(all, types, s).record_bytes <= tree_usual(all, types, s).record_bytes,
            usual_pair(names, records) == start.plus(list_usual(all.take(i as int), types, s)),
        decreases files.len() - i,
    {
        let ghost value = files@[i as int].view();
        proof {
            assert(all[i as int] == value);
            usual_prefix(all, i as int, types, s);
        }
        match &files[i] {
            File::File { .. } => {},
            File::Directory { name, children } => {
                proof {
                    assert(value.kind->Directory_0 =~= files_view(children@));
                    assert(decreases_to!(*files => files@[i as int]));
                    usual_natural(files_view(children@), types, s);
                    name_len_natural(value.name, types[0]);
                }
                names = names + estimate_converted_name_len(name.as_str(), entry_types[0]);
                let below: (u64, u64) = usual_files(
                    children,
                    entry_types,
                    has_rrip,
                    sector_size,
                    (names, records),
                );
                names = below.0;
                records = below.1;
            },
        }
        i += 1;
    }
    assert(all.take(i as int) =~= all);
    let total: u64 = usual_files_total(files, entry_types, has_rrip);
    (names, records + whole_sectors(total, sector_size))
}

/// Bytes of directory identifiers and of directory records with the given entries, added to
/// those before.
pub fn usual_entries(
    entries: &Vec<InputEntry>,
    entry_types: &Vec<EntryType>,
    has_rrip: bool,
    sector_size: u64,
    before: (u64, u64),
) -> (r: (u64, u64))
    requires
        sector_size > 0,
        entry_types@.len() > 0,
        has_rrip == any_rrip(entry_types@),
        usual_pair(before.0, before.1).plus(
            tree_usual(entries_view(entries@), entry_types@, sector_size as int),
        ).fits(),
    ensures
        usual_pair(r.0, r.1) == usual_pair(before.0, before.1).plus(
            tree_usual(entries_view(entries@), entry_types@, sector_size as int),
        ),
    decreases *entries,
{
    let ghost all = entries_view(entries@);
    let ghost s = sector_size as int;
    let ghost types = entry_types@;
    let ghost start = usual_pair(before.0, before.1);
    let (mut names, mut records): (u64, u64) = before;
    let mut i: usize = 0;
    proof {
        usual_natural(all, types, s);
        usual_total_natural(all, types);
        sectors_bounds(usual_total(all, types), s);
        assert(all.take(0) =~= Seq::empty());
    }
    while i < entries.len()
        invariant
            i <= entries@.len(),
            sector_size > 0,
            s == sector_size,
            types == entry_types@,
            types.len() > 0,
            has_rrip == any_rrip(types),
            all == entries_view(entries@),
            start.natural(),
            start.plus(tree_usual(all, types, s)).fits(),
            list_usual(all, types, s).record_bytes <= tree_usual(all, types, s).record_bytes,
            usual_pair(names, records) == start.plus(list_usual(all.take(i as int), types, s)),
        decreases entries.len() - i,
    {
        let entry: &InputEntry = &entries[i];
        let ghost value = entry.view();
        proof {
            assert(all[i as int] == value);
            usual_prefix(all, i as int, types, s);
        }
        match &entry.kind {
            InputEntryKind::Directory(children) => {
                proof {
                    assert(value.kind->Directory_0 =~= entries_view(children@));
                    assert(decreases_to!(*entries => entries@[i as int]));
                    usual_natural(entries_view(children@), types, s);
                    name_len_natural(value.name, types[0]);
                }
                names = names + estimate_converted_name_len(entry.name.as_str(), entry_types[0]);
                let below: (u64, u64) = usual_entries(
                    children,
                    entry_types,
                    has_rrip,
                    sector_size,
                    (names, records),
                );
                names = below.0;
                records = below.1;
            },
            _ => {},
        }
        i += 1;
    }
    assert(all.take(i as int) =~= all);
    let total: u64 = usual_entries_total(entries, entry_types, has_rrip);
    (names, records + whole_sectors(total, sector_size))
}

} // verus!
