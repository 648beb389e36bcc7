//! The records of a directory before they are written.

use std::sync::Arc;

use crate::bytes::{bytes_equal, copy_range};
use crate::iso::dedup::apply_dedup_suffix;
#[allow(unused_imports)]
use crate::iso::dedup::{dedup_name, dedup_names_differ};
use crate::iso::error::IsoCreationError;
use crate::iso::name::ConvertedName;
#[allow(unused_imports)]
use crate::iso::name::{base_identifier, file_identifier};
use crate::iso::order::sort_positions;
#[allow(unused_imports)]
use crate::iso::order::{key_views, positions, stable_order, stable_order_is_unique};
use crate::iso::refmap::{DirKey, RelocationMap};
use crate::iso::rrip::{build_rrip_entries, RripEntryKind};
#[allow(unused_imports)]
use crate::iso::rrip::{mode_of, posix_fields, special_fields};
use crate::iso::susp::{RripBuilder, SplitSu};
#[allow(unused_imports)]
use crate::iso::susp::{
    cl_field, er_field, nm_field, nm_fields, pl_field, re_field, sp_field, split_inline,
    split_overflow,
};
use crate::iso::time::RripTime;
#[allow(unused_imports)]
use crate::iso::types::{continues, empty_ref, rrip_disabled};
use crate::iso::types::{DirectoryRef, EntryType, FileFlags, RripOptions};
use crate::iso::written::{DirectoryRelocation, WrittenDirectory, WrittenFile};
#[allow(unused_imports)]
use crate::iso::written::{dir_ref, dirs_view, written_files_view, DirView, FileView};
use crate::text::share;
#[allow(unused_imports)]
use crate::text::pigeonhole;
use vstd::prelude::*;
use vstd::std_specs::convert::FromSpecImpl;
#[allow(unused_imports)]
use vstd::utf8::encode_utf8;

verus! {

/// An identifier that records can share.
#[derive(Debug, PartialEq, Eq, PartialOrd, Ord)]
pub struct PendingRecordName(pub Arc<Vec<u8>>);

impl PendingRecordName {
    /// The identifier's bytes.
    pub open spec fn view(&self) -> Seq<u8> {
        self.0@
    }

    /// The identifier's bytes.
    pub fn as_bytes(&self) -> (r: &[u8])
        ensures
            r@ == self@,
    {
        self.0.as_slice()
    }

    fn share(&self) -> (r: Self)
        ensures
            r@ == self@,
    {
        PendingRecordName(share(&self.0))
    }
}

impl From<Vec<u8>> for PendingRecordName {
    fn from(value: Vec<u8>) -> (r: Self)
        ensures
            r@ == value@,
    {
        PendingRecordName(Arc::new(value))
    }
}

impl FromSpecImpl<Vec<u8>> for PendingRecordName {
    open spec fn obeys_from_spec() -> bool {
        false
    }

    open spec fn from_spec(value: Vec<u8>) -> Self {
        arbitrary()
    }
}

/// A record of a directory.
#[derive(Debug)]
pub struct PendingRecord {
    /// Identifier.
    pub name: PendingRecordName,
    /// System Use data.
    pub split: SplitSu,
    /// Where the file or directory lies.
    pub dir_ref: DirectoryRef,
    /// File flags.
    pub flags: FileFlags,
}

/// The mathematical value of a [`PendingRecord`].
pub struct RecordView {
    /// Identifier.
    pub name: Seq<u8>,
    /// System Use data in the record.
    pub inline: Seq<u8>,
    /// System Use data in the continuation area.
    pub overflow: Seq<u8>,
    /// Where the file or directory lies.
    pub dir_ref: DirectoryRef,
    /// File flags.
    pub flags: FileFlags,
}

/// The record of the directory itself, or of its parent, by its identifier.
pub open spec fn special_record(name: u8, inline: Seq<u8>, overflow: Seq<u8>) -> RecordView {
    RecordView {
        name: seq![name],
        inline,
        overflow,
        dir_ref: empty_ref(),
        flags: FileFlags { bits: 0x02 },
    }
}

impl PendingRecord {
    /// The mathematical value.
    pub open spec fn view(&self) -> RecordView {
        RecordView {
            name: self.name@,
            inline: self.split.inline@,
            overflow: self.split.overflow@,
            dir_ref: self.dir_ref,
            flags: self.flags,
        }
    }

    /// A record.
    pub fn new(
        name: &ConvertedName,
        split: SplitSu,
        dir_ref: DirectoryRef,
        flags: FileFlags,
    ) -> (r: Self)
        ensures
            r.view() == (RecordView {
                name: name.bytes@,
                inline: split.inline@,
                overflow: split.overflow@,
                dir_ref,
                flags,
            }),
            r.split == split,
    {
        let bytes: Vec<u8> = copy_range(name.as_bytes(), 0, name.len());
        assert(bytes@ =~= name.bytes@);
        PendingRecord { name: PendingRecordName(Arc::new(bytes)), split, dir_ref, flags }
    }

    /// The record of the directory itself.
    pub fn current_dir(dot_split: SplitSu) -> (r: Self)
        ensures
            r.view() == special_record(0, dot_split.inline@, dot_split.overflow@),
            r.split == dot_split,
    {
        let mut bytes: Vec<u8> = Vec::new();
        bytes.push(0);
        assert(bytes@ =~= seq![0u8]);
        PendingRecord {
            name: PendingRecordName(Arc::new(bytes)),
            split: dot_split,
            dir_ref: DirectoryRef::default(),
            flags: FileFlags::directory(),
        }
    }

    /// The record of the parent directory.
    pub fn parent_dir(dotdot_split: SplitSu) -> (r: Self)
        ensures
            r.view() == special_record(1, dotdot_split.inline@, dotdot_split.overflow@),
            r.split == dotdot_split,
    {
        let mut bytes: Vec<u8> = Vec::new();
        bytes.push(1);
        assert(bytes@ =~= seq![1u8]);
        PendingRecord {
            name: PendingRecordName(Arc::new(bytes)),
            split: dotdot_split,
            dir_ref: DirectoryRef::default(),
            flags: FileFlags::directory(),
        }
    }
}

/// The values of records.
pub open spec fn record_views(records: Seq<PendingRecord>) -> Seq<RecordView> {
    Seq::new(records.len(), |i: int| records[i].view())
}

/// Whether every overflow is announced by a CE field.
pub open spec fn splits_wf(records: Seq<PendingRecord>) -> bool {
    forall|i: int| 0 <= i < records.len() ==> (#[trigger] records[i]).split.wf()
}

/// The even number at or just above `x`.
pub open spec fn even_up(x: int) -> int {
    x + x % 2
}

/// Bytes for System Use data in a record of 256 bytes beside an identifier.
pub open spec fn su_space(name_len: int) -> int {
    if even_up(33 + name_len) > 256 {
        0
    } else {
        256 - even_up(33 + name_len)
    }
}

/// Bytes for System Use data in a record of 256 bytes: what the header of 33 bytes and
/// the identifier, filled up to an even length, leave.
pub fn available_su_space(iso_name_len: usize) -> (r: usize)
    requires
        iso_name_len + 34 <= usize::MAX,
    ensures
        r == su_space(iso_name_len as int),
{
    let raw: usize = 33 + iso_name_len;
    let used: usize = raw + raw % 2;
    256usize.saturating_sub(used)
}

/// What the records of a directory depend on besides the directory.
pub struct Context {
    /// The namespace.
    pub ty: EntryType,
    /// Whether Rock Ridge fields are written.
    pub has_rrip: bool,
    /// Which of them.
    pub options: RripOptions,
    /// The timestamp where an entry has none.
    pub fallback: Seq<u8>,
    /// The extents of directories by number.
    pub refs: Map<DirKey, DirectoryRef>,
}

/// The number of links of a directory.
pub open spec fn nlink_of(dir: DirView) -> u32 {
    (2 + dir.dirs.len()) as u32
}

/// A record whose System Use area is made of the given fields.
pub open spec fn record_with(
    name: Seq<u8>,
    fields: Seq<Seq<u8>>,
    dir_ref: DirectoryRef,
    flags: FileFlags,
) -> RecordView {
    RecordView {
        name,
        inline: split_inline(fields, su_space(name.len() as int)),
        overflow: split_overflow(fields, su_space(name.len() as int)),
        dir_ref,
        flags,
    }
}

/// A record without System Use data.
pub open spec fn plain_record(name: Seq<u8>, dir_ref: DirectoryRef, flags: FileFlags) -> RecordView {
    RecordView { name, inline: Seq::empty(), overflow: Seq::empty(), dir_ref, flags }
}

/// PX and TF of a directory.
pub open spec fn dir_posix(dir: DirView, inode: u32, c: Context) -> Seq<Seq<u8>> {
    posix_fields(c.options, c.fallback, inode, dir.metadata, 0x4000, 0x1ED, nlink_of(dir))
}

/// The record of the directory itself.
pub open spec fn dot_record(dir: DirView, is_root: bool, c: Context) -> RecordView {
    let flags = FileFlags { bits: 0x02 };
    if !c.has_rrip {
        plain_record(seq![0u8], empty_ref(), flags)
    } else if is_root {
        record_with(
            seq![0u8],
            seq![sp_field(0)] + dir_posix(dir, 0, c) + seq![
                nm_field(2, Seq::empty()),
                er_field(),
            ],
            empty_ref(),
            flags,
        )
    } else {
        record_with(
            seq![0u8],
            dir_posix(dir, 0, c) + seq![nm_field(2, Seq::empty())],
            empty_ref(),
            flags,
        )
    }
}

/// The record of the parent directory. That of a relocated directory names the logical
/// parent.
pub open spec fn dotdot_record(dir: DirView, c: Context) -> RecordView {
    let flags = FileFlags { bits: 0x02 };
    if !c.has_rrip {
        plain_record(seq![1u8], empty_ref(), flags)
    } else {
        let fields = dir_posix(dir, 0, c) + seq![nm_field(4, Seq::empty())];
        match dir.relocation {
            DirectoryRelocation::Moved { logical_parent, .. } => {
                let key = DirKey { id: logical_parent, ty: c.ty };
                let parent = if c.refs.dom().contains(key) {
                    c.refs[key]
                } else {
                    empty_ref()
                };
                record_with(
                    seq![1u8],
                    fields.push(pl_field(parent.extent.0 as u32)),
                    empty_ref(),
                    flags,
                )
            },
            _ => record_with(seq![1u8], fields, empty_ref(), flags),
        }
    }
}

/// The record of a child directory. A placeholder names the relocated directory, which
/// must have an extent, and a relocated directory says that it is one.
#[verifier::opaque]
pub open spec fn child_record(dir: DirView, inode: u32, c: Context) -> Result<
    RecordView,
    IsoCreationError,
> {
    let name = base_identifier(c.ty, dir.name);
    let flags = FileFlags { bits: 0x02 };
    if !c.has_rrip {
        Ok(plain_record(name, dir_ref(dir, c.ty, c.refs), flags))
    } else {
        let fields = dir_posix(dir, inode, c) + nm_fields(encode_utf8(dir.rrip_name));
        match dir.relocation {
            DirectoryRelocation::Placeholder { target } => {
                let key = DirKey { id: target, ty: c.ty };
                if c.refs.dom().contains(key) {
                    Ok(
                        record_with(
                            name,
                            fields.push(cl_field(c.refs[key].extent.0 as u32)),
                            dir_ref(dir, c.ty, c.refs),
                            flags,
                        ),
                    )
                } else {
                    Err(IsoCreationError::RelocationTarget)
                }
            },
            DirectoryRelocation::Moved { .. } => Ok(
                record_with(name, fields.push(re_field()), dir_ref(dir, c.ty, c.refs), flags),
            ),
            DirectoryRelocation::InPlace => Ok(
                record_with(name, fields, dir_ref(dir, c.ty, c.refs), flags),
            ),
        }
    }
}

/// The records of child directories, numbered from `inode` on, or the first error.
pub open spec fn child_records(dirs: Seq<DirView>, inode: int, c: Context) -> Result<
    Seq<RecordView>,
    IsoCreationError,
>
    decreases dirs.len(),
{
    if dirs.len() == 0 {
        Ok(Seq::empty())
    } else {
        match child_records(dirs.drop_last(), inode, c) {
            Err(e) => Err(e),
            Ok(records) => match child_record(
                dirs.last(),
                (inode + dirs.len() - 1) as u32,
                c,
            ) {
                Err(e) => Err(e),
                Ok(record) => Ok(records.push(record)),
            },
        }
    }
}

/// The flags of the extent at `i` of a file with `n` extents: all but the last are
/// continued.
pub open spec fn extent_flags(i: int, n: int) -> FileFlags {
    if i + 1 < n {
        FileFlags { bits: 0x80 }
    } else {
        FileFlags { bits: 0 }
    }
}

/// The records of a file, one for each extent. Only the first has System Use data.
pub open spec fn file_records(file: FileView, inode: u32, c: Context) -> Seq<RecordView> {
    let name = file_identifier(c.ty, file.name);
    let n = 1 + file.additional_extents.len() as int;
    let (type_mode, permissions) = mode_of(file.kind);
    let fields = posix_fields(
        c.options,
        c.fallback,
        inode,
        file.metadata,
        type_mode,
        permissions,
        1,
    ) + nm_fields(encode_utf8(file.name)) + special_fields(file.kind);
    let first = if c.has_rrip {
        record_with(name, fields, file.entry, extent_flags(0, n))
    } else {
        plain_record(name, file.entry, extent_flags(0, n))
    };
    seq![first] + Seq::new(
        file.additional_extents.len(),
        |i: int| plain_record(name, file.additional_extents[i], extent_flags(i + 1, n)),
    )
}

/// The records of files, numbered from `inode` on.
pub open spec fn files_records(files: Seq<FileView>, inode: int, c: Context) -> Seq<RecordView>
    decreases files.len(),
{
    if files.len() == 0 {
        Seq::empty()
    } else {
        files_records(files.drop_last(), inode, c) + file_records(
            files.last(),
            (inode + files.len() - 1) as u32,
            c,
        )
    }
}

/// The records of a directory as they are built: the directory itself, its parent, its
/// child directories, its files.
pub open spec fn raw_records(dir: DirView, is_root: bool, inode: int, c: Context) -> Result<
    Seq<RecordView>,
    IsoCreationError,
> {
    match child_records(dir.dirs, inode, c) {
        Err(e) => Err(e),
        Ok(children) => Ok(
            seq![dot_record(dir, is_root, c), dotdot_record(dir, c)] + children + files_records(
                dir.files,
                inode + dir.dirs.len(),
                c,
            ),
        ),
    }
}

/// Whether the identifier is that of the directory itself or its parent.
pub open spec fn is_special(name: Seq<u8>) -> bool {
    name.len() == 1 && (name[0] == 0 || name[0] == 1)
}

/// The position behind the records of the file whose record stands at `start`.
pub open spec fn group_end(records: Seq<RecordView>, start: int) -> int
    decreases records.len() - start,
{
    if start + 1 < records.len() && continues(records[start].flags) {
        group_end(records, start + 1)
    } else {
        start + 1
    }
}

/// Whether suffix number `k` is the first that gives an identifier not seen.
pub open spec fn first_unseen(name: Seq<u8>, k: nat, seen: Set<Seq<u8>>, ty: EntryType) -> bool {
    &&& k >= 1
    &&& !seen.contains(dedup_name(name, k, ty))
    &&& forall|j: nat| 1 <= j < k ==> seen.contains(#[trigger] dedup_name(name, j, ty))
}

/// The identifier where it was not seen, else with the first suffix that makes it new.
pub open spec fn unique_name(name: Seq<u8>, seen: Set<Seq<u8>>, ty: EntryType) -> Seq<u8> {
    if seen.contains(name) {
        dedup_name(name, choose|k: nat| first_unseen(name, k, seen, ty), ty)
    } else {
        name
    }
}

/// The records with those from `start` to `end` renamed.
pub open spec fn renamed(records: Seq<RecordView>, start: int, end: int, name: Seq<u8>) -> Seq<
    RecordView,
> {
    Seq::new(
        records.len(),
        |i: int|
            if start <= i < end {
                RecordView { name, ..records[i] }
            } else {
                records[i]
            },
    )
}

/// The records with identifiers kept apart from `start` on: each file gets an identifier
/// that was not seen before, and all its records get the same.
pub open spec fn dedup_from(
    records: Seq<RecordView>,
    start: int,
    seen: Set<Seq<u8>>,
    ty: EntryType,
) -> Seq<RecordView>
    decreases records.len() - start,
    via dedup_from_decreases
{
    if start >= records.len() {
        records
    } else if is_special(records[start].name) {
        dedup_from(records, start + 1, seen, ty)
    } else {
        let end = group_end(records, start);
        let name = unique_name(records[start].name, seen, ty);
        dedup_from(renamed(records, start, end, name), end, seen.insert(name), ty)
    }
}

#[via_fn]
proof fn dedup_from_decreases(
    records: Seq<RecordView>,
    start: int,
    seen: Set<Seq<u8>>,
    ty: EntryType,
) {
    group_end_bounds(records, start);
}

/// Where the records of a file end: all but the last are continued.
pub proof fn group_end_bounds(records: Seq<RecordView>, start: int)
    ensures
        start < group_end(records, start),
        start < records.len() ==> group_end(records, start) <= records.len(),
        forall|k: int| start <= k < group_end(records, start) - 1 ==> continues(records[k].flags),
        group_end(records, start) < records.len() ==> !continues(
            records[group_end(records, start) - 1].flags,
        ),
    decreases records.len() - start,
{
    if start + 1 < records.len() && continues(records[start].flags) {
        group_end_bounds(records, start + 1);
    }
}

/// The records with identifiers kept apart.
pub open spec fn deduped(records: Seq<RecordView>, ty: EntryType) -> Seq<RecordView> {
    dedup_from(records, 0, Set::empty(), ty)
}

proof fn suffix_found_soon(name: Seq<u8>, k: nat, seen: Seq<Seq<u8>>, ty: EntryType)
    requires
        forall|j: nat| 1 <= j <= k ==> seen.contains(#[trigger] dedup_name(name, j, ty)),
    ensures
        k <= seen.len(),
{
    let picks = Seq::new(k, |j: int| dedup_name(name, (j + 1) as nat, ty));
    assert(picks.no_duplicates()) by {
        assert forall|i: int, j: int|
            0 <= i < picks.len() && 0 <= j < picks.len() && i != j implies picks[i]
            != picks[j] by {
            if picks[i] == picks[j] {
                dedup_names_differ(name, (i + 1) as nat, (j + 1) as nat, ty);
            }
        }
    }
    assert forall|i: int| 0 <= i < picks.len() implies seen.contains(#[trigger] picks[i]) by {
        assert(seen.contains(dedup_name(name, (i + 1) as nat, ty)));
    }
    pigeonhole(seen, picks);
}

/// Identifiers seen so far.
struct SeenNames {
    names: Vec<PendingRecordName>,
}

impl SeenNames {
    spec fn list(&self) -> Seq<Seq<u8>> {
        Seq::new(self.names@.len(), |i: int| self.names@[i]@)
    }

    spec fn view(&self) -> Set<Seq<u8>> {
        self.list().to_set()
    }

    fn contains(&self, name: &[u8]) -> (r: bool)
        ensures
            r == self@.contains(name@),
    {
        let ghost list = self.list();
        let mut i: usize = 0;
        while i < self.names.len()
            invariant
                i <= self.names@.len(),
                list == self.list(),
                forall|j: int| 0 <= j < i ==> list[j] != name@,
            decreases self.names.len() - i,
        {
            assert(list[i as int] == self.names@[i as int]@);
            if bytes_equal(self.names[i].as_bytes(), name) {
                assert(list.contains(name@));
                return true;
            }
            i += 1;
        }
        false
    }

    fn insert(&mut self, name: PendingRecordName)
        ensures
            final(self).names@.len() == old(self).names@.len() + 1,
            final(self)@ == old(self)@.insert(name@),
    {
        let ghost before = self.list();
        self.names.push(name);
        proof {
            assert(self.list() =~= before.push(name@));
            let after = before.push(name@);
            assert forall|x: Seq<u8>| after.to_set().contains(x) <==> before.to_set().insert(
                name@,
            ).contains(x) by {
                if after.contains(x) {
                    let i = choose|i: int| 0 <= i < after.len() && after[i] == x;
                    if i < before.len() {
                        assert(before[i] == x);
                    }
                }
                if before.contains(x) {
                    let i = choose|i: int| 0 <= i < before.len() && before[i] == x;
                    assert(after[i] == x);
                }
                if x == name@ {
                    assert(after[before.len() as int] == x);
                }
            }
            assert(self@ =~= old(self)@.insert(name@));
        }
    }
}

/// The identifier where it was not seen, else with the first suffix that makes it new.
fn make_unique(name: &PendingRecordName, seen: &SeenNames, ty: EntryType) -> (r: PendingRecordName)
    requires
        seen.names@.len() < usize::MAX,
    ensures
        r@ == unique_name(name@, seen@, ty),
{
    if !seen.contains(name.as_bytes()) {
        return name.share();
    }
    let count: usize = seen.names.len();
    let mut n: usize = 1;
    let mut candidate: Vec<u8> = apply_dedup_suffix(name.as_bytes(), n, ty);
    while seen.contains(candidate.as_slice())
        invariant
            1 <= n,
            count == seen.names@.len(),
            count < usize::MAX,
            n <= count + 1,
            candidate@ == dedup_name(name@, n as nat, ty),
            forall|j: nat| 1 <= j < n ==> seen@.contains(#[trigger] dedup_name(name@, j, ty)),
        decreases count + 1 - n,
    {
        proof {
            let list = seen.list();
            assert forall|j: nat| 1 <= j <= n implies list.contains(
                #[trigger] dedup_name(name@, j, ty),
            ) by {
                assert(seen@.contains(dedup_name(name@, j, ty)));
            }
            suffix_found_soon(name@, n as nat, list, ty);
        }
        n += 1;
        candidate = apply_dedup_suffix(name.as_bytes(), n, ty);
    }
    proof {
        assert(first_unseen(name@, n as nat, seen@, ty));
        let k = choose|k: nat| first_unseen(name@, k, seen@, ty);
        if k < n {
            assert(seen@.contains(dedup_name(name@, k, ty)));
        } else if n < k {
            assert(seen@.contains(dedup_name(name@, n as nat, ty)));
        }
    }
    PendingRecordName::from(candidate)
}

/// The key by which records are sorted: the directory itself, its parent, all others by
/// identifier.
pub open spec fn sort_key(name: Seq<u8>) -> Seq<u8> {
    (if name == seq![0u8] {
        seq![0u8]
    } else if name == seq![1u8] {
        seq![1u8]
    } else {
        seq![2u8]
    }) + name
}

/// The sort keys of records.
pub open spec fn sort_keys(records: Seq<RecordView>) -> Seq<Seq<u8>> {
    Seq::new(records.len(), |i: int| sort_key(records[i].name))
}

/// The records in the given order.
pub open spec fn permuted(records: Seq<RecordView>, perm: Seq<int>) -> Seq<RecordView> {
    Seq::new(perm.len(), |i: int| records[perm[i]])
}

/// The records in ascending order: the directory itself, its parent, all others by
/// identifier, and records with one identifier in the order they had.
pub open spec fn sorted(records: Seq<RecordView>) -> Seq<RecordView> {
    permuted(records, choose|perm: Seq<int>| stable_order(sort_keys(records), perm))
}

/// The records of a directory.
#[derive(Debug)]
pub struct PendingRecords(pub Vec<PendingRecord>);

impl PendingRecords {
    /// The records' values.
    pub open spec fn view(&self) -> Seq<RecordView> {
        record_views(self.0@)
    }

    /// Whether every overflow is announced by a CE field.
    pub open spec fn wf(&self) -> bool {
        splits_wf(self.0@)
    }

    /// The records of a directory in one namespace: kept apart by identifier and in
    /// ascending order. The sizes of records do not depend on the extents.
    pub fn new(
        ty: EntryType,
        dir: &WrittenDirectory,
        is_root: bool,
        inode_counter: &mut u32,
        rrip_options: Option<&RripOptions>,
        fallback_time: &RripTime,
        relocation_refs: &RelocationMap,
    ) -> (r: Result<Self, IsoCreationError>)
        requires
            dir_fits(dir.view(), ty),
            context(
                ty,
                option_value(rrip_options),
                fallback_time@,
                relocation_refs@,
            ).has_rrip ==> *old(inode_counter) + dir.view().dirs.len() + dir.view().files.len()
                <= u32::MAX,
        ensures
            ({
                let c = context(ty, option_value(rrip_options), fallback_time@, relocation_refs@);
                match raw_records(dir.view(), is_root, *old(inode_counter) as int, c) {
                    Ok(raw) => {
                        &&& r matches Ok(records) && records@ == sorted(deduped(raw, ty))
                            && records.wf()
                        &&& *final(inode_counter) == *old(inode_counter) + (if c.has_rrip {
                            dir.view().dirs.len() + dir.view().files.len()
                        } else {
                            0
                        })
                    },
                    Err(e) => r == Err::<PendingRecords, IsoCreationError>(e),
                }
            }),
    {
        let usable: Option<RripOptions> = match rrip_options {
            Some(o) => if o.enabled {
                Some(*o)
            } else {
                None
            },
            None => None,
        };
        let has_rrip: bool = ty.supports_rrip() && usable.is_some();
        let options: RripOptions = match usable {
            Some(o) => o,
            None => RripOptions::disabled(),
        };
        let ghost c = context(ty, option_value(rrip_options), fallback_time@, relocation_refs@);
        assert(c.has_rrip == has_rrip && c.options == options);
        let mut records: Vec<PendingRecord> = Vec::new();
        records.push(Self::build_dot_record(has_rrip, is_root, dir, &options, fallback_time, Ghost(c)));
        records.push(
            Self::build_dotdot_record(
                has_rrip,
                is_root,
                dir,
                ty,
                &options,
                fallback_time,
                relocation_refs,
                Ghost(c),
            ),
        );
        let ghost dots = seq![dot_record(dir.view(), is_root, c), dotdot_record(dir.view(), c)];
        assert(record_views(records@) =~= dots);
        assert(dir.view().dirs =~= dirs_view(dir.dirs@));
        match Self::build_directory_records(
            &mut records,
            &dir.dirs,
            ty,
            has_rrip,
            &options,
            inode_counter,
            fallback_time,
            relocation_refs,
            Ghost(c),
        ) {
            Err(e) => {
                return Err(e);
            },
            Ok(_) => {},
        }
        Self::build_file_records(
            &mut records,
            &dir.files,
            ty,
            has_rrip,
            &options,
            inode_counter,
            fallback_time,
            Ghost(*old(inode_counter) + dir.dirs@.len()),
            Ghost(c),
        );
        proof {
            let raw = raw_records(dir.view(), is_root, *old(inode_counter) as int, c)->Ok_0;
            assert(record_views(records@) =~= raw);
        }
        Self::deduplicate_names(&mut records, ty);
        Self::sort_records(&mut records);
        Ok(PendingRecords(records))
    }

    fn build_dot_record(
        has_rrip: bool,
        is_root: bool,
        dir: &WrittenDirectory,
        options: &RripOptions,
        fallback_time: &RripTime,
        Ghost(c): Ghost<Context>,
    ) -> (r: PendingRecord)
        requires
            c.has_rrip == has_rrip,
            c.options == *options,
            c.fallback == fallback_time@,
            dir.view().dirs.len() + 2 <= u32::MAX,
        ensures
            r.view() == dot_record(dir.view(), is_root, c),
            r.split.wf(),
    {
        let split: SplitSu = if has_rrip {
            let nlink: u32 = 2 + dir.dirs.len() as u32;
            let kind: RripEntryKind<'_> = if is_root {
                RripEntryKind::RootDot { metadata: dir.metadata, nlink }
            } else {
                RripEntryKind::Dot { metadata: dir.metadata, nlink }
            };
            let max: usize = available_su_space(1);
            build_rrip_entries(kind, 0, options, fallback_time).build_split(max)
        } else {
            SplitSu::empty()
        };
        PendingRecord::current_dir(split)
    }

    fn build_dotdot_record(
        has_rrip: bool,
        is_root: bool,
        dir: &WrittenDirectory,
        ty: EntryType,
        options: &RripOptions,
        fallback_time: &RripTime,
        relocation_refs: &RelocationMap,
        Ghost(c): Ghost<Context>,
    ) -> (r: PendingRecord)
        requires
            c.has_rrip == has_rrip,
            c.options == *options,
            c.fallback == fallback_time@,
            c.ty == ty,
            c.refs == relocation_refs@,
            dir.view().dirs.len() + 2 <= u32::MAX,
        ensures
            r.view() == dotdot_record(dir.view(), c),
            r.split.wf(),
    {
        let split: SplitSu = if has_rrip {
            let nlink: u32 = 2 + dir.dirs.len() as u32;
            let kind: RripEntryKind<'_> = if is_root {
                RripEntryKind::RootDotDot { metadata: dir.metadata, nlink }
            } else {
                RripEntryKind::DotDot { metadata: dir.metadata, nlink }
            };
            let max: usize = available_su_space(1);
            let mut builder: RripBuilder = build_rrip_entries(kind, 0, options, fallback_time);
            match dir.relocation {
                DirectoryRelocation::Moved { logical_parent, .. } => {
                    let parent: DirectoryRef = match relocation_refs.get(
                        &DirKey { id: logical_parent, ty },
                    ) {
                        Some(parent) => parent,
                        None => DirectoryRef::default(),
                    };
                    builder.add_pl(parent.extent.0 as u32);
                },
                _ => {},
            }
            builder.build_split(max)
        } else {
            SplitSu::empty()
        };
        PendingRecord::parent_dir(split)
    }

    fn build_child_record(
        directory: &WrittenDirectory,
        ty: EntryType,
        has_rrip: bool,
        options: &RripOptions,
        inode: u32,
        fallback_time: &RripTime,
        relocation_refs: &RelocationMap,
        Ghost(c): Ghost<Context>,
    ) -> (r: Result<PendingRecord, IsoCreationError>)
        requires
            c.has_rrip == has_rrip,
            c.options == *options,
            c.fallback == fallback_time@,
            c.ty == ty,
            c.refs == relocation_refs@,
            directory.view().dirs.len() + 2 <= u32::MAX,
            !(directory.relocation is Placeholder) ==> directory.entries@.dom().contains(ty),
        ensures
            match child_record(directory.view(), inode, c) {
                Ok(value) => r matches Ok(record) && record.view() == value && record.split.wf(),
                Err(e) => r == Err::<PendingRecord, IsoCreationError>(e),
            },
    {
        let converted_name: ConvertedName = ty.convert_directory_name(directory.name.as_str());
        proof {
            reveal(child_record);
            crate::iso::name::identifiers_fit(ty, directory.view().name);
        }
        let split: SplitSu = if has_rrip {
            let max: usize = available_su_space(converted_name.as_bytes().len());
            let mut builder: RripBuilder = build_rrip_entries(
                RripEntryKind::Directory {
                    original_name: directory.rrip_name.as_str(),
                    metadata: directory.metadata,
                    nlink: 2 + directory.dirs.len() as u32,
                },
                inode,
                options,
                fallback_time,
            );
            match directory.relocation {
                DirectoryRelocation::Placeholder { target } => {
                    match relocation_refs.get(&DirKey { id: target, ty }) {
                        Some(target_ref) => {
                            builder.add_cl(target_ref.extent.0 as u32);
                        },
                        None => {
                            return Err(IsoCreationError::RelocationTarget);
                        },
                    }
                },
                DirectoryRelocation::Moved { .. } => {
                    builder.add_re();
                },
                DirectoryRelocation::InPlace => {},
            }
            builder.build_split(max)
        } else {
            SplitSu::empty()
        };
        let place: DirectoryRef = directory.get_dir_ref(ty, relocation_refs);
        Ok(PendingRecord::new(&converted_name, split, place, FileFlags::directory()))
    }

    fn build_directory_records(
        records: &mut Vec<PendingRecord>,
        dirs: &Vec<WrittenDirectory>,
        ty: EntryType,
        has_rrip: bool,
        options: &RripOptions,
        inode_counter: &mut u32,
        fallback_time: &RripTime,
        relocation_refs: &RelocationMap,
        Ghost(c): Ghost<Context>,
    ) -> (r: Result<(), IsoCreationError>)
        requires
            c.has_rrip == has_rrip,
            c.options == *options,
            c.fallback == fallback_time@,
            c.ty == ty,
            c.refs == relocation_refs@,
            children_fit(dirs_view(dirs@), ty),
            splits_wf(old(records)@),
            has_rrip ==> *old(inode_counter) + dirs@.len() <= u32::MAX,
        ensures
            match child_records(dirs_view(dirs@), *old(inode_counter) as int, c) {
                Ok(children) => {
                    &&& r == Ok::<(), IsoCreationError>(())
                    &&& record_views(final(records)@) == record_views(old(records)@) + children
                    &&& splits_wf(final(records)@)
                    &&& *final(inode_counter) == *old(inode_counter) + (if has_rrip {
                        dirs@.len()
                    } else {
                        0
                    })
                },
                Err(e) => r == Err::<(), IsoCreationError>(e),
            },
    {
        let ghost all = dirs_view(dirs@);
        let ghost start = record_views(records@);
        let ghost inode0 = *inode_counter as int;
        let mut i: usize = 0;
        assert(start + Seq::empty() =~= start);
        while i < dirs.len()
            invariant
                i <= dirs@.len(),
                all == dirs_view(dirs@),
                c.has_rrip == has_rrip,
                c.options == *options,
                c.fallback == fallback_time@,
                c.ty == ty,
                c.refs == relocation_refs@,
                children_fit(all, ty),
                inode0 == *old(inode_counter),
                has_rrip ==> inode0 + dirs@.len() <= u32::MAX,
                *inode_counter == inode0 + (if has_rrip {
                    i as int
                } else {
                    0
                }),
                splits_wf(records@),
                child_records(all.take(i as int), inode0, c) is Ok,
                record_views(records@) == start + child_records(
                    all.take(i as int),
                    inode0,
                    c,
                )->Ok_0,
            decreases dirs.len() - i,
        {
            let directory: &WrittenDirectory = &dirs[i];
            let ghost dv = directory.view();
            let ghost before = record_views(records@);
            proof {
                assert(all[i as int] == dv);
                assert(all.take(i + 1).drop_last() =~= all.take(i as int));
                assert(all.take(i + 1).last() == dv);
                child_record_inode(dv, inode0 + i, *inode_counter as int, c);
                if child_record(dv, (inode0 + i) as u32, c) is Err {
                    child_records_error(all, i + 1, inode0, c);
                }
            }
            let inode: u32 = *inode_counter;
            if has_rrip {
                *inode_counter += 1;
            }
            let record: PendingRecord = match Self::build_child_record(
                directory,
                ty,
                has_rrip,
                options,
                inode,
                fallback_time,
                relocation_refs,
                Ghost(c),
            ) {
                Ok(record) => record,
                Err(e) => {
                    return Err(e);
                },
            };
            assert(record.view() == child_record(dv, (inode0 + i) as u32, c)->Ok_0);
            records.push(record);
            i += 1;
            assert(record_views(records@) =~= before.push(record.view()));
            assert(record_views(records@) =~= start + child_records(
                all.take(i as int),
                inode0,
                c,
            )->Ok_0);
        }
        assert(all.take(i as int) =~= all);
        Ok(())
    }

    fn build_file_records(
        records: &mut Vec<PendingRecord>,
        files: &Vec<WrittenFile>,
        ty: EntryType,
        has_rrip: bool,
        options: &RripOptions,
        inode_counter: &mut u32,
        fallback_time: &RripTime,
        Ghost(inode0): Ghost<int>,
        Ghost(c): Ghost<Context>,
    )
        requires
            c.has_rrip == has_rrip,
            c.options == *options,
            c.fallback == fallback_time@,
            c.ty == ty,
            no_directories(written_files_view(files@)),
            splits_wf(old(records)@),
            has_rrip ==> *old(inode_counter) == inode0,
            has_rrip ==> *old(inode_counter) + files@.len() <= u32::MAX,
        ensures
            record_views(final(records)@) == record_views(old(records)@) + files_records(
                written_files_view(files@),
                inode0,
                c,
            ),
            splits_wf(final(records)@),
            *final(inode_counter) == *old(inode_counter) + (if has_rrip {
                files@.len()
            } else {
                0
            }),
    {
        let ghost all = written_files_view(files@);
        let ghost start = record_views(records@);
        let ghost counter0 = *inode_counter;
        let mut i: usize = 0;
        assert(start + Seq::empty() =~= start);
        while i < files.len()
            invariant
                i <= files@.len(),
                all == written_files_view(files@),
                c.has_rrip == has_rrip,
                c.options == *options,
                c.fallback == fallback_time@,
                c.ty == ty,
                no_directories(all),
                has_rrip ==> counter0 + files@.len() <= u32::MAX,
                has_rrip ==> counter0 == inode0,
                *inode_counter == counter0 + (if has_rrip {
                    i as int
                } else {
                    0
                }),
                splits_wf(records@),
                record_views(records@) == start + files_records(all.take(i as int), inode0, c),
            decreases files.len() - i,
        {
            let file: &WrittenFile = &files[i];
            let ghost fv = file.view();
            let ghost before = record_views(records@);
            let ghost own = file_records(fv, (inode0 + i) as u32, c);
            proof {
                assert(all[i as int] == fv);
                assert(all.take(i + 1).drop_last() =~= all.take(i as int));
                assert(all.take(i + 1).last() == fv);
                crate::iso::name::identifiers_fit(ty, fv.name);
                assert(!(file.kind is Directory)) by {
                    assert(!(fv.kind is Directory));
                }
            }
            let converted_name: ConvertedName = ty.convert_name(file.name.as_str());
            let split: SplitSu = if has_rrip {
                let inode: u32 = *inode_counter;
                *inode_counter += 1;
                let max: usize = available_su_space(converted_name.as_bytes().len());
                let kind: RripEntryKind<'_> = RripEntryKind::Entry {
                    original_name: file.name.as_str(),
                    metadata: file.metadata,
                    kind: &file.kind,
                };
                build_rrip_entries(kind, inode, options, fallback_time).build_split(max)
            } else {
                SplitSu::empty()
            };
            let len: usize = file.additional_extents.len();
            let first_flags: FileFlags = if len == 0 {
                FileFlags::empty()
            } else {
                FileFlags::not_final()
            };
            let first: PendingRecord = PendingRecord::new(
                &converted_name,
                split,
                file.entry,
                first_flags,
            );
            assert(first.view() == own[0]);
            records.push(first);
            let mut k: usize = 0;
            assert(record_views(records@) =~= before + own.take(1));
            while k < len
                invariant
                    k <= len,
                    len == file.additional_extents@.len(),
                    fv == file.view(),
                    own == file_records(fv, (inode0 + i) as u32, c),
                    c.ty == ty,
                    converted_name.bytes@ == file_identifier(ty, fv.name),
                    splits_wf(records@),
                    record_views(records@) == before + own.take(k + 1),
                decreases len - k,
            {
                let flags: FileFlags = if k == len - 1 {
                    FileFlags::empty()
                } else {
                    FileFlags::not_final()
                };
                let ghost was = record_views(records@);
                let record: PendingRecord = PendingRecord::new(
                    &converted_name,
                    SplitSu::empty(),
                    file.additional_extents[k],
                    flags,
                );
                assert(record.view() == own[k + 1]);
                records.push(record);
                k += 1;
                assert(record_views(records@) =~= was.push(record.view()));
                assert(record_views(records@) =~= before + own.take(k + 1));
            }
            i += 1;
            assert(own.take(len + 1) =~= own);
            assert(record_views(records@) =~= start + files_records(all.take(i as int), inode0, c));
        }
        assert(all.take(i as int) =~= all);
    }

    /// Keeps identifiers apart: each file gets an identifier that no file before it has,
    /// and all records of a file get the same.
    pub fn deduplicate_names(records: &mut Vec<PendingRecord>, ty: EntryType)
        ensures
            record_views(final(records)@) == deduped(record_views(old(records)@), ty),
            splits_wf(old(records)@) ==> splits_wf(final(records)@),
    {
        let ghost goal = deduped(record_views(records@), ty);
        let ghost wf0 = splits_wf(records@);
        let mut seen: SeenNames = SeenNames { names: Vec::new() };
        assert(seen@ =~= Set::empty());
        let mut start: usize = 0;
        while start < records.len()
            invariant
                start <= records@.len(),
                seen.names@.len() <= start,
                dedup_from(record_views(records@), start as int, seen@, ty) == goal,
                wf0 ==> splits_wf(records@),
            decreases records.len() - start,
        {
            let ghost rv = record_views(records@);
            assert(rv[start as int] == records@[start as int].view());
            let special: bool = {
                let name: &[u8] = records[start].name.as_bytes();
                name.len() == 1 && (name[0] == 0x00 || name[0] == 0x01)
            };
            if special {
                start += 1;
                continue ;
            }
            let mut end: usize = start + 1;
            while end < records.len() && records[end - 1].flags.contains(FileFlags::not_final())
                invariant
                    start < end <= records@.len(),
                    rv == record_views(records@),
                    group_end(rv, start as int) == group_end(rv, end - 1),
                decreases records.len() - end,
            {
                assert(rv[end - 1] == records@[end - 1].view());
                end += 1;
            }
            assert(end == group_end(rv, start as int)) by {
                assert(rv[end - 1] == records@[end - 1].view());
            }
            let unique: PendingRecordName = make_unique(&records[start].name, &seen, ty);
            seen.insert(unique.share());
            let ghost to = renamed(rv, start as int, end as int, unique@);
            let mut k: usize = start;
            assert(renamed(rv, start as int, start as int, unique@) =~= rv);
            while k < end
                invariant
                    start <= k <= end <= records@.len(),
                    records@.len() == rv.len(),
                    record_views(records@) == renamed(rv, start as int, k as int, unique@),
                    wf0 ==> splits_wf(records@),
                decreases end - k,
            {
                let ghost was = records@;
                records[k].name = unique.share();
                k += 1;
                proof {
                    assert forall|i: int| 0 <= i < records@.len() implies #[trigger] record_views(
                        records@,
                    )[i] == renamed(rv, start as int, k as int, unique@)[i] by {
                        assert(record_views(was)[i] == was[i].view());
                        assert(record_views(records@)[i] == records@[i].view());
                    }
                    assert(record_views(records@) =~= renamed(
                        rv,
                        start as int,
                        k as int,
                        unique@,
                    ));
                }
            }
            start = end;
        }
    }

    /// Brings records into ascending order: the directory itself, its parent, all others
    /// by identifier, and records with one identifier in the order they had.
    pub fn sort_records(records: &mut Vec<PendingRecord>)
        ensures
            record_views(final(records)@) == sorted(record_views(old(records)@)),
            exists|perm: Seq<int>|
                #![trigger permuted(record_views(old(records)@), perm)]
                stable_order(sort_keys(record_views(old(records)@)), perm) && record_views(
                    final(records)@,
                ) == permuted(record_views(old(records)@), perm),
            splits_wf(old(records)@) ==> splits_wf(final(records)@),
    {
        let ghost rv = record_views(records@);
        let ghost input = records@;
        let n: usize = records.len();
        let mut keys: Vec<Vec<u8>> = Vec::new();
        let mut i: usize = 0;
        while i < n
            invariant
                i <= n,
                n == records@.len(),
                records@ == input,
                rv == record_views(input),
                keys@.len() == i,
                forall|k: int| 0 <= k < i ==> (#[trigger] keys@[k])@ == sort_key(rv[k].name),
            decreases n - i,
        {
            let name: &[u8] = records[i].name.as_bytes();
            let rank: u8 = if name.len() == 1 && name[0] == 0 {
                0
            } else if name.len() == 1 && name[0] == 1 {
                1
            } else {
                2
            };
            let mut key: Vec<u8> = Vec::new();
            key.push(rank);
            crate::bytes::push_all(&mut key, name);
            proof {
                let s = name@;
                assert(rv[i as int].name == s);
                if s.len() == 1 && s[0] == 0 {
                    assert(s =~= seq![0u8]);
                } else if s.len() == 1 && s[0] == 1 {
                    assert(s =~= seq![1u8]);
                }
                assert(key@ =~= sort_key(s));
            }
            keys.push(key);
            i += 1;
        }
        assert(key_views(keys@) =~= sort_keys(rv));
        let perm: Vec<usize> = sort_positions(&keys);
        let ghost p = positions(perm@);
        proof {
            let chosen = choose|q: Seq<int>| stable_order(sort_keys(rv), q);
            assert(stable_order(sort_keys(rv), p));
            stable_order_is_unique(sort_keys(rv), p, chosen);
        }
        let mut out: Vec<PendingRecord> = Vec::new();
        let mut k: usize = 0;
        while k < n
            invariant
                k <= n,
                n == input.len(),
                n == records@.len(),
                n == perm@.len(),
                p == positions(perm@),
                stable_order(sort_keys(rv), p),
                rv == record_views(input),
                out@.len() == k,
                forall|j: int| 0 <= j < k ==> #[trigger] out@[j] == input[p[j]],
                forall|j: int| k <= j < n ==> records@[#[trigger] p[j]] == input[p[j]],
            decreases n - k,
        {
            let at: usize = perm[k];
            assert(p[k as int] == at);
            let mut record: PendingRecord = PendingRecord::current_dir(SplitSu::empty());
            let ghost was = records@;
            proof {
                assert forall|j: int| k < j < n implies p[j] != at by {
                    assert(crate::iso::order::before(sort_keys(rv), p[k as int], p[j]));
                    crate::iso::order::lex_lt_total(sort_keys(rv)[at as int], sort_keys(rv)[p[j]]);
                }
            }
            core::mem::swap(&mut record, &mut records[at]);
            assert(record == was[at as int]);
            out.push(record);
            k += 1;
        }
        proof {
            assert(record_views(out@) =~= permuted(rv, p)) by {
                assert forall|j: int| 0 <= j < n implies #[trigger] record_views(out@)[j]
                    == permuted(rv, p)[j] by {
                    assert(out@[j] == input[p[j]]);
                    assert(rv[p[j]] == input[p[j]].view());
                }
            }
            if splits_wf(input) {
                assert forall|j: int| 0 <= j < out@.len() implies (
                #[trigger] out@[j]).split.wf() by {
                    assert(out@[j] == input[p[j]]);
                }
            }
        }
        *records = out;
    }

    /// Bytes of all continuation data.
    pub fn overflow_len(&self) -> (r: u64)
        requires
            overflow_total(self@) <= u64::MAX,
        ensures
            r == overflow_total(self@),
    {
        let ghost all = self@;
        let mut total: u64 = 0;
        let mut i: usize = 0;
        while i < self.0.len()
            invariant
                i <= self.0@.len(),
                all == self@,
                overflow_total(all) <= u64::MAX,
                total == overflow_total(all.take(i as int)),
            decreases self.0.len() - i,
        {
            proof {
                assert(all[i as int] == self.0@[i as int].view());
                assert(all.take(i + 1).drop_last() =~= all.take(i as int));
                overflow_total_prefix(all, i + 1);
            }
            total = total + self.0[i].split.overflow.len() as u64;
            i += 1;
        }
        assert(all.take(i as int) =~= all);
        total
    }

    /// Whether any record has continuation data.
    pub fn has_overflow(&self) -> (r: bool)
        ensures
            r == (exists|i: int| 0 <= i < self@.len() && (#[trigger] self@[i]).overflow.len() > 0),
    {
        let mut i: usize = 0;
        while i < self.0.len()
            invariant
                i <= self.0@.len(),
                forall|k: int| 0 <= k < i ==> (#[trigger] self@[k]).overflow.len() == 0,
            decreases self.0.len() - i,
        {
            assert(self@[i as int] == self.0@[i as int].view());
            if self.0[i].split.has_overflow() {
                assert(self@[i as int].overflow.len() > 0);
                return true;
            }
            i += 1;
        }
        false
    }

    /// The records.
    pub fn iter(&self) -> (r: &Vec<PendingRecord>)
        ensures
            record_views(r@) == self@,
            *r == self.0,
    {
        &self.0
    }

    /// The records, for change.
    pub fn iter_mut(&mut self) -> (r: &mut Vec<PendingRecord>)
        ensures
            *r == old(self).0,
            final(self).0 == *final(r),
    {
        &mut self.0
    }
}

/// Bytes of all continuation data.
pub open spec fn overflow_total(records: Seq<RecordView>) -> int
    decreases records.len(),
{
    if records.len() == 0 {
        0
    } else {
        overflow_total(records.drop_last()) + records.last().overflow.len()
    }
}

/// Each record adds to the continuation data.
pub proof fn overflow_total_prefix(records: Seq<RecordView>, k: int)
    requires
        0 <= k <= records.len(),
    ensures
        0 <= overflow_total(records.take(k)) <= overflow_total(records),
    decreases records.len(),
{
    if k == records.len() {
        assert(records.take(k) =~= records);
        if k > 0 {
            overflow_total_prefix(records.drop_last(), k - 1);
            assert(records.drop_last().take(k - 1) =~= records.drop_last());
        }
    } else {
        overflow_total_prefix(records.drop_last(), k);
        assert(records.drop_last().take(k) =~= records.take(k));
    }
}

proof fn child_record_inode(dir: DirView, a: int, b: int, c: Context)
    requires
        c.has_rrip ==> a == b,
    ensures
        child_record(dir, a as u32, c) == child_record(dir, b as u32, c),
{
    reveal(child_record);
}

proof fn child_records_error(dirs: Seq<DirView>, k: int, inode: int, c: Context)
    requires
        0 <= k <= dirs.len(),
        child_records(dirs.take(k), inode, c) is Err,
    ensures
        child_records(dirs, inode, c) is Err,
        child_records(dirs, inode, c)->Err_0 == child_records(dirs.take(k), inode, c)->Err_0,
    decreases dirs.len(),
{
    if k == dirs.len() {
        assert(dirs.take(k) =~= dirs);
    } else {
        assert(dirs.drop_last().take(k) =~= dirs.take(k));
        child_records_error(dirs.drop_last(), k, inode, c);
    }
}

/// The options behind a reference.
pub open spec fn option_value(options: Option<&RripOptions>) -> Option<RripOptions> {
    match options {
        Some(o) => Some(*o),
        None => None,
    }
}

/// What the records depend on: Rock Ridge fields are written where the namespace has them
/// and the options enable them.
pub open spec fn context(
    ty: EntryType,
    options: Option<RripOptions>,
    fallback: Seq<u8>,
    refs: Map<DirKey, DirectoryRef>,
) -> Context {
    match options {
        Some(o) if o.enabled => Context { ty, has_rrip: ty.rrip(), options: o, fallback, refs },
        _ => Context { ty, has_rrip: false, options: rrip_disabled(), fallback, refs },
    }
}

/// Whether link counts fit and every child that is not a placeholder has an extent.
pub open spec fn children_fit(dirs: Seq<DirView>, ty: EntryType) -> bool {
    forall|i: int|
        0 <= i < dirs.len() ==> {
            &&& (#[trigger] dirs[i]).dirs.len() + 2 <= u32::MAX
            &&& !(dirs[i].relocation is Placeholder) ==> dirs[i].entries.dom().contains(ty)
        }
}

/// Whether none of the files is a directory.
pub open spec fn no_directories(files: Seq<FileView>) -> bool {
    forall|i: int| 0 <= i < files.len() ==> !((#[trigger] files[i]).kind is Directory)
}

/// Whether the records of a directory can be built in a namespace.
pub open spec fn dir_fits(dir: DirView, ty: EntryType) -> bool {
    &&& dir.dirs.len() + 2 <= u32::MAX
    &&& children_fit(dir.dirs, ty)
    &&& no_directories(dir.files)
}

} // verus!
