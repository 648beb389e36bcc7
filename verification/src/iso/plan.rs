//! Where directories and files of an image lie.

use crate::iso::error::IsoCreationError;
use crate::iso::extent::ExtentIter;
#[allow(unused_imports)]
use crate::iso::extent::{
    align_up, align_up_bounds, extent_end, extent_end_grows, extent_list,
    extents_end_behind_the_data,
};
#[allow(unused_imports)]
use crate::iso::layout::{pack_end, pack_end_grows, record_size};
use crate::iso::layout::{align, directory_record_size, layout_directory_records};
#[allow(unused_imports)]
use crate::iso::records::{
    context, deduped, dir_fits, option_value, overflow_total, overflow_total_prefix, raw_records,
    record_views, sorted, RecordView,
};
use crate::iso::records::{PendingRecord, PendingRecords};
use crate::iso::refmap::{DirKey, RelocationMap};
use crate::iso::relocate::FileOrder;
#[allow(unused_imports)]
use crate::iso::relocate::{ids_view, order_view};
use crate::iso::time::RripTime;
#[allow(unused_imports)]
use crate::iso::tree::KindView;
#[allow(unused_imports)]
use crate::iso::types::{empty_ref, LogicalSector};
use crate::iso::types::{DirectoryRef, EntryType, RripOptions};
#[allow(unused_imports)]
use crate::iso::written::{
    dir_at, replaced_dir_is_found, valid_path, with_dir_at, DirView, FileView,
};
use crate::iso::written::{
    DirectoryId, DirectoryRelocation, WrittenDirectory, WrittenFile, WrittenFiles,
};
use vstd::prelude::*;

verus! {

/// A directory in a namespace.
#[derive(Debug)]
pub struct Job {
    /// The way to the directory.
    pub id: DirectoryId,
    /// The namespace.
    pub ty: EntryType,
}

impl Job {
    /// The mathematical value.
    pub open spec fn view(&self) -> (Seq<usize>, EntryType) {
        (self.id@, self.ty)
    }
}

/// The values of jobs.
pub open spec fn job_views(jobs: Seq<Job>) -> Seq<(Seq<usize>, EntryType)> {
    Seq::new(jobs.len(), |i: int| jobs[i]@)
}

/// Every directory in every namespace, directory by directory.
pub open spec fn pairs(paths: Seq<Seq<usize>>, types: Seq<EntryType>) -> Seq<
    (Seq<usize>, EntryType),
>
    decreases paths.len(),
{
    if paths.len() == 0 {
        Seq::empty()
    } else {
        pairs(paths.drop_last(), types) + Seq::new(
            types.len(),
            |j: int| (paths.last(), types[j]),
        )
    }
}

/// Whether every job's way leads to a directory of the tree.
pub open spec fn jobs_valid(root: DirView, jobs: Seq<(Seq<usize>, EntryType)>) -> bool {
    forall|i: int| 0 <= i < jobs.len() ==> valid_path(root, (#[trigger] jobs[i]).0)
}

/// Every directory in every namespace, directory by directory.
pub fn make_jobs(order: &Vec<DirectoryId>, types: &Vec<EntryType>) -> (r: Vec<Job>)
    ensures
        job_views(r@) == pairs(ids_view(order@), types@),
{
    let ghost paths = ids_view(order@);
    let mut jobs: Vec<Job> = Vec::new();
    let mut i: usize = 0;
    assert(job_views(jobs@) =~= pairs(paths.take(0), types@));
    while i < order.len()
        invariant
            i <= order@.len(),
            paths == ids_view(order@),
            job_views(jobs@) == pairs(paths.take(i as int), types@),
        decreases order.len() - i,
    {
        let ghost before = job_views(jobs@);
        let ghost own = Seq::new(types@.len(), |j: int| (paths[i as int], types@[j]));
        let mut j: usize = 0;
        assert(before + own.take(0) =~= before);
        while j < types.len()
            invariant
                i < order@.len(),
                j <= types@.len(),
                paths == ids_view(order@),
                own == Seq::new(types@.len(), |j: int| (paths[i as int], types@[j])),
                job_views(jobs@) == before + own.take(j as int),
            decreases types.len() - j,
        {
            let ghost so_far = job_views(jobs@);
            jobs.push(Job { id: order[i].duplicate(), ty: types[j] });
            assert(job_views(jobs@) =~= so_far.push((paths[i as int], types@[j as int])));
            j += 1;
            assert(job_views(jobs@) =~= before + own.take(j as int));
        }
        assert(own.take(j as int) =~= own);
        assert(paths.take(i + 1).drop_last() =~= paths.take(i as int));
        i += 1;
        assert(paths.take(i as int).last() == paths[i - 1]);
    }
    assert(paths.take(i as int) =~= paths);
    jobs
}

/// The tree with the extent of one directory in one namespace set.
pub open spec fn with_entry(
    root: DirView,
    job: (Seq<usize>, EntryType),
    r: DirectoryRef,
) -> DirView {
    let dir = dir_at(root, job.0);
    with_dir_at(root, job.0, DirView { entries: dir.entries.insert(job.1, r), ..dir })
}

/// The tree with the extents of directories set.
pub open spec fn with_refs(
    root: DirView,
    jobs: Seq<(Seq<usize>, EntryType)>,
    refs: Seq<DirectoryRef>,
) -> DirView
    decreases jobs.len(),
{
    if jobs.len() == 0 {
        root
    } else {
        with_entry(with_refs(root, jobs.drop_last(), refs), jobs.last(), refs[jobs.len() - 1])
    }
}

/// The map with the extent of a directory in a namespace added under its number. A
/// relocated directory is also found under the number that its placeholder names.
pub open spec fn with_key(
    refs: Map<DirKey, DirectoryRef>,
    dir: DirView,
    ty: EntryType,
    r: DirectoryRef,
) -> Map<DirKey, DirectoryRef> {
    let plain = refs.insert(DirKey { id: dir.id, ty }, r);
    match dir.relocation {
        DirectoryRelocation::Moved { id, .. } => plain.insert(DirKey { id, ty }, r),
        _ => plain,
    }
}

/// The extents of directories by number and namespace.
pub open spec fn ref_map(
    root: DirView,
    jobs: Seq<(Seq<usize>, EntryType)>,
    refs: Seq<DirectoryRef>,
) -> Map<DirKey, DirectoryRef>
    decreases jobs.len(),
{
    if jobs.len() == 0 {
        Map::empty()
    } else {
        with_key(
            ref_map(root, jobs.drop_last(), refs),
            dir_at(root, jobs.last().0),
            jobs.last().1,
            refs[jobs.len() - 1],
        )
    }
}

/// Whether two files have the same data.
pub open spec fn same_file(a: FileView, b: FileView, strict: bool) -> bool {
    &&& a.name == b.name
    &&& a.kind == b.kind
    &&& a.metadata == b.metadata
    &&& strict ==> a.additional_extents.len() == b.additional_extents.len()
}

/// Whether the trees have the same directories, with files of the same data. Extents may
/// differ, and where `strict` is false, how many a file has; directories only gain them.
pub open spec fn same_tree(a: DirView, b: DirView, strict: bool) -> bool
    decreases a,
{
    &&& a.id == b.id
    &&& a.name == b.name
    &&& a.rrip_name == b.rrip_name
    &&& a.metadata == b.metadata
    &&& a.relocation == b.relocation
    &&& a.entries.dom().subset_of(b.entries.dom())
    &&& a.dirs.len() == b.dirs.len()
    &&& a.files.len() == b.files.len()
    &&& forall|i: int|
        0 <= i < a.files.len() ==> same_file(#[trigger] a.files[i], b.files[i], strict)
    &&& forall|i: int|
        0 <= i < a.dirs.len() ==> same_tree(#[trigger] a.dirs[i], b.dirs[i], strict)
}

proof fn same_tree_step(a: DirView, b: DirView, i: int, strict: bool)
    requires
        same_tree(a, b, strict),
        0 <= i < a.dirs.len(),
    ensures
        same_tree(a.dirs[i], b.dirs[i], strict),
{
}

/// A tree is the same as itself.
pub proof fn same_tree_reflexive(a: DirView, strict: bool)
    ensures
        same_tree(a, a, strict),
    decreases a,
{
    assert forall|i: int| 0 <= i < a.dirs.len() implies same_tree(
        #[trigger] a.dirs[i],
        a.dirs[i], strict,
    ) by {
        same_tree_reflexive(a.dirs[i], strict);
    }
}

/// Trees that are the same as a third are the same.
pub proof fn same_tree_transitive(a: DirView, b: DirView, c: DirView, strict: bool)
    requires
        same_tree(a, b, strict),
        same_tree(b, c, strict),
    ensures
        same_tree(a, c, strict),
    decreases a,
{
    assert forall|i: int| 0 <= i < a.dirs.len() implies same_tree(
        #[trigger] a.dirs[i],
        c.dirs[i], strict,
    ) by {
        same_tree_step(a, b, i, strict);
        same_tree_step(b, c, i, strict);
        same_tree_transitive(a.dirs[i], b.dirs[i], c.dirs[i], strict);
    }
    assert forall|i: int| 0 <= i < a.files.len() implies same_file(
        #[trigger] a.files[i],
        c.files[i], strict,
    ) by {
        assert(same_file(a.files[i], b.files[i], strict));
        assert(same_file(b.files[i], c.files[i], strict));
    }
}

/// In trees that are the same, a way leads to directories that are the same.
pub proof fn same_tree_at(a: DirView, b: DirView, path: Seq<usize>, strict: bool)
    requires
        same_tree(a, b, strict),
        valid_path(a, path),
    ensures
        valid_path(b, path),
        same_tree(dir_at(a, path), dir_at(b, path), strict),
    decreases path.len(),
{
    if path.len() > 0 {
        same_tree_step(a, b, path[0] as int, strict);
        same_tree_at(a.dirs[path[0] as int], b.dirs[path[0] as int], path.drop_first(), strict);
    }
}

/// Replacing a directory by one that is the same gives a tree that is the same.
pub proof fn same_tree_replaced(a: DirView, path: Seq<usize>, x: DirView, strict: bool)
    requires
        valid_path(a, path),
        same_tree(dir_at(a, path), x, strict),
    ensures
        same_tree(a, with_dir_at(a, path, x), strict),
    decreases path.len(),
{
    if path.len() > 0 {
        let k = path[0] as int;
        same_tree_replaced(a.dirs[k], path.drop_first(), x, strict);
        let b = with_dir_at(a, path, x);
        assert forall|i: int| 0 <= i < a.dirs.len() implies same_tree(
            #[trigger] a.dirs[i],
            b.dirs[i], strict,
        ) by {
            if i != k {
                same_tree_reflexive(a.dirs[i], strict);
            }
        }
        assert forall|i: int| 0 <= i < a.files.len() implies same_file(
            #[trigger] a.files[i],
            b.files[i], strict,
        ) by {}
    }
}

proof fn with_entry_same(root: DirView, job: (Seq<usize>, EntryType), r: DirectoryRef, strict: bool)
    requires
        valid_path(root, job.0),
    ensures
        same_tree(root, with_entry(root, job, r), strict),
        valid_path(with_entry(root, job, r), job.0),
{
    let dir = dir_at(root, job.0);
    let new = DirView { entries: dir.entries.insert(job.1, r), ..dir };
    same_tree_reflexive(dir, strict);
    assert(same_tree(dir, new, strict)) by {
        assert forall|i: int| 0 <= i < dir.dirs.len() implies same_tree(
            #[trigger] dir.dirs[i],
            new.dirs[i], strict,
        ) by {
            same_tree_step(dir, dir, i, strict);
        }
    }
    same_tree_replaced(root, job.0, new, strict);
    replaced_dir_is_found(root, job.0, new, new);
}

/// Setting extents of directories keeps everything else.
pub proof fn with_refs_same(
    root: DirView,
    jobs: Seq<(Seq<usize>, EntryType)>,
    refs: Seq<DirectoryRef>,
    strict: bool,
)
    requires
        jobs_valid(root, jobs),
    ensures
        same_tree(root, with_refs(root, jobs, refs), strict),
    decreases jobs.len(),
{
    if jobs.len() == 0 {
        same_tree_reflexive(root, strict);
    } else {
        let init = jobs.drop_last();
        assert forall|i: int| 0 <= i < init.len() implies valid_path(
            root,
            (#[trigger] init[i]).0,
        ) by {
            assert(valid_path(root, jobs[i].0));
        }
        with_refs_same(root, init, refs, strict);
        let mid = with_refs(root, init, refs);
        assert(valid_path(root, jobs[jobs.len() - 1].0));
        same_tree_at(root, mid, jobs.last().0, strict);
        with_entry_same(mid, jobs.last(), refs[jobs.len() - 1], strict);
        same_tree_transitive(root, mid, with_refs(root, jobs, refs), strict);
    }
}

/// Sets the extents of directories.
pub fn set_refs(files: &mut WrittenFiles, jobs: &Vec<Job>, refs: &Vec<DirectoryRef>)
    requires
        jobs_valid(old(files)@, job_views(jobs@)),
        refs@.len() == jobs@.len(),
    ensures
        final(files)@ == with_refs(old(files)@, job_views(jobs@), refs@),
{
    let ghost root = files@;
    let ghost all = job_views(jobs@);
    let mut i: usize = 0;
    assert(all.take(0) =~= Seq::empty());
    while i < jobs.len()
        invariant
            i <= jobs@.len(),
            all == job_views(jobs@),
            refs@.len() == jobs@.len(),
            jobs_valid(root, all),
            files@ == with_refs(root, all.take(i as int), refs@),
        decreases jobs.len() - i,
    {
        let ghost done = all.take(i as int);
        proof {
            assert forall|k: int| 0 <= k < done.len() implies valid_path(
                root,
                (#[trigger] done[k]).0,
            ) by {
                assert(valid_path(root, all[k].0));
            }
            with_refs_same(root, done, refs@, true);
            assert(valid_path(root, all[i as int].0));
            same_tree_at(root, files@, all[i as int].0, true);
            assert(all.take(i + 1).drop_last() =~= done);
            assert(all[i as int] == jobs@[i as int]@);
        }
        let dir: &mut WrittenDirectory = files.get_mut(&jobs[i].id);
        dir.set_entry(jobs[i].ty, refs[i]);
        i += 1;
    }
    assert(all.take(i as int) =~= all);
}

/// The extents of directories by number and namespace.
pub fn make_ref_map(files: &WrittenFiles, jobs: &Vec<Job>, refs: &Vec<DirectoryRef>) -> (r:
    RelocationMap)
    requires
        jobs_valid(files@, job_views(jobs@)),
        refs@.len() == jobs@.len(),
    ensures
        r@ == ref_map(files@, job_views(jobs@), refs@),
{
    let ghost all = job_views(jobs@);
    let mut map: RelocationMap = RelocationMap::new();
    let mut i: usize = 0;
    assert(all.take(0) =~= Seq::empty());
    while i < jobs.len()
        invariant
            i <= jobs@.len(),
            all == job_views(jobs@),
            refs@.len() == jobs@.len(),
            jobs_valid(files@, all),
            map@ == ref_map(files@, all.take(i as int), refs@),
        decreases jobs.len() - i,
    {
        proof {
            assert(valid_path(files@, all[i as int].0));
            assert(all[i as int] == jobs@[i as int]@);
            assert(all.take(i + 1).drop_last() =~= all.take(i as int));
        }
        let dir: &WrittenDirectory = files.get(&jobs[i].id);
        let ty: EntryType = jobs[i].ty;
        map.insert(DirKey { id: dir.id, ty }, refs[i]);
        match dir.relocation {
            DirectoryRelocation::Moved { id, .. } => {
                map.insert(DirKey { id, ty }, refs[i]);
            },
            _ => {},
        }
        i += 1;
    }
    assert(all.take(i as int) =~= all);
    map
}

/// How many serial numbers the records of a directory take.
pub open spec fn inode_step(dir: DirView, ty: EntryType, rrip: Option<RripOptions>) -> int {
    if context(ty, rrip, Seq::empty(), Map::empty()).has_rrip {
        (dir.dirs.len() + dir.files.len()) as int
    } else {
        0
    }
}

/// Whether a record has more than 255 bytes.
pub open spec fn has_long_record(records: Seq<RecordView>) -> bool {
    exists|i: int| 0 <= i < records.len() && record_size(#[trigger] records[i]) > 255
}

fn find_long_record(records: &PendingRecords) -> (r: bool)
    ensures
        r == has_long_record(records@),
{
    let ghost all = records@;
    let items: &Vec<PendingRecord> = records.iter();
    let mut i: usize = 0;
    while i < items.len()
        invariant
            i <= items@.len(),
            all == record_views(items@),
            all == records@,
            forall|k: int| 0 <= k < i ==> record_size(#[trigger] all[k]) <= 255,
        decreases items.len() - i,
    {
        assert(all[i as int] == items@[i as int].view());
        if items[i].name.as_bytes().len() > 255 || items[i].split.inline.len() > 255
            || directory_record_size(&items[i]) > 255 {
            assert(record_size(all[i as int]) > 255);
            return true;
        }
        i += 1;
    }
    false
}

/// The records of a directory in a namespace, in order, with serial numbers from `inode`
/// on.
pub open spec fn records_of(
    dir: DirView,
    is_root: bool,
    ty: EntryType,
    inode: int,
    rrip: Option<RripOptions>,
    time: Seq<u8>,
    refs: Map<DirKey, DirectoryRef>,
) -> Result<Seq<RecordView>, IsoCreationError> {
    if !dir_fits(dir, ty) || inode + inode_step(dir, ty, rrip) > u32::MAX {
        Err(IsoCreationError::TooManyEntries)
    } else {
        match raw_records(dir, is_root, inode, context(ty, rrip, time, refs)) {
            Err(e) => Err(e),
            Ok(raw) => {
                let records = sorted(deduped(raw, ty));
                if has_long_record(records) {
                    Err(IsoCreationError::RecordTooLong)
                } else {
                    Ok(records)
                }
            },
        }
    }
}

fn fits_directory(dir: &WrittenDirectory, ty: EntryType) -> (r: bool)
    ensures
        r == dir_fits(dir.view(), ty),
{
    let ghost dv = dir.view();
    if dir.dirs.len() as u64 > 4294967293 {
        return false;
    }
    let mut i: usize = 0;
    while i < dir.dirs.len()
        invariant
            i <= dir.dirs@.len(),
            dv == dir.view(),
            forall|k: int|
                0 <= k < i ==> {
                    &&& (#[trigger] dv.dirs[k]).dirs.len() + 2 <= u32::MAX
                    &&& !(dv.dirs[k].relocation is Placeholder) ==> dv.dirs[k].entries.dom().contains(
                        ty,
                    )
                },
        decreases dir.dirs.len() - i,
    {
        let child: &WrittenDirectory = &dir.dirs[i];
        assert(dv.dirs[i as int] == child.view());
        if child.dirs.len() as u64 > 4294967293 {
            return false;
        }
        let placed: bool = match child.relocation {
            DirectoryRelocation::Placeholder { .. } => true,
            _ => child.entries.get(&ty).is_some(),
        };
        if !placed {
            return false;
        }
        i += 1;
    }
    let mut i: usize = 0;
    while i < dir.files.len()
        invariant
            i <= dir.files@.len(),
            dv == dir.view(),
            forall|k: int| 0 <= k < i ==> !((#[trigger] dv.files[k]).kind is Directory),
        decreases dir.files.len() - i,
    {
        let file: &WrittenFile = &dir.files[i];
        assert(dv.files[i as int] == file.view());
        match &file.kind {
            crate::iso::tree::InputEntryKind::Directory(_) => {
                assert(dv.files[i as int].kind is Directory);
                return false;
            },
            _ => {},
        }
        i += 1;
    }
    true
}

/// The records of a directory in a namespace, in order, with serial numbers from the
/// counter on.
pub fn build_records(
    dir: &WrittenDirectory,
    is_root: bool,
    ty: EntryType,
    inode_counter: &mut u32,
    rrip: Option<&RripOptions>,
    time: &RripTime,
    refs: &RelocationMap,
) -> (r: Result<PendingRecords, IsoCreationError>)
    ensures
        match records_of(
            dir.view(),
            is_root,
            ty,
            *old(inode_counter) as int,
            option_value(rrip),
            time@,
            refs@,
        ) {
            Ok(value) => {
                &&& r matches Ok(records) && records@ == value && records.wf()
                &&& *final(inode_counter) == *old(inode_counter) + inode_step(
                    dir.view(),
                    ty,
                    option_value(rrip),
                )
            },
            Err(e) => r == Err::<PendingRecords, IsoCreationError>(e),
        },
{
    let has_rrip: bool = ty.supports_rrip() && match rrip {
        Some(o) => o.enabled,
        None => false,
    };
    assert(has_rrip == context(ty, option_value(rrip), Seq::empty(), Map::empty()).has_rrip);
    assert(has_rrip == context(ty, option_value(rrip), time@, refs@).has_rrip);
    if !fits_directory(dir, ty) {
        return Err(IsoCreationError::TooManyEntries);
    }
    if has_rrip {
        let left: u64 = (0xFFFF_FFFF - *inode_counter) as u64;
        let dirs: u64 = dir.dirs.len() as u64;
        let files: u64 = dir.files.len() as u64;
        if dirs > left || files > left - dirs {
            return Err(IsoCreationError::TooManyEntries);
        }
    }
    match PendingRecords::new(ty, dir, is_root, inode_counter, rrip, time, refs) {
        Err(e) => Err(e),
        Ok(records) => if find_long_record(&records) {
            Err(IsoCreationError::RecordTooLong)
        } else {
            Ok(records)
        },
    }
}

/// Where directories lie.
pub struct DirPlan {
    /// The extents.
    pub refs: Seq<DirectoryRef>,
    /// The byte behind the last directory.
    pub cursor: int,
    /// The next serial number.
    pub inode: int,
}

/// Where the sectors of records that start at the first sector boundary behind `cursor`
/// end.
pub open spec fn dir_end(cursor: int, records: Seq<RecordView>) -> int {
    align_up(pack_end(align_up(cursor, 2048), records, 2048), 2048)
}

/// Where records lie if the next free byte is `cursor`.
pub open spec fn dir_place(cursor: int, records: Seq<RecordView>) -> DirectoryRef {
    let start = align_up(cursor, 2048);
    DirectoryRef {
        extent: LogicalSector((start / 2048) as usize),
        size: (dir_end(cursor, records) - start) as usize,
    }
}

/// One more directory behind those that are planned, in whole sectors and followed by its
/// continuation area.
#[verifier::opaque]
pub open spec fn plan_step(
    p: DirPlan,
    dir: DirView,
    is_root: bool,
    ty: EntryType,
    rrip: Option<RripOptions>,
    time: Seq<u8>,
    refs: Map<DirKey, DirectoryRef>,
) -> Result<DirPlan, IsoCreationError> {
    match records_of(dir, is_root, ty, p.inode, rrip, time, refs) {
        Err(e) => Err(e),
        Ok(records) => {
            let end = dir_end(p.cursor, records) + overflow_total(records);
            if end + 2048 > usize::MAX {
                Err(IsoCreationError::TooLarge)
            } else {
                Ok(
                    DirPlan {
                        refs: p.refs.push(dir_place(p.cursor, records)),
                        cursor: end,
                        inode: p.inode + inode_step(dir, ty, rrip),
                    },
                )
            }
        },
    }
}

/// The directories one behind the other from `cursor` on.
pub open spec fn plan_dirs(
    root: DirView,
    jobs: Seq<(Seq<usize>, EntryType)>,
    rrip: Option<RripOptions>,
    time: Seq<u8>,
    refs: Map<DirKey, DirectoryRef>,
    cursor: int,
    inode: int,
) -> Result<DirPlan, IsoCreationError>
    decreases jobs.len(),
{
    if jobs.len() == 0 {
        Ok(DirPlan { refs: Seq::empty(), cursor, inode })
    } else {
        match plan_dirs(root, jobs.drop_last(), rrip, time, refs, cursor, inode) {
            Err(e) => Err(e),
            Ok(p) => {
                let (path, ty) = jobs.last();
                plan_step(p, dir_at(root, path), path.len() == 0, ty, rrip, time, refs)
            },
        }
    }
}

proof fn plan_dirs_error(
    root: DirView,
    jobs: Seq<(Seq<usize>, EntryType)>,
    rrip: Option<RripOptions>,
    time: Seq<u8>,
    refs: Map<DirKey, DirectoryRef>,
    cursor: int,
    inode: int,
    k: int,
)
    requires
        0 <= k <= jobs.len(),
        plan_dirs(root, jobs.take(k), rrip, time, refs, cursor, inode) is Err,
    ensures
        plan_dirs(root, jobs, rrip, time, refs, cursor, inode) == plan_dirs(
            root,
            jobs.take(k),
            rrip,
            time,
            refs,
            cursor,
            inode,
        ),
    decreases jobs.len(),
{
    if k == jobs.len() {
        assert(jobs.take(k) =~= jobs);
    } else {
        assert(jobs.drop_last().take(k) =~= jobs.take(k));
        plan_dirs_error(root, jobs.drop_last(), rrip, time, refs, cursor, inode, k);
    }
}

/// Whether the directory and its continuation area end within the memory.
fn fits_image(cursor: u64, records: &PendingRecords) -> (r: bool)
    requires
        cursor + 2048 <= u64::MAX,
        forall|i: int| 0 <= i < records@.len() ==> record_size(#[trigger] records@[i]) <= 255,
    ensures
        r == (dir_end(cursor as int, records@) + overflow_total(records@) + 2048 <= usize::MAX),
        r ==> pack_end(align_up(cursor as int, 2048), records@, 2048) + 2048 <= u64::MAX,
        r ==> 0 <= overflow_total(records@) <= u64::MAX,
        r ==> dir_end(cursor as int, records@) >= align_up(cursor as int, 2048),
{
    let ghost all = records@;
    let ghost first = align_up(cursor as int, 2048);
    let ghost last = pack_end(first, all, 2048);
    proof {
        align_up_bounds(cursor as int, 2048);
        pack_end_grows(first, all, 0, 2048);
        overflow_total_prefix(all, 0);
        align_up_bounds(last, 2048);
        assert(all.take(0) =~= Seq::empty());
    }
    let items: &Vec<PendingRecord> = records.iter();
    let start: u64 = align(cursor, 2048);
    let limit: u128 = usize::MAX as u128 - 2048;
    let mut at: u128 = start as u128;
    let mut extra: u128 = 0;
    let mut i: usize = 0;
    while i < items.len()
        invariant
            i <= items@.len(),
            all == record_views(items@),
            first >= 0,
            last == pack_end(first, all, 2048),
            last <= align_up(last, 2048),
            limit == usize::MAX - 2048,
            overflow_total(all) >= 0,
            dir_end(cursor as int, all) == align_up(last, 2048),
            all == records@,
            forall|k: int| 0 <= k < all.len() ==> record_size(#[trigger] all[k]) <= 255,
            at <= u64::MAX,
            extra <= u64::MAX,
            at == pack_end(first, all.take(i as int), 2048),
            extra == overflow_total(all.take(i as int)),
        decreases items.len() - i,
    {
        proof {
            assert(all[i as int] == items@[i as int].view());
            assert(all.take(i + 1).drop_last() =~= all.take(i as int));
            pack_end_grows(first, all, i + 1, 2048);
            overflow_total_prefix(all, i + 1);
        }
        let size: u128 = directory_record_size(&items[i]) as u128;
        let remaining: u128 = 2048 - at % 2048;
        if size > remaining {
            at = at + remaining;
        }
        at = at + size;
        extra = extra + items[i].split.overflow.len() as u128;
        i += 1;
        if at > limit || extra > limit {
            return false;
        }
    }
    assert(all.take(i as int) =~= all);
    if at > limit {
        return false;
    }
    let end: u64 = align(at as u64, 2048);
    end as u128 + extra <= limit
}

fn plan_directory(
    dir: &WrittenDirectory,
    is_root: bool,
    ty: EntryType,
    rrip: Option<&RripOptions>,
    time: &RripTime,
    refs: &RelocationMap,
    cursor: u64,
    inode_counter: &mut u32,
    Ghost(before): Ghost<Seq<DirectoryRef>>,
) -> (r: Result<(DirectoryRef, u64), IsoCreationError>)
    requires
        cursor + 2048 <= u64::MAX,
    ensures
        match plan_step(
            DirPlan { refs: before, cursor: cursor as int, inode: *old(inode_counter) as int },
            dir.view(),
            is_root,
            ty,
            option_value(rrip),
            time@,
            refs@,
        ) {
            Ok(plan) => {
                &&& r matches Ok(v) && plan.refs == before.push(v.0) && v.1 == plan.cursor
                &&& *final(inode_counter) == plan.inode
                &&& plan.cursor + 2048 <= usize::MAX
            },
            Err(e) => r == Err::<(DirectoryRef, u64), IsoCreationError>(e),
        },
{
    reveal(plan_step);
    let records: PendingRecords = match build_records(
        dir,
        is_root,
        ty,
        inode_counter,
        rrip,
        time,
        refs,
    ) {
        Ok(records) => records,
        Err(e) => {
            return Err(e);
        },
    };
    if !fits_image(cursor, &records) {
        return Err(IsoCreationError::TooLarge);
    }
    let ghost first = align_up(cursor as int, 2048);
    proof {
        assert(2048u64 & 2047u64 == 0) by (bit_vector);
        align_up_bounds(cursor as int, 2048);
        pack_end_grows(first, records@, 0, 2048);
        align_up_bounds(pack_end(first, records@, 2048), 2048);
    }
    let (extent, sectors): (u64, u64) = layout_directory_records(cursor, 2048, &records);
    let place: DirectoryRef = DirectoryRef::new(extent as usize, (sectors * 2048) as usize);
    proof {
        assert(extent * 2048 == first);
        assert(sectors * 2048 == dir_end(cursor as int, records@) - first);
        assert(place == dir_place(cursor as int, records@));
    }
    let end: u64 = (extent + sectors) * 2048 + records.overflow_len();
    Ok((place, end))
}

/// Lays out the directories one behind the other from `cursor` on.
pub fn plan_directories(
    files: &WrittenFiles,
    jobs: &Vec<Job>,
    rrip: Option<&RripOptions>,
    time: &RripTime,
    refs: &RelocationMap,
    cursor: u64,
    inode_counter: &mut u32,
) -> (r: Result<(Vec<DirectoryRef>, u64), IsoCreationError>)
    requires
        jobs_valid(files@, job_views(jobs@)),
        cursor + 2048 <= u64::MAX,
    ensures
        match plan_dirs(
            files@,
            job_views(jobs@),
            option_value(rrip),
            time@,
            refs@,
            cursor as int,
            *old(inode_counter) as int,
        ) {
            Ok(plan) => {
                &&& r matches Ok(v) && v.0@ == plan.refs && v.1 == plan.cursor
                &&& *final(inode_counter) == plan.inode
            },
            Err(e) => r == Err::<(Vec<DirectoryRef>, u64), IsoCreationError>(e),
        },
{
    let ghost all = job_views(jobs@);
    let ghost o = option_value(rrip);
    let ghost inode0 = *inode_counter as int;
    let mut at: u64 = cursor;
    let mut out: Vec<DirectoryRef> = Vec::new();
    let mut i: usize = 0;
    assert(all.take(0) =~= Seq::empty());
    while i < jobs.len()
        invariant
            i <= jobs@.len(),
            all == job_views(jobs@),
            o == option_value(rrip),
            inode0 == *old(inode_counter),
            jobs_valid(files@, all),
            at + 2048 <= u64::MAX,
            plan_dirs(files@, all.take(i as int), o, time@, refs@, cursor as int, inode0) == Ok::<
                DirPlan,
                IsoCreationError,
            >(DirPlan { refs: out@, cursor: at as int, inode: *inode_counter as int }),
        decreases jobs.len() - i,
    {
        let ghost next = all.take(i + 1);
        proof {
            assert(valid_path(files@, all[i as int].0));
            assert(all[i as int] == jobs@[i as int]@);
            assert(next.drop_last() =~= all.take(i as int));
            assert(next.last() == all[i as int]);
            if plan_dirs(files@, next, o, time@, refs@, cursor as int, inode0) is Err {
                plan_dirs_error(files@, all, o, time@, refs@, cursor as int, inode0, i + 1);
            }
        }
        let dir: &WrittenDirectory = files.get(&jobs[i].id);
        let is_root: bool = jobs[i].id.is_root();
        match plan_directory(
            dir,
            is_root,
            jobs[i].ty,
            rrip,
            time,
            refs,
            at,
            inode_counter,
            Ghost(out@),
        ) {
            Ok((place, end)) => {
                out.push(place);
                at = end;
            },
            Err(e) => {
                return Err(e);
            },
        }
        i += 1;
    }
    assert(all.take(i as int) =~= all);
    Ok((out, at))
}

/// The bytes of a file, and none for anything else.
pub open spec fn contents_of(kind: KindView) -> Seq<u8> {
    match kind {
        KindView::File(contents) => contents,
        _ => Seq::empty(),
    }
}

/// The tree with the extents of one file set to where it lies if the next free byte is
/// `cursor`. A file without data has an empty extent.
pub open spec fn with_file(root: DirView, at: (Seq<usize>, usize), cursor: int) -> DirView {
    let dir = dir_at(root, at.0);
    let file = dir.files[at.1 as int];
    let extents = extent_list(contents_of(file.kind).len() as int, cursor, 2048);
    let new = if extents.len() == 0 {
        FileView { entry: empty_ref(), additional_extents: Seq::empty(), ..file }
    } else {
        FileView { entry: extents[0], additional_extents: extents.drop_first(), ..file }
    };
    with_dir_at(root, at.0, DirView { files: dir.files.update(at.1 as int, new), ..dir })
}

/// Where a file ends that starts behind `cursor`.
pub open spec fn file_end(root: DirView, at: (Seq<usize>, usize), cursor: int) -> int {
    extent_end(
        contents_of(dir_at(root, at.0).files[at.1 as int].kind).len() as int,
        cursor,
        2048,
    )
}

/// The files one behind the other from `cursor` on: the tree with their extents, and the
/// byte behind the last.
pub open spec fn plan_files(
    root: DirView,
    order: Seq<(Seq<usize>, usize)>,
    cursor: int,
) -> Result<(DirView, int), IsoCreationError>
    decreases order.len(),
{
    if order.len() == 0 {
        Ok((root, cursor))
    } else {
        match plan_files(root, order.drop_last(), cursor) {
            Err(e) => Err(e),
            Ok((tree, at)) => if file_end(tree, order.last(), at) + 2048 > usize::MAX {
                Err(IsoCreationError::TooLarge)
            } else {
                Ok((with_file(tree, order.last(), at), file_end(tree, order.last(), at)))
            },
        }
    }
}

/// Whether every position is that of a file of the tree.
pub open spec fn order_valid(root: DirView, order: Seq<(Seq<usize>, usize)>) -> bool {
    forall|i: int|
        0 <= i < order.len() ==> valid_path(root, (#[trigger] order[i]).0) && order[i].1
            < dir_at(root, order[i].0).files.len()
}

/// Setting the extents of a file keeps everything else.
pub proof fn with_file_same(root: DirView, at: (Seq<usize>, usize), cursor: int, strict: bool)
    requires
        valid_path(root, at.0),
        at.1 < dir_at(root, at.0).files.len(),
        strict ==> {
            let file = dir_at(root, at.0).files[at.1 as int];
            let n = extent_list(contents_of(file.kind).len() as int, cursor, 2048).len();
            file.additional_extents.len() == (if n == 0 {
                0
            } else {
                n - 1
            })
        },
    ensures
        same_tree(root, with_file(root, at, cursor), strict),
{
    let dir = dir_at(root, at.0);
    let file = dir.files[at.1 as int];
    let extents = extent_list(contents_of(file.kind).len() as int, cursor, 2048);
    let new = if extents.len() == 0 {
        FileView { entry: empty_ref(), additional_extents: Seq::empty(), ..file }
    } else {
        FileView { entry: extents[0], additional_extents: extents.drop_first(), ..file }
    };
    let changed = DirView { files: dir.files.update(at.1 as int, new), ..dir };
    assert(same_tree(dir, changed, strict)) by {
        assert forall|i: int| 0 <= i < dir.dirs.len() implies same_tree(
            #[trigger] dir.dirs[i],
            changed.dirs[i],
            strict,
        ) by {
            same_tree_reflexive(dir.dirs[i], strict);
        }
    }
    same_tree_replaced(root, at.0, changed, strict);
}

/// Laying out files keeps everything but their extents.
pub proof fn plan_files_same(root: DirView, order: Seq<(Seq<usize>, usize)>, cursor: int)
    requires
        order_valid(root, order),
        cursor >= 0,
        plan_files(root, order, cursor) is Ok,
    ensures
        same_tree(root, plan_files(root, order, cursor)->Ok_0.0, false),
        plan_files(root, order, cursor)->Ok_0.1 >= cursor,
    decreases order.len(),
{
    if order.len() == 0 {
        same_tree_reflexive(root, false);
    } else {
        let init = order.drop_last();
        assert forall|i: int| 0 <= i < init.len() implies valid_path(root, (#[trigger] init[i]).0)
            && init[i].1 < dir_at(root, init[i].0).files.len() by {
            assert(valid_path(root, order[i].0));
        }
        plan_files_same(root, init, cursor);
        let (mid, at) = plan_files(root, init, cursor)->Ok_0;
        let last = order[order.len() - 1];
        assert(valid_path(root, last.0));
        same_tree_at(root, mid, last.0, false);
        with_file_same(mid, last, at, false);
        same_tree_transitive(root, mid, with_file(mid, last, at), false);
        extent_end_grows(
            contents_of(dir_at(mid, last.0).files[last.1 as int].kind).len() as int,
            at,
            2048,
        );
    }
}

proof fn plan_files_error(root: DirView, order: Seq<(Seq<usize>, usize)>, cursor: int, k: int)
    requires
        0 <= k <= order.len(),
        plan_files(root, order.take(k), cursor) is Err,
    ensures
        plan_files(root, order, cursor) == plan_files(root, order.take(k), cursor),
    decreases order.len(),
{
    if k == order.len() {
        assert(order.take(k) =~= order);
    } else {
        assert(order.drop_last().take(k) =~= order.take(k));
        plan_files_error(root, order.drop_last(), cursor, k);
    }
}

fn plan_file(
    files: &mut WrittenFiles,
    id: &DirectoryId,
    index: usize,
    cursor: u64,
) -> (r: Result<u64, IsoCreationError>)
    requires
        valid_path(old(files)@, id@),
        index < dir_at(old(files)@, id@).files.len(),
        cursor + 2048 <= u64::MAX,
    ensures
        ({
            let end = file_end(old(files)@, (id@, index), cursor as int);
            if end + 2048 > usize::MAX {
                r == Err::<u64, IsoCreationError>(IsoCreationError::TooLarge)
            } else {
                &&& r matches Ok(v) && v == end
                &&& final(files)@ == with_file(old(files)@, (id@, index), cursor as int)
            }
        }),
{
    let ghost root = files@;
    let dir: &mut WrittenDirectory = files.get_mut(id);
    let ghost view = dir.view();
    assert(view.files[index as int] == dir.files@[index as int].view());
    let len: u64 = match dir.files[index].kind.file_len() {
        Some(len) => len,
        None => 0,
    };
    proof {
        match dir.files@[index as int].kind {
            crate::iso::tree::InputEntryKind::File(contents) => {
                assert(contents@.len() == contents.len());
            },
            _ => {},
        }
    }
    let ghost all = extent_list(len as int, cursor as int, 2048);
    assert(len == contents_of(view.files[index as int].kind).len());
    if len == 0 {
        let none: Vec<DirectoryRef> = Vec::new();
        assert(none@ =~= Seq::empty());
        assert(all.len() == 0);
        if cursor as u128 + 2048 > usize::MAX as u128 {
            return Err(IsoCreationError::TooLarge);
        }
        dir.set_extents(index, DirectoryRef::default(), none);
        return Ok(cursor);
    }
    proof {
        align_up_bounds(cursor as int, 2048);
        extents_end_behind_the_data(len as int, cursor as int);
        assert(2048u64 & 2047u64 == 0) by (bit_vector);
    }
    let start: u64 = align(cursor, 2048);
    if start as u128 + len as u128 + 2048 > usize::MAX as u128 {
        return Err(IsoCreationError::TooLarge);
    }
    let (mut extents, end): (Vec<DirectoryRef>, u64) = ExtentIter::new(
        len,
        cursor,
        2048,
    ).collect_with_cursor();
    assert(extents@ == all);
    let first: DirectoryRef = extents.remove(0);
    assert(extents@ =~= all.drop_first());
    dir.set_extents(index, first, extents);
    Ok(end)
}

/// Lays out the files one behind the other from `cursor` on.
pub fn lay_out_files(files: &mut WrittenFiles, order: &Vec<FileOrder>, cursor: u64) -> (r: Result<
    u64,
    IsoCreationError,
>)
    requires
        order_valid(old(files)@, order_view(order@)),
        cursor + 2048 <= u64::MAX,
    ensures
        match plan_files(old(files)@, order_view(order@), cursor as int) {
            Ok((tree, end)) => {
                &&& r matches Ok(v) && v == end
                &&& final(files)@ == tree
                &&& end + 2048 <= u64::MAX
            },
            Err(e) => r == Err::<u64, IsoCreationError>(e),
        },
{
    let ghost root = files@;
    let ghost all = order_view(order@);
    let mut at: u64 = cursor;
    let mut i: usize = 0;
    assert(all.take(0) =~= Seq::empty());
    while i < order.len()
        invariant
            i <= order@.len(),
            all == order_view(order@),
            root == old(files)@,
            order_valid(root, all),
            at + 2048 <= u64::MAX,
            plan_files(root, all.take(i as int), cursor as int) == Ok::<
                (DirView, int),
                IsoCreationError,
            >((files@, at as int)),
        decreases order.len() - i,
    {
        let ghost done = all.take(i as int);
        let ghost next = all.take(i + 1);
        proof {
            assert(order_valid(root, done)) by {
                assert forall|k: int| 0 <= k < done.len() implies valid_path(
                    root,
                    (#[trigger] done[k]).0,
                ) && done[k].1 < dir_at(root, done[k].0).files.len() by {
                    assert(valid_path(root, all[k].0));
                }
            }
            plan_files_same(root, done, cursor as int);
            assert(next.drop_last() =~= done);
            assert(next.last() == all[i as int]);
            assert(all[i as int] == (order@[i as int].0@, order@[i as int].1));
            assert(valid_path(root, all[i as int].0));
            same_tree_at(root, files@, all[i as int].0, false);
            if plan_files(root, next, cursor as int) is Err {
                plan_files_error(root, all, cursor as int, i + 1);
            }
        }
        match plan_file(files, &order[i].0, order[i].1, at) {
            Ok(end) => {
                at = end;
            },
            Err(e) => {
                return Err(e);
            },
        }
        i += 1;
    }
    assert(all.take(i as int) =~= all);
    Ok(at)
}

} // verus!
