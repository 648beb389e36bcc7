//! Directories and files as bytes of an image.

use crate::bytes::push_all;
use crate::iso::error::IsoCreationError;
#[allow(unused_imports)]
use crate::iso::extent::{align_up, align_up_bounds};
use crate::iso::layout::{directory_record_size, encode_directory_record};
#[allow(unused_imports)]
use crate::iso::layout::{pack_end, place_record, record_bytes, record_size};
#[allow(unused_imports)]
use crate::iso::plan::{
    contents_of, has_long_record, inode_step, job_views, jobs_valid, order_valid, records_of,
};
use crate::iso::plan::{build_records, Job};
#[allow(unused_imports)]
use crate::iso::records::{
    option_value, overflow_total, overflow_total_prefix, record_views, splits_wf, RecordView,
};
use crate::iso::records::{PendingRecord, PendingRecords};
#[allow(unused_imports)]
use crate::iso::refmap::DirKey;
use crate::iso::refmap::RelocationMap;
use crate::iso::relocate::FileOrder;
#[allow(unused_imports)]
use crate::iso::relocate::order_view;
#[allow(unused_imports)]
use crate::iso::susp::ce_field;
use crate::iso::time::RripTime;
use crate::iso::tree::InputEntryKind;
#[allow(unused_imports)]
use crate::iso::types::empty_ref;
use crate::iso::types::{DirectoryRef, EntryType, RripOptions};
#[allow(unused_imports)]
use crate::iso::written::{dir_at, path_goes_up, valid_path, DirView};
use crate::iso::written::{DirectoryId, WrittenDirectory, WrittenFiles};
use vstd::prelude::*;

verus! {

/// Zero bytes.
pub open spec fn zeros(n: int) -> Seq<u8> {
    Seq::new(n as nat, |i: int| 0u8)
}

/// The data filled up to a whole number of sectors.
pub open spec fn padded(data: Seq<u8>) -> Seq<u8> {
    data + zeros(align_up(data.len() as int, 2048) - data.len())
}

/// Filling up gives whole sectors and keeps the data.
pub proof fn padded_is_aligned(data: Seq<u8>)
    ensures
        padded(data).len() == align_up(data.len() as int, 2048),
        padded(data).len() % 2048 == 0,
        data.len() <= padded(data).len() < data.len() + 2048,
        padded(data).take(data.len() as int) == data,
        data.len() % 2048 == 0 ==> padded(data) == data,
{
    align_up_bounds(data.len() as int, 2048);
    assert(padded(data).take(data.len() as int) =~= data);
    if data.len() % 2048 == 0 {
        assert(padded(data) =~= data);
    }
}

/// Fills the data up to a whole number of sectors.
pub fn pad_align_sector(data: &mut Vec<u8>)
    ensures
        final(data)@ == padded(old(data)@),
{
    let ghost before = data@;
    let ghost goal = align_up(before.len() as int, 2048);
    proof {
        align_up_bounds(before.len() as int, 2048);
    }
    assert(data@ =~= before + zeros(0));
    while data.len() % 2048 != 0
        invariant
            before.len() <= data@.len() <= goal,
            goal % 2048 == 0,
            goal < before.len() + 2048,
            data@ == before + zeros(data@.len() - before.len()),
        decreases goal - data@.len(),
    {
        data.push(0);
        assert(data@ =~= before + zeros(data@.len() - before.len()));
    }
    assert(data@.len() == goal);
}

/// The record at `i` as it is written: the directory itself and its parent lie where they
/// lie, and a CE field points at the record's part of the continuation area.
pub open spec fn finish_record(
    records: Seq<RecordView>,
    i: int,
    own: DirectoryRef,
    parent: DirectoryRef,
    ca: u32,
) -> RecordView {
    let r = records[i];
    RecordView {
        name: r.name,
        inline: if r.overflow.len() > 0 {
            r.inline.take(r.inline.len() - 28) + ce_field(
                ca,
                overflow_total(records.take(i)) as u32,
                r.overflow.len() as u32,
            )
        } else {
            r.inline
        },
        overflow: r.overflow,
        dir_ref: if r.name == seq![0u8] {
            own
        } else if r.name == seq![1u8] {
            parent
        } else {
            r.dir_ref
        },
        flags: r.flags,
    }
}

/// The records of a directory as they are written.
pub open spec fn finished(
    records: Seq<RecordView>,
    own: DirectoryRef,
    parent: DirectoryRef,
    ca: u32,
) -> Seq<RecordView> {
    Seq::new(records.len(), |i: int| finish_record(records, i, own, parent, ca))
}

/// Records one behind the other; none crosses the end of a sector.
pub open spec fn packed(records: Seq<RecordView>, time: Seq<u8>) -> Seq<u8>
    decreases records.len(),
{
    if records.len() == 0 {
        Seq::empty()
    } else {
        let before = packed(records.drop_last(), time);
        let size = record_size(records.last());
        before + zeros(place_record(before.len() as int, size, 2048) - before.len())
            + record_bytes(records.last(), time)
    }
}

/// The continuation data of records one behind the other.
pub open spec fn overflow_bytes(records: Seq<RecordView>) -> Seq<u8>
    decreases records.len(),
{
    if records.len() == 0 {
        Seq::empty()
    } else {
        overflow_bytes(records.drop_last()) + records.last().overflow
    }
}

fn overflow_fits(records: &PendingRecords) -> (r: bool)
    ensures
        r == (overflow_total(records@) <= u64::MAX),
{
    let ghost all = records@;
    let items: &Vec<PendingRecord> = records.iter();
    let mut total: u64 = 0;
    let mut i: usize = 0;
    assert(all.take(0) =~= Seq::empty());
    while i < items.len()
        invariant
            i <= items@.len(),
            all == record_views(items@),
            all == records@,
            total == overflow_total(all.take(i as int)),
        decreases items.len() - i,
    {
        proof {
            assert(all[i as int] == items@[i as int].view());
            assert(all.take(i + 1).drop_last() =~= all.take(i as int));
            overflow_total_prefix(all, i + 1);
        }
        let len: u64 = items[i].split.overflow.len() as u64;
        if len > 0xFFFF_FFFF_FFFF_FFFF - total {
            return false;
        }
        total = total + len;
        i += 1;
    }
    assert(all.take(i as int) =~= all);
    true
}

fn finish_records(
    records: PendingRecords,
    own: DirectoryRef,
    parent: DirectoryRef,
    ca: u32,
) -> (r: PendingRecords)
    requires
        records.wf(),
        overflow_total(records@) <= u64::MAX,
    ensures
        r@ == finished(records@, own, parent, ca),
{
    let ghost all = records@;
    let ghost input = records.0@;
    let mut items: Vec<PendingRecord> = records.0;
    let n: usize = items.len();
    let mut offset: u64 = 0;
    let mut i: usize = 0;
    assert(all.take(0) =~= Seq::empty());
    while i < n
        invariant
            i <= n,
            n == items@.len(),
            input.len() == n,
            splits_wf(input),
            all == record_views(input),
            overflow_total(all) <= u64::MAX,
            offset == overflow_total(all.take(i as int)),
            forall|k: int| i <= k < n ==> items@[k] == input[k],
            forall|k: int|
                0 <= k < i ==> (#[trigger] items@[k]).view() == finish_record(
                    all,
                    k,
                    own,
                    parent,
                    ca,
                ),
        decreases n - i,
    {
        let ghost r = input[i as int];
        proof {
            assert(all[i as int] == r.view());
            assert(all.take(i + 1).drop_last() =~= all.take(i as int));
            overflow_total_prefix(all, i + 1);
            assert(input[i as int].split.wf());
        }
        let len: u64 = items[i].split.overflow.len() as u64;
        if len > 0 {
            items[i].split.patch_ce(ca, offset as u32);
        }
        let is_dot: bool;
        let is_dotdot: bool;
        {
            let name: &[u8] = items[i].name.as_bytes();
            is_dot = name.len() == 1 && name[0] == 0;
            is_dotdot = name.len() == 1 && name[0] == 1;
        }
        proof {
            assert(is_dot ==> r.name@ =~= seq![0u8]);
            assert(is_dotdot ==> r.name@ =~= seq![1u8]);
        }
        if is_dot {
            items[i].dir_ref = own;
        } else if is_dotdot {
            items[i].dir_ref = parent;
        }
        offset = offset + len;
        i += 1;
    }
    let out: PendingRecords = PendingRecords(items);
    assert(out@ =~= finished(all, own, parent, ca));
    out
}

/// Packed records end where the layout says.
pub proof fn packed_len(records: Seq<RecordView>, time: Seq<u8>)
    requires
        time.len() == 7,
    ensures
        packed(records, time).len() == pack_end(0, records, 2048),
    decreases records.len(),
{
    if records.len() > 0 {
        packed_len(records.drop_last(), time);
        let before = packed(records.drop_last(), time).len() as int;
        assert(place_record(before, record_size(records.last()), 2048) >= before);
        assert(record_bytes(records.last(), time).len() == record_size(records.last()));
    }
}

fn pack_records(records: &PendingRecords, time: &RripTime) -> (r: Vec<u8>)
    requires
        !has_long_record(records@),
    ensures
        r@ == packed(records@, time@),
{
    let ghost all = records@;
    let items: &Vec<PendingRecord> = records.iter();
    let mut body: Vec<u8> = Vec::new();
    let mut i: usize = 0;
    assert(all.take(0) =~= Seq::empty());
    while i < items.len()
        invariant
            i <= items@.len(),
            all == record_views(items@),
            !has_long_record(all),
            body@ == packed(all.take(i as int), time@),
        decreases items.len() - i,
    {
        proof {
            assert(all[i as int] == items@[i as int].view());
            assert(all.take(i + 1).drop_last() =~= all.take(i as int));
            assert(record_size(all[i as int]) <= 255);
        }
        let size: usize = directory_record_size(&items[i]);
        let remaining: usize = 2048 - body.len() % 2048;
        if size > remaining {
            crate::bytes::push_zeros(&mut body, remaining);
        } else {
            assert(body@ =~= body@ + zeros(0));
        }
        let bytes: Vec<u8> = encode_directory_record(&items[i], time);
        push_all(&mut body, bytes.as_slice());
        i += 1;
    }
    assert(all.take(i as int) =~= all);
    body
}

fn push_overflow(data: &mut Vec<u8>, records: &PendingRecords)
    ensures
        final(data)@ == old(data)@ + overflow_bytes(records@),
{
    let ghost all = records@;
    let items: &Vec<PendingRecord> = records.iter();
    let mut i: usize = 0;
    assert(all.take(0) =~= Seq::empty());
    assert(data@ =~= old(data)@ + overflow_bytes(all.take(0)));
    while i < items.len()
        invariant
            i <= items@.len(),
            all == record_views(items@),
            data@ == old(data)@ + overflow_bytes(all.take(i as int)),
        decreases items.len() - i,
    {
        proof {
            assert(all[i as int] == items@[i as int].view());
            assert(all.take(i + 1).drop_last() =~= all.take(i as int));
        }
        push_all(data, items[i].split.overflow.as_slice());
        i += 1;
        assert(data@ =~= old(data)@ + overflow_bytes(all.take(i as int)));
    }
    assert(all.take(i as int) =~= all);
}

/// The extent of a directory in a namespace, or an empty one.
pub open spec fn entry_of(dir: DirView, ty: EntryType) -> DirectoryRef {
    if dir.entries.dom().contains(ty) {
        dir.entries[ty]
    } else {
        empty_ref()
    }
}

/// The extent of a directory in a namespace, or an empty one.
pub fn get_entry(dir: &WrittenDirectory, ty: EntryType) -> (r: DirectoryRef)
    ensures
        r == entry_of(dir.view(), ty),
{
    match dir.entries.get(&ty) {
        Some(r) => r,
        None => DirectoryRef::default(),
    }
}

/// The sector of a directory's continuation area: the one behind its records.
pub open spec fn continuation_sector(own: DirectoryRef) -> u32 {
    (own.extent.0 + own.size / 2048) as u32
}

/// The data with a directory behind it: its records in whole sectors, where the directory
/// was laid out, and its continuation area.
#[verifier::opaque]
pub open spec fn with_directory(
    data: Seq<u8>,
    records: Seq<RecordView>,
    own: DirectoryRef,
    parent: DirectoryRef,
    time: Seq<u8>,
) -> Result<Seq<u8>, IsoCreationError> {
    let fin = finished(records, own, parent, continuation_sector(own));
    let body = padded(packed(fin, time));
    if overflow_total(records) > u64::MAX {
        Err(IsoCreationError::TooLarge)
    } else if padded(data).len() / 2048 != own.extent.0 || body.len() != own.size {
        Err(IsoCreationError::DirectoryPrediction)
    } else {
        Ok(padded(data) + body + overflow_bytes(fin))
    }
}

/// Finishing records keeps their sizes.
pub proof fn finished_sizes(
    records: Seq<RecordView>,
    own: DirectoryRef,
    parent: DirectoryRef,
    ca: u32,
)
    requires
        forall|i: int|
            0 <= i < records.len() && (#[trigger] records[i]).overflow.len() > 0
                ==> records[i].inline.len() >= 28,
    ensures
        crate::iso::shapes::shapes(finished(records, own, parent, ca))
            == crate::iso::shapes::shapes(records),
{
    let fin = finished(records, own, parent, ca);
    assert forall|i: int| 0 <= i < records.len() implies crate::iso::shapes::shape(
        #[trigger] fin[i],
    ) == crate::iso::shapes::shape(records[i]) by {
        let r = records[i];
        assert(r.overflow.len() > 0 ==> r.inline.len() >= 28);
    }
    assert(crate::iso::shapes::shapes(fin) =~= crate::iso::shapes::shapes(records));
}

/// Appends a directory: its records, in whole sectors and where the directory was laid
/// out, then the continuation area that their CE fields point at.
pub fn write_directory_records(
    data: &mut Vec<u8>,
    records: PendingRecords,
    own: DirectoryRef,
    parent: DirectoryRef,
    time: &RripTime,
) -> (r: Result<(), IsoCreationError>)
    requires
        records.wf(),
        !has_long_record(records@),
    ensures
        match with_directory(old(data)@, records@, own, parent, time@) {
            Ok(after) => r == Ok::<(), IsoCreationError>(()) && final(data)@ == after,
            Err(e) => r == Err::<(), IsoCreationError>(e),
        },
{
    proof {
        reveal(with_directory);
        padded_is_aligned(data@);
    }
    if !overflow_fits(&records) {
        return Err(IsoCreationError::TooLarge);
    }
    let ghost all = records@;
    let ghost ca = continuation_sector(own);
    pad_align_sector(data);
    if data.len() / 2048 != own.extent.0 {
        return Err(IsoCreationError::DirectoryPrediction);
    }
    let sector: u32 = (own.extent.0 + own.size / 2048) as u32;
    proof {
        assert forall|i: int|
            0 <= i < all.len() && (#[trigger] all[i]).overflow.len() > 0 implies all[i].inline.len()
            >= 28 by {
            assert(records.0@[i].split.wf());
        }
        finished_sizes(all, own, parent, ca);
        crate::iso::shapes::shape_decides_size(
            finished(all, own, parent, ca),
            all,
            0,
            2048,
        );
    }
    let fin: PendingRecords = finish_records(records, own, parent, sector);
    proof {
        assert forall|i: int| 0 <= i < fin@.len() implies record_size(#[trigger] fin@[i])
            <= 255 by {
            assert(record_size(fin@[i]) == record_size(all[i]));
        }
    }
    let mut body: Vec<u8> = pack_records(&fin, time);
    pad_align_sector(&mut body);
    if body.len() != own.size {
        return Err(IsoCreationError::DirectoryPrediction);
    }
    push_all(data, body.as_slice());
    push_overflow(data, &fin);
    Ok(())
}

/// An image under construction.
pub struct WriteState {
    /// The data so far.
    pub data: Seq<u8>,
    /// The next serial number.
    pub inode: int,
}

/// The way to the parent; the root is its own parent.
pub open spec fn parent_path(path: Seq<usize>) -> Seq<usize> {
    if path.len() == 0 {
        path
    } else {
        path.drop_last()
    }
}

/// One more directory behind what is written.
#[verifier::opaque]
pub open spec fn write_step(
    s: WriteState,
    dir: DirView,
    parent: DirectoryRef,
    is_root: bool,
    ty: EntryType,
    rrip: Option<RripOptions>,
    time: Seq<u8>,
    refs: Map<DirKey, DirectoryRef>,
) -> Result<WriteState, IsoCreationError> {
    match records_of(dir, is_root, ty, s.inode, rrip, time, refs) {
        Err(e) => Err(e),
        Ok(records) => match with_directory(s.data, records, entry_of(dir, ty), parent, time) {
            Err(e) => Err(e),
            Ok(data) => Ok(WriteState { data, inode: s.inode + inode_step(dir, ty, rrip) }),
        },
    }
}

/// The directories one behind the other behind what is written.
pub open spec fn write_dirs(
    root: DirView,
    jobs: Seq<(Seq<usize>, EntryType)>,
    rrip: Option<RripOptions>,
    time: Seq<u8>,
    refs: Map<DirKey, DirectoryRef>,
    data: Seq<u8>,
    inode: int,
) -> Result<WriteState, IsoCreationError>
    decreases jobs.len(),
{
    if jobs.len() == 0 {
        Ok(WriteState { data, inode })
    } else {
        match write_dirs(root, jobs.drop_last(), rrip, time, refs, data, inode) {
            Err(e) => Err(e),
            Ok(s) => {
                let (path, ty) = jobs.last();
                write_step(
                    s,
                    dir_at(root, path),
                    entry_of(dir_at(root, parent_path(path)), ty),
                    path.len() == 0,
                    ty,
                    rrip,
                    time,
                    refs,
                )
            },
        }
    }
}

proof fn write_dirs_error(
    root: DirView,
    jobs: Seq<(Seq<usize>, EntryType)>,
    rrip: Option<RripOptions>,
    time: Seq<u8>,
    refs: Map<DirKey, DirectoryRef>,
    data: Seq<u8>,
    inode: int,
    k: int,
)
    requires
        0 <= k <= jobs.len(),
        write_dirs(root, jobs.take(k), rrip, time, refs, data, inode) is Err,
    ensures
        write_dirs(root, jobs, rrip, time, refs, data, inode) == write_dirs(
            root,
            jobs.take(k),
            rrip,
            time,
            refs,
            data,
            inode,
        ),
    decreases jobs.len(),
{
    if k == jobs.len() {
        assert(jobs.take(k) =~= jobs);
    } else {
        assert(jobs.drop_last().take(k) =~= jobs.take(k));
        write_dirs_error(root, jobs.drop_last(), rrip, time, refs, data, inode, k);
    }
}

fn write_directory(
    data: &mut Vec<u8>,
    dir: &WrittenDirectory,
    parent: DirectoryRef,
    is_root: bool,
    ty: EntryType,
    rrip: Option<&RripOptions>,
    time: &RripTime,
    refs: &RelocationMap,
    inode_counter: &mut u32,
) -> (r: Result<(), IsoCreationError>)
    ensures
        match write_step(
            WriteState { data: old(data)@, inode: *old(inode_counter) as int },
            dir.view(),
            parent,
            is_root,
            ty,
            option_value(rrip),
            time@,
            refs@,
        ) {
            Ok(s) => {
                &&& r == Ok::<(), IsoCreationError>(())
                &&& final(data)@ == s.data
                &&& *final(inode_counter) == s.inode
            },
            Err(e) => r == Err::<(), IsoCreationError>(e),
        },
{
    reveal(write_step);
    match build_records(dir, is_root, ty, inode_counter, rrip, time, refs) {
        Err(e) => Err(e),
        Ok(records) => {
            let own: DirectoryRef = get_entry(dir, ty);
            match write_directory_records(data, records, own, parent, time) {
                Ok(_) => Ok(()),
                Err(e) => Err(e),
            }
        },
    }
}

/// Appends the directories.
pub fn write_directories(
    data: &mut Vec<u8>,
    files: &WrittenFiles,
    jobs: &Vec<Job>,
    rrip: Option<&RripOptions>,
    time: &RripTime,
    refs: &RelocationMap,
    inode_counter: &mut u32,
) -> (r: Result<(), IsoCreationError>)
    requires
        jobs_valid(files@, job_views(jobs@)),
    ensures
        match write_dirs(
            files@,
            job_views(jobs@),
            option_value(rrip),
            time@,
            refs@,
            old(data)@,
            *old(inode_counter) as int,
        ) {
            Ok(s) => {
                &&& r == Ok::<(), IsoCreationError>(())
                &&& final(data)@ == s.data
                &&& *final(inode_counter) == s.inode
            },
            Err(e) => r == Err::<(), IsoCreationError>(e),
        },
{
    let ghost all = job_views(jobs@);
    let ghost o = option_value(rrip);
    let ghost data0 = data@;
    let ghost inode0 = *inode_counter as int;
    let mut i: usize = 0;
    assert(all.take(0) =~= Seq::empty());
    while i < jobs.len()
        invariant
            i <= jobs@.len(),
            all == job_views(jobs@),
            o == option_value(rrip),
            data0 == old(data)@,
            inode0 == *old(inode_counter),
            jobs_valid(files@, all),
            write_dirs(files@, all.take(i as int), o, time@, refs@, data0, inode0) == Ok::<
                WriteState,
                IsoCreationError,
            >(WriteState { data: data@, inode: *inode_counter as int }),
        decreases jobs.len() - i,
    {
        let ghost next = all.take(i + 1);
        let ghost path = all[i as int].0;
        proof {
            assert(valid_path(files@, path));
            assert(all[i as int] == jobs@[i as int]@);
            assert(next.drop_last() =~= all.take(i as int));
            assert(next.last() == all[i as int]);
            if path.len() > 0 {
                path_goes_up(files@, path);
            }
            if write_dirs(files@, next, o, time@, refs@, data0, inode0) is Err {
                write_dirs_error(files@, all, o, time@, refs@, data0, inode0, i + 1);
            }
        }
        let ty: EntryType = jobs[i].ty;
        let dir: &WrittenDirectory = files.get(&jobs[i].id);
        let is_root: bool = jobs[i].id.is_root();
        let mut above: DirectoryId = jobs[i].id.duplicate();
        if !is_root {
            let _last: usize = above.pop();
        }
        assert(above@ == parent_path(path));
        let parent: DirectoryRef = get_entry(files.get(&above), ty);
        match write_directory(data, dir, parent, is_root, ty, rrip, time, refs, inode_counter) {
            Ok(_) => {},
            Err(e) => {
                return Err(e);
            },
        }
        i += 1;
    }
    assert(all.take(i as int) =~= all);
    Ok(())
}

/// The data with a file behind it, from the next sector on. The file must have been laid
/// out there.
pub open spec fn with_contents(data: Seq<u8>, contents: Seq<u8>, place: DirectoryRef) -> Result<
    Seq<u8>,
    IsoCreationError,
> {
    if contents.len() == 0 {
        Ok(data)
    } else if padded(data).len() / 2048 != place.extent.0 {
        Err(IsoCreationError::ExtentPrediction)
    } else {
        Ok(padded(data) + contents)
    }
}

/// The files one behind the other behind what is written.
pub open spec fn write_files(
    root: DirView,
    order: Seq<(Seq<usize>, usize)>,
    data: Seq<u8>,
) -> Result<Seq<u8>, IsoCreationError>
    decreases order.len(),
{
    if order.len() == 0 {
        Ok(data)
    } else {
        match write_files(root, order.drop_last(), data) {
            Err(e) => Err(e),
            Ok(before) => {
                let file = dir_at(root, order.last().0).files[order.last().1 as int];
                with_contents(before, contents_of(file.kind), file.entry)
            },
        }
    }
}

proof fn write_files_error(root: DirView, order: Seq<(Seq<usize>, usize)>, data: Seq<u8>, k: int)
    requires
        0 <= k <= order.len(),
        write_files(root, order.take(k), data) is Err,
    ensures
        write_files(root, order, data) == write_files(root, order.take(k), data),
    decreases order.len(),
{
    if k == order.len() {
        assert(order.take(k) =~= order);
    } else {
        assert(order.drop_last().take(k) =~= order.take(k));
        write_files_error(root, order.drop_last(), data, k);
    }
}

/// Appends the data of files. The extents of a file follow one another without a gap, so
/// that its data is written in one piece.
pub fn write_file_data(data: &mut Vec<u8>, files: &WrittenFiles, order: &Vec<FileOrder>) -> (r:
    Result<(), IsoCreationError>)
    requires
        order_valid(files@, order_view(order@)),
    ensures
        match write_files(files@, order_view(order@), old(data)@) {
            Ok(after) => r == Ok::<(), IsoCreationError>(()) && final(data)@ == after,
            Err(e) => r == Err::<(), IsoCreationError>(e),
        },
{
    let ghost all = order_view(order@);
    let ghost data0 = data@;
    let mut i: usize = 0;
    assert(all.take(0) =~= Seq::empty());
    while i < order.len()
        invariant
            i <= order@.len(),
            all == order_view(order@),
            data0 == old(data)@,
            order_valid(files@, all),
            write_files(files@, all.take(i as int), data0) == Ok::<Seq<u8>, IsoCreationError>(
                data@,
            ),
        decreases order.len() - i,
    {
        let ghost next = all.take(i + 1);
        proof {
            assert(all[i as int] == (order@[i as int].0@, order@[i as int].1));
            assert(valid_path(files@, all[i as int].0));
            assert(next.drop_last() =~= all.take(i as int));
            assert(next.last() == all[i as int]);
            if write_files(files@, next, data0) is Err {
                write_files_error(files@, all, data0, i + 1);
            }
        }
        let dir: &WrittenDirectory = files.get(&order[i].0);
        let index: usize = order[i].1;
        assert(dir.view().files[index as int] == dir.files@[index as int].view());
        match &dir.files[index].kind {
            InputEntryKind::File(contents) => {
                if contents.len() > 0 {
                    pad_align_sector(data);
                    if data.len() / 2048 != dir.files[index].entry.extent.0 {
                        return Err(IsoCreationError::ExtentPrediction);
                    }
                    push_all(data, contents.as_slice());
                }
            },
            _ => {},
        }
        i += 1;
    }
    assert(all.take(i as int) =~= all);
    Ok(())
}

} // verus!
