//! Creation of whole images.

use crate::iso::boot::ElToritoWriter;
#[allow(unused_imports)]
use crate::iso::boot::{
    boot_record_bytes, catalog_file_name, catalog_file_size, first_directory, BootOptions,
};
use crate::iso::boot::make_boot_record;
use crate::iso::boot_image::{overwrite, write_boot_catalog};
#[allow(unused_imports)]
use crate::iso::boot_image::{catalog_steps, overwritten, with_catalog};
#[allow(unused_imports)]
use crate::iso::emit::{
    entry_of, padded, padded_is_aligned, with_directory, write_dirs, write_files, write_step, zeros,
};
use crate::iso::emit::{get_entry, pad_align_sector, write_directories, write_file_data};
use crate::iso::error::IsoCreationError;
#[allow(unused_imports)]
use crate::iso::options::{entry_types_of, scheme_of, CreationFeatures};
use crate::iso::options::{IsoFormatOptions, PartitionScheme};
use crate::iso::partition::{volume_space_sectors, write_partition_tables};
#[allow(unused_imports)]
use crate::iso::partition::{volume_space, with_tables};
#[allow(unused_imports)]
use crate::iso::path_table::path_table;
use crate::iso::path_table::{EndianType, PathTableWriter};
#[allow(unused_imports)]
use crate::iso::plan::{
    job_views, jobs_valid, order_valid, pairs, plan_dirs, plan_files, plan_files_same, ref_map,
    same_tree, same_tree_at, with_refs, with_refs_same,
};
use crate::iso::plan::{lay_out_files, make_jobs, make_ref_map, plan_directories, set_refs, Job};
#[allow(unused_imports)]
use crate::iso::records::option_value;
#[allow(unused_imports)]
use crate::iso::refmap::DirKey;
use crate::iso::refmap::RelocationMap;
use crate::iso::relocate::{collect_preorder, relocate_deep_directories, FileOrder};
#[allow(unused_imports)]
use crate::iso::relocate::{
    data_files_in, ids_view, order_view, preorder, relocated_root, tree_size,
};
use crate::civil::{civil_now, CivilTime};
use crate::iso::time::{encode_rrip_time, RripTime};
#[allow(unused_imports)]
use crate::iso::time::rrip_time_bytes;
use crate::iso::tree::{events_within, FileTreeWalker, InputTree};
#[allow(unused_imports)]
use crate::iso::tree::{
    entry_events, first_error, list_events, no_metadata, relocates, walk_is_balanced, EntryView,
    KindView,
};
#[allow(unused_imports)]
use crate::iso::types::empty_ref;
use crate::iso::types::{DirectoryRef, EntryType, LogicalSector, RripOptions};
use crate::iso::volume::{create_volume_descriptor, push_terminator, Location};
#[allow(unused_imports)]
use crate::iso::volume::{
    namespace_descriptor, namespace_descriptors_fill_sectors, terminator_bytes,
};
#[allow(unused_imports)]
use crate::iso::written::{
    dir_at, directory_count, new_dir, valid_path, walk_builds_the_input, with_entries, DirView,
    WalkState,
};
use crate::iso::written::{DirectoryId, WrittenFiles};
use vstd::prelude::*;

verus! {

/// The input with the file of the boot catalog, where one is asked for.
pub open spec fn input_with_catalog(tree: Seq<EntryView>, boot: Option<BootOptions>) -> Seq<
    EntryView,
> {
    match boot {
        Some(b) if b.write_boot_catalog => tree.insert(
            crate::iso::dedup::minus(first_directory(tree), 1),
            EntryView {
                name: catalog_file_name(),
                kind: KindView::File(zeros(catalog_file_size(b.entries@.len() as int))),
                metadata: no_metadata(),
            },
        ),
        _ => tree,
    }
}

/// The directories and files of an image, with deep directories relocated where that is
/// asked for.
pub open spec fn built_tree(tree: Seq<EntryView>, rrip: Option<RripOptions>) -> DirView {
    let root = with_entries(new_dir(Seq::empty()), tree, 1);
    if relocates(rrip) {
        relocated_root(root)
    } else {
        root
    }
}

/// A tree has as many directories as its input.
pub proof fn tree_size_counts(dir: DirView, entries: Seq<EntryView>, id: int)
    ensures
        tree_size(with_entries(dir, entries, id).dirs) == tree_size(dir.dirs) + directory_count(
            entries,
        ),
        0 <= directory_count(entries) <= list_events(entries).len(),
    decreases entries,
{
    if entries.len() > 0 {
        let init = entries.drop_last();
        let last = entries.last();
        tree_size_counts(dir, init, id);
        let before = with_entries(dir, init, id);
        match last.kind {
            KindView::Directory(children) => {
                let next = id + directory_count(init);
                let fresh = crate::iso::written::fresh_dir(last, next);
                tree_size_counts(fresh, children, next + 1);
                let child = with_entries(fresh, children, next + 1);
                assert(before.dirs.push(child).drop_last() =~= before.dirs);
                assert(tree_size(fresh.dirs) == 0);
                assert(entry_events(last).len() == 2 + list_events(children).len());
            },
            _ => {},
        }
    }
}

/// Builds the directories and files of an image.
pub(crate) fn build_tree(files: &InputTree, ops: &IsoFormatOptions) -> (r: Result<
    WrittenFiles,
    IsoCreationError,
>)
    ensures
        if list_events(files@).len() >= usize::MAX {
            r == Err::<WrittenFiles, IsoCreationError>(IsoCreationError::TooManyEntries)
        } else {
            r matches Ok(v) && v@ == built_tree(files@, ops.features.rock_ridge)
        },
{
    match events_within(&files.entries, usize::MAX) {
        None => {
            return Err(IsoCreationError::TooManyEntries);
        },
        Some(left) => if left == 0 {
            return Err(IsoCreationError::TooManyEntries);
        },
    }
    let mut written: WrittenFiles = WrittenFiles::new();
    let ghost start = WalkState { root: written@, path: Seq::empty(), next_id: 1 };
    proof {
        walk_is_balanced(files@);
        assert(valid_path(start.root, start.path));
        walk_builds_the_input(start, files@);
        tree_size_counts(new_dir(Seq::empty()), files@, 1);
    }
    let walker: FileTreeWalker<'_> = FileTreeWalker::new(files);
    walker.walk(&mut written);
    assert(written@ == with_entries(new_dir(Seq::empty()), files@, 1));
    if ops.has_rock_ridge_deep_dirs() {
        relocate_deep_directories(&mut written);
    }
    Ok(written)
}

/// Every directory of a tree in every namespace, in the order of the layout.
pub open spec fn jobs_of(root: DirView, types: Seq<EntryType>) -> Seq<(Seq<usize>, EntryType)> {
    pairs(preorder(root, Seq::empty()), types)
}

/// Every file with data, in the order of the layout.
pub open spec fn order_of(root: DirView) -> Seq<(Seq<usize>, usize)> {
    data_files_in(root, preorder(root, Seq::empty()))
}

/// As many empty extents.
pub open spec fn no_refs(n: nat) -> Seq<DirectoryRef> {
    Seq::new(n, |i: int| empty_ref())
}

/// Where everything lies.
pub struct Laid {
    /// The tree with all extents.
    pub root: DirView,
    /// The extents of directories by number and namespace.
    pub refs: Map<DirKey, DirectoryRef>,
    /// The next serial number.
    pub inode: int,
    /// The byte behind the last file.
    pub end: int,
}

/// The layout of a tree from byte `start` on: all directories, then all files. The sizes of
/// directories are found with empty extents.
pub open spec fn layout(
    root: DirView,
    types: Seq<EntryType>,
    rrip: Option<RripOptions>,
    time: Seq<u8>,
    start: int,
) -> Result<Laid, IsoCreationError> {
    let jobs = jobs_of(root, types);
    let order = order_of(root);
    let none = no_refs(jobs.len());
    match plan_files(root, order, 0) {
        Err(e) => Err(e),
        Ok((sized, _)) => {
            let blank = with_refs(sized, jobs, none);
            match plan_dirs(blank, jobs, rrip, time, ref_map(blank, jobs, none), start, 1) {
                Err(e) => Err(e),
                Ok(p) => {
                    let placed = with_refs(blank, jobs, p.refs);
                    match plan_files(placed, order, p.cursor) {
                        Err(e) => Err(e),
                        Ok((full, end)) => Ok(
                            Laid {
                                root: full,
                                refs: ref_map(placed, jobs, p.refs),
                                inode: p.inode,
                                end,
                            },
                        ),
                    }
                },
            }
        },
    }
}

proof fn pairs_valid(root: DirView, paths: Seq<Seq<usize>>, types: Seq<EntryType>)
    requires
        forall|i: int| 0 <= i < paths.len() ==> valid_path(root, #[trigger] paths[i]),
    ensures
        jobs_valid(root, pairs(paths, types)),
    decreases paths.len(),
{
    if paths.len() > 0 {
        let init = paths.drop_last();
        assert forall|i: int| 0 <= i < init.len() implies valid_path(root, #[trigger] init[i]) by {
            assert(valid_path(root, paths[i]));
        }
        pairs_valid(root, init, types);
        let before = pairs(init, types);
        let all = pairs(paths, types);
        assert(valid_path(root, paths[paths.len() - 1]));
        assert forall|i: int| 0 <= i < all.len() implies valid_path(root, (#[trigger] all[i]).0) by {
            if i < before.len() {
                assert(all[i] == before[i]);
            }
        }
    }
}

/// What is valid in a tree is valid in one that is the same.
pub proof fn jobs_stay_valid(
    a: DirView,
    b: DirView,
    jobs: Seq<(Seq<usize>, EntryType)>,
    order: Seq<(Seq<usize>, usize)>,
    strict: bool,
)
    requires
        same_tree(a, b, strict),
        jobs_valid(a, jobs),
        order_valid(a, order),
    ensures
        jobs_valid(b, jobs),
        order_valid(b, order),
{
    assert forall|i: int| 0 <= i < jobs.len() implies valid_path(b, (#[trigger] jobs[i]).0) by {
        assert(valid_path(a, jobs[i].0));
        same_tree_at(a, b, jobs[i].0, strict);
    }
    assert forall|i: int| 0 <= i < order.len() implies valid_path(b, (#[trigger] order[i]).0)
        && order[i].1 < dir_at(b, order[i].0).files.len() by {
        assert(valid_path(a, order[i].0));
        same_tree_at(a, b, order[i].0, strict);
    }
}

/// The directories and files of an image, in the order of the layout.
struct Work {
    jobs: Vec<Job>,
    order: Vec<FileOrder>,
}

impl Work {
    spec fn fits(&self, root: DirView) -> bool {
        &&& jobs_valid(root, job_views(self.jobs@))
        &&& order_valid(root, order_view(self.order@))
    }
}

fn make_work(files: &WrittenFiles, types: &Vec<EntryType>) -> (r: Work)
    ensures
        job_views(r.jobs@) == jobs_of(files@, types@),
        order_view(r.order@) == order_of(files@),
        r.fits(files@),
{
    let root: DirectoryId = files.root_dir();
    let (order, file_order): (Vec<DirectoryId>, Vec<FileOrder>) = collect_preorder(files, &root);
    let jobs: Vec<Job> = make_jobs(&order, types);
    proof {
        let paths = ids_view(order@);
        assert forall|i: int| 0 <= i < paths.len() implies valid_path(
            files@,
            #[trigger] paths[i],
        ) by {
            assert(valid_path(files@, order@[i]@));
        }
        pairs_valid(files@, paths, types@);
        assert(dir_at(files@, root@) == files@);
        let all = order_view(file_order@);
        assert forall|i: int| 0 <= i < all.len() implies valid_path(files@, (#[trigger] all[i]).0)
            && all[i].1 < dir_at(files@, all[i].0).files.len() by {
            assert(valid_path(files@, file_order@[i].0@));
        }
    }
    Work { jobs, order: file_order }
}

fn make_no_refs(n: usize) -> (r: Vec<DirectoryRef>)
    ensures
        r@ == no_refs(n as nat),
{
    let mut r: Vec<DirectoryRef> = Vec::new();
    let mut i: usize = 0;
    while i < n
        invariant
            i <= n,
            r@ == no_refs(i as nat),
        decreases n - i,
    {
        r.push(DirectoryRef::default());
        i += 1;
        assert(r@ =~= no_refs(i as nat));
    }
    assert(r@ =~= no_refs(n as nat));
    r
}

/// Finds out where everything lies and where it ends, and says so in the tree.
fn plan_layout(
    files: &mut WrittenFiles,
    work: &Work,
    rrip: Option<&RripOptions>,
    time: &RripTime,
    start: u64,
    inode_counter: &mut u32,
    Ghost(types): Ghost<Seq<EntryType>>,
) -> (r: Result<(RelocationMap, u64), IsoCreationError>)
    requires
        work.fits(old(files)@),
        job_views(work.jobs@) == jobs_of(old(files)@, types),
        order_view(work.order@) == order_of(old(files)@),
        start + 2048 <= u64::MAX,
        *old(inode_counter) == 1,
    ensures
        match layout(old(files)@, types, option_value(rrip), time@, start as int) {
            Ok(laid) => {
                &&& r matches Ok(v) && v.0@ == laid.refs && v.1 == laid.end
                &&& final(files)@ == laid.root
                &&& *final(inode_counter) == laid.inode
                &&& work.fits(final(files)@)
            },
            Err(e) => r == Err::<(RelocationMap, u64), IsoCreationError>(e),
        },
{
    let ghost jobs = job_views(work.jobs@);
    let ghost order = order_view(work.order@);
    let ghost root = files@;
    match lay_out_files(files, &work.order, 0) {
        Ok(_) => {},
        Err(e) => {
            return Err(e);
        },
    }
    let none: Vec<DirectoryRef> = make_no_refs(work.jobs.len());
    let ghost sized = files@;
    proof {
        plan_files_same(root, order, 0);
        jobs_stay_valid(root, sized, jobs, order, false);
    }
    set_refs(files, &work.jobs, &none);
    let ghost blank = files@;
    proof {
        assert(jobs.len() == work.jobs@.len());
        with_refs_same(sized, jobs, none@, false);
        jobs_stay_valid(sized, blank, jobs, order, false);
    }
    let default_refs: RelocationMap = make_ref_map(files, &work.jobs, &none);
    let (refs, cursor): (Vec<DirectoryRef>, u64) = match plan_directories(
        files,
        &work.jobs,
        rrip,
        time,
        &default_refs,
        start,
        inode_counter,
    ) {
        Ok(v) => v,
        Err(e) => {
            return Err(e);
        },
    };
    proof {
        plan_refs_len(
            blank,
            jobs,
            option_value(rrip),
            time@,
            default_refs@,
            start as int,
            1,
        );
    }
    set_refs(files, &work.jobs, &refs);
    let ghost placed = files@;
    proof {
        with_refs_same(blank, jobs, refs@, false);
        jobs_stay_valid(blank, placed, jobs, order, false);
    }
    let map: RelocationMap = make_ref_map(files, &work.jobs, &refs);
    let end: u64 = match lay_out_files(files, &work.order, cursor) {
        Ok(end) => end,
        Err(e) => {
            return Err(e);
        },
    };
    proof {
        plan_files_same(placed, order, cursor as int);
        jobs_stay_valid(placed, files@, jobs, order, false);
    }
    Ok((map, end))
}

proof fn plan_refs_len(
    root: DirView,
    jobs: Seq<(Seq<usize>, EntryType)>,
    rrip: Option<RripOptions>,
    time: Seq<u8>,
    refs: Map<DirKey, DirectoryRef>,
    cursor: int,
    inode: int,
)
    requires
        plan_dirs(root, jobs, rrip, time, refs, cursor, inode) is Ok,
        cursor >= 0,
        cursor + 2048 <= u64::MAX,
    ensures
        ({
            let p = plan_dirs(root, jobs, rrip, time, refs, cursor, inode)->Ok_0;
            &&& p.refs.len() == jobs.len()
            &&& p.cursor + 2048 <= u64::MAX
        }),
    decreases jobs.len(),
{
    if jobs.len() > 0 {
        plan_refs_len(root, jobs.drop_last(), rrip, time, refs, cursor, inode);
        reveal(crate::iso::plan::plan_step);
    }
}

/// Where a path table lies in both byte orders.
#[derive(Debug, Clone, Copy, PartialEq, Eq, Structural)]
pub struct PathTableRef {
    /// The one with the least significant bytes first.
    pub lpt: LogicalSector,
    /// The one with the most significant bytes first.
    pub mpt: LogicalSector,
    /// Bytes of each.
    pub size: u64,
}

/// The data with a path table behind it, in whole sectors.
pub open spec fn with_table(data: Seq<u8>, table: Seq<u8>) -> Seq<u8> {
    padded(padded(data) + table)
}

/// The data with the path tables of namespaces behind it, and where they lie.
pub open spec fn with_path_tables(root: DirView, types: Seq<EntryType>, data: Seq<u8>) -> Result<
    (Seq<u8>, Seq<PathTableRef>),
    IsoCreationError,
>
    decreases types.len(),
{
    if types.len() == 0 {
        Ok((data, Seq::empty()))
    } else {
        match with_path_tables(root, types.drop_last(), data) {
            Err(e) => Err(e),
            Ok((before, refs)) => {
                let ty = types.last();
                match (
                    path_table(root, ty, EndianType::LittleEndian),
                    path_table(root, ty, EndianType::BigEndian),
                ) {
                    (Ok(l), Ok(m)) => {
                        let middle = with_table(before, l);
                        Ok(
                            (
                                with_table(middle, m),
                                refs.push(
                                    PathTableRef {
                                        lpt: LogicalSector((padded(before).len() / 2048) as usize),
                                        mpt: LogicalSector((padded(middle).len() / 2048) as usize),
                                        size: l.len() as u64,
                                    },
                                ),
                            ),
                        )
                    },
                    (Err(e), _) => Err(e),
                    (_, Err(e)) => Err(e),
                }
            },
        }
    }
}

proof fn path_tables_error(root: DirView, types: Seq<EntryType>, data: Seq<u8>, k: int)
    requires
        0 <= k <= types.len(),
        with_path_tables(root, types.take(k), data) is Err,
    ensures
        with_path_tables(root, types, data) == with_path_tables(root, types.take(k), data),
    decreases types.len(),
{
    if k == types.len() {
        assert(types.take(k) =~= types);
    } else {
        assert(types.drop_last().take(k) =~= types.take(k));
        path_tables_error(root, types.drop_last(), data, k);
    }
}

/// Appends a path table, and says where it lies.
fn write_path_table(data: &mut Vec<u8>, files: &WrittenFiles, ty: EntryType, endian: EndianType) -> (r:
    Result<DirectoryRef, IsoCreationError>)
    ensures
        match path_table(files@, ty, endian) {
            Ok(table) => {
                &&& r matches Ok(at) && at.extent.0 == padded(old(data)@).len() / 2048 && at.size
                    == table.len()
                &&& final(data)@ == with_table(old(data)@, table)
            },
            Err(e) => r == Err::<DirectoryRef, IsoCreationError>(e),
        },
{
    pad_align_sector(data);
    let start: usize = data.len();
    let writer: PathTableWriter<'_> = PathTableWriter { written_files: files, ty, endian };
    match writer.write(data) {
        Ok(_) => {},
        Err(e) => {
            return Err(e);
        },
    }
    let size: usize = data.len() - start;
    pad_align_sector(data);
    Ok(DirectoryRef::new(start / 2048, size))
}

/// Appends the path tables of all namespaces.
fn write_path_tables(data: &mut Vec<u8>, files: &WrittenFiles, types: &Vec<EntryType>) -> (r: Result<
    Vec<PathTableRef>,
    IsoCreationError,
>)
    ensures
        match with_path_tables(files@, types@, old(data)@) {
            Ok((after, refs)) => {
                &&& r matches Ok(v) && v@ == refs && v@.len() == types@.len()
                &&& final(data)@ == after
            },
            Err(e) => r == Err::<Vec<PathTableRef>, IsoCreationError>(e),
        },
{
    let ghost root = files@;
    let ghost data0 = data@;
    let ghost all = types@;
    let mut refs: Vec<PathTableRef> = Vec::new();
    let mut i: usize = 0;
    assert(all.take(0) =~= Seq::empty());
    while i < types.len()
        invariant
            i <= types@.len(),
            all == types@,
            root == files@,
            data0 == old(data)@,
            refs@.len() == i,
            with_path_tables(root, all.take(i as int), data0) == Ok::<
                (Seq<u8>, Seq<PathTableRef>),
                IsoCreationError,
            >((data@, refs@)),
        decreases types.len() - i,
    {
        let ghost next = all.take(i + 1);
        proof {
            assert(next.drop_last() =~= all.take(i as int));
            if with_path_tables(root, next, data0) is Err {
                path_tables_error(root, all, data0, i + 1);
            }
        }
        let ty: EntryType = types[i];
        let l_ref: DirectoryRef = match write_path_table(
            data,
            files,
            ty,
            EndianType::LittleEndian,
        ) {
            Ok(at) => at,
            Err(e) => {
                return Err(e);
            },
        };
        let m_ref: DirectoryRef = match write_path_table(data, files, ty, EndianType::BigEndian) {
            Ok(at) => at,
            Err(e) => {
                return Err(e);
            },
        };
        refs.push(
            PathTableRef { lpt: l_ref.extent, mpt: m_ref.extent, size: l_ref.size as u64 },
        );
        i += 1;
    }
    assert(all.take(i as int) =~= all);
    Ok(refs)
}

/// What the descriptor of a namespace says.
pub open spec fn location(
    root: DirView,
    ty: EntryType,
    table: PathTableRef,
    space: u32,
) -> Location {
    Location {
        root: entry_of(root, ty),
        path_table_size: table.size as u32,
        lpt: table.lpt.0 as u32,
        mpt: table.mpt.0 as u32,
        volume_space: space,
    }
}

/// What the descriptors of namespaces say.
pub open spec fn locations(
    root: DirView,
    types: Seq<EntryType>,
    tables: Seq<PathTableRef>,
    space: u32,
) -> Seq<Location> {
    Seq::new(types.len(), |i: int| location(root, types[i], tables[i], space))
}

/// What descriptors say before anything is laid out.
pub open spec fn no_location() -> Location {
    Location { root: empty_ref(), path_table_size: 0, lpt: 0, mpt: 0, volume_space: 0 }
}

/// As many empty locations.
pub open spec fn no_locations(n: nat) -> Seq<Location> {
    Seq::new(n, |i: int| no_location())
}

/// The descriptors of the first `n` namespaces. The boot record, if any, stands behind the
/// first.
pub open spec fn descriptor_list(
    ops: IsoFormatOptions,
    types: Seq<EntryType>,
    at: Seq<Location>,
    catalog: Option<u32>,
    n: int,
) -> Result<Seq<u8>, IsoCreationError>
    decreases n,
{
    if n <= 0 {
        Ok(Seq::empty())
    } else {
        match descriptor_list(ops, types, at, catalog, n - 1) {
            Err(e) => Err(e),
            Ok(before) => match namespace_descriptor(ops, types[n - 1], at[n - 1]) {
                Err(e) => Err(e),
                Ok(bytes) => match catalog {
                    Some(sector) if n == 1 => Ok(before + bytes + boot_record_bytes(sector)),
                    _ => Ok(before + bytes),
                },
            },
        }
    }
}

/// All descriptors and their end.
pub open spec fn descriptors(
    ops: IsoFormatOptions,
    types: Seq<EntryType>,
    at: Seq<Location>,
    catalog: Option<u32>,
) -> Result<Seq<u8>, IsoCreationError> {
    match descriptor_list(ops, types, at, catalog, types.len() as int) {
        Err(e) => Err(e),
        Ok(list) => Ok(list + terminator_bytes()),
    }
}

/// How many sectors the descriptors take.
pub open spec fn descriptor_sectors(types: Seq<EntryType>, boot: bool) -> int {
    types.len() + 1 + (if boot {
        1int
    } else {
        0
    })
}

proof fn descriptor_list_error(
    ops: IsoFormatOptions,
    types: Seq<EntryType>,
    at: Seq<Location>,
    catalog: Option<u32>,
    k: int,
    n: int,
)
    requires
        0 <= k <= n,
        descriptor_list(ops, types, at, catalog, k) is Err,
    ensures
        descriptor_list(ops, types, at, catalog, n) == descriptor_list(
            ops,
            types,
            at,
            catalog,
            k,
        ),
    decreases n,
{
    if k < n {
        descriptor_list_error(ops, types, at, catalog, k, n - 1);
    }
}

proof fn descriptor_list_len(
    ops: IsoFormatOptions,
    types: Seq<EntryType>,
    at: Seq<Location>,
    catalog: Option<u32>,
    n: int,
)
    requires
        descriptor_list(ops, types, at, catalog, n) is Ok,
    ensures
        descriptor_list(ops, types, at, catalog, n)->Ok_0.len() == (if n <= 0 {
            0
        } else {
            2048 * n + (if catalog is Some {
                2048int
            } else {
                0
            })
        }),
    decreases n,
{
    if n > 0 {
        descriptor_list_len(ops, types, at, catalog, n - 1);
        namespace_descriptors_fill_sectors(ops, types[n - 1], at[n - 1]);
        match catalog {
            Some(sector) => {
                boot_record_len(sector);
            },
            None => {},
        }
    }
}

proof fn boot_record_len(sector: u32)
    ensures
        boot_record_bytes(sector).len() == 2048,
{
    reveal_strlit("EL TORITO SPECIFICATION");
    vstd::utf8::is_ascii_chars_encode_utf8("EL TORITO SPECIFICATION"@);
}

/// The descriptors fill as many sectors as there are descriptors.
pub proof fn descriptors_len(
    ops: IsoFormatOptions,
    types: Seq<EntryType>,
    at: Seq<Location>,
    catalog: Option<u32>,
)
    requires
        types.len() > 0,
        descriptors(ops, types, at, catalog) is Ok,
    ensures
        descriptors(ops, types, at, catalog)->Ok_0.len() == 2048 * descriptor_sectors(
            types,
            catalog is Some,
        ),
{
    descriptor_list_len(ops, types, at, catalog, types.len() as int);
}

/// All descriptors and their end.
fn make_descriptors(
    ops: &IsoFormatOptions,
    types: &Vec<EntryType>,
    at: &Vec<Location>,
    catalog: Option<u32>,
) -> (r: Result<Vec<u8>, IsoCreationError>)
    requires
        at@.len() == types@.len(),
    ensures
        match descriptors(*ops, types@, at@, catalog) {
            Ok(bytes) => r matches Ok(v) && v@ == bytes,
            Err(e) => r == Err::<Vec<u8>, IsoCreationError>(e),
        },
{
    let mut out: Vec<u8> = Vec::new();
    let mut i: usize = 0;
    while i < types.len()
        invariant
            i <= types@.len(),
            at@.len() == types@.len(),
            descriptor_list(*ops, types@, at@, catalog, i as int) == Ok::<
                Seq<u8>,
                IsoCreationError,
            >(out@),
        decreases types.len() - i,
    {
        proof {
            if descriptor_list(*ops, types@, at@, catalog, i + 1) is Err {
                descriptor_list_error(*ops, types@, at@, catalog, i + 1, types@.len() as int);
            }
        }
        match create_volume_descriptor(ops, types[i], &at[i]) {
            Err(e) => {
                return Err(e);
            },
            Ok(bytes) => {
                crate::bytes::push_all(&mut out, bytes.as_slice());
            },
        }
        if i == 0 {
            match catalog {
                Some(sector) => {
                    let record: Vec<u8> = make_boot_record(sector);
                    crate::bytes::push_all(&mut out, record.as_slice());
                },
                None => {},
            }
        }
        i += 1;
    }
    push_terminator(&mut out);
    Ok(out)
}

/// Where directories and files start: behind the descriptors, and not before the floor.
pub open spec fn data_start(types: Seq<EntryType>, boot: bool, floor: Option<u32>) -> int {
    let behind = (16 + descriptor_sectors(types, boot)) * 2048;
    match floor {
        Some(sector) if sector * 2048 > behind => sector * 2048,
        _ => behind,
    }
}

/// Where the partition table at the start of an image ends: an MBR has 512 bytes, and a GPT
/// another 512 and 128 entries of 128 bytes.
pub open spec fn table_end(features: CreationFeatures) -> int {
    match scheme_of(features) {
        Some(PartitionScheme::Mbr) => 512,
        Some(PartitionScheme::Gpt) => 17408,
        Some(PartitionScheme::Hybrid) => 17408,
        _ => 0,
    }
}

/// The image without its descriptors and partition table: directories, files, path tables.
pub open spec fn image_body(
    root: DirView,
    ops: IsoFormatOptions,
    types: Seq<EntryType>,
    time: Seq<u8>,
    start: int,
) -> Result<(Seq<u8>, DirView, Seq<PathTableRef>), IsoCreationError> {
    let rrip = ops.features.rock_ridge;
    match layout(root, types, rrip, time, start) {
        Err(e) => Err(e),
        Ok(laid) => match write_dirs(
            laid.root,
            jobs_of(root, types),
            rrip,
            time,
            laid.refs,
            zeros(start),
            laid.inode,
        ) {
            Err(e) => Err(e),
            Ok(s) => match write_files(laid.root, order_of(root), s.data) {
                Err(e) => Err(e),
                Ok(data) => match with_path_tables(laid.root, types, data) {
                    Err(e) => Err(e),
                    Ok((after, tables)) => Ok((after, laid.root, tables)),
                },
            },
        },
    }
}

/// The largest image.
pub open spec fn max_image() -> int {
    0x3FFF_FFFF_FFFF_FFFF
}

/// The image with boot catalog, descriptors and partition table.
pub open spec fn finalized(
    data: Seq<u8>,
    root: DirView,
    tables: Seq<PathTableRef>,
    ops: IsoFormatOptions,
    types: Seq<EntryType>,
) -> Result<Seq<u8>, IsoCreationError> {
    let booted: Result<(Seq<u8>, Option<u32>), IsoCreationError> = match ops.features.el_torito {
        None => Ok((data, None)),
        Some(boot) => match with_catalog(root, boot, data) {
            Err(e) => Err(e),
            Ok((after, sector)) => Ok((after, Some(sector))),
        },
    };
    match booted {
        Err(e) => Err(e),
        Ok((with_boot, catalog)) => {
            let whole = padded(with_boot);
            if whole.len() > max_image() {
                Err(IsoCreationError::TooLarge)
            } else {
                let space = volume_space(ops.features, (whole.len() / 2048) as int);
                match descriptors(ops, types, locations(root, types, tables, space), catalog) {
                    Err(e) => Err(e),
                    Ok(list) => with_tables(root, ops, overwritten(whole, 32768, list)),
                }
            }
        },
    }
}

/// The image of a tree, or why there is none. `time` is the time of creation.
#[verifier::opaque]
pub open spec fn image(
    tree: Seq<EntryView>,
    ops: IsoFormatOptions,
    floor: Option<u32>,
    time: Seq<u8>,
) -> Result<Seq<u8>, IsoCreationError> {
    let rrip = ops.features.rock_ridge;
    let types = entry_types_of(ops.features);
    let boot = ops.features.el_torito;
    if ops.sector_size != 2048 {
        Err(IsoCreationError::SectorSize)
    } else {
        match first_error(tree, rrip, 1, 0) {
            Some(e) => Err(e),
            None => match descriptors(
                ops,
                types,
                no_locations(types.len()),
                match boot {
                    Some(_) => Some(0u32),
                    None => None,
                },
            ) {
                Err(e) => Err(e),
                Ok(_) => {
                    let input = input_with_catalog(tree, boot);
                    if (boot matches Some(b) && catalog_file_size(b.entries@.len() as int) + 2048
                        > usize::MAX) || list_events(input).len() >= usize::MAX {
                        Err(IsoCreationError::TooManyEntries)
                    } else {
                        let root = built_tree(input, rrip);
                        let start = data_start(types, boot is Some, floor);
                        match image_body(root, ops, types, time, start) {
                            Err(e) => Err(e),
                            Ok((data, full, tables)) => finalized(data, full, tables, ops, types),
                        }
                    }
                },
            },
        }
    }
}

proof fn write_dirs_len(
    root: DirView,
    jobs: Seq<(Seq<usize>, EntryType)>,
    rrip: Option<RripOptions>,
    time: Seq<u8>,
    refs: Map<DirKey, DirectoryRef>,
    data: Seq<u8>,
    inode: int,
)
    requires
        write_dirs(root, jobs, rrip, time, refs, data, inode) is Ok,
    ensures
        data.len() <= write_dirs(root, jobs, rrip, time, refs, data, inode)->Ok_0.data.len(),
    decreases jobs.len(),
{
    if jobs.len() > 0 {
        write_dirs_len(root, jobs.drop_last(), rrip, time, refs, data, inode);
        let s = write_dirs(root, jobs.drop_last(), rrip, time, refs, data, inode)->Ok_0;
        reveal(write_step);
        reveal(with_directory);
        padded_is_aligned(s.data);
    }
}

proof fn write_files_len(root: DirView, order: Seq<(Seq<usize>, usize)>, data: Seq<u8>)
    requires
        write_files(root, order, data) is Ok,
    ensures
        data.len() <= write_files(root, order, data)->Ok_0.len(),
    decreases order.len(),
{
    if order.len() > 0 {
        write_files_len(root, order.drop_last(), data);
        padded_is_aligned(write_files(root, order.drop_last(), data)->Ok_0);
    }
}

proof fn path_tables_len(root: DirView, types: Seq<EntryType>, data: Seq<u8>)
    requires
        with_path_tables(root, types, data) is Ok,
    ensures
        data.len() <= with_path_tables(root, types, data)->Ok_0.0.len(),
        with_path_tables(root, types, data)->Ok_0.1.len() == types.len(),
    decreases types.len(),
{
    if types.len() > 0 {
        path_tables_len(root, types.drop_last(), data);
        let before = with_path_tables(root, types.drop_last(), data)->Ok_0.0;
        let l = path_table(root, types.last(), EndianType::LittleEndian)->Ok_0;
        let m = path_table(root, types.last(), EndianType::BigEndian)->Ok_0;
        padded_is_aligned(before);
        padded_is_aligned(padded(before) + l);
        let middle = with_table(before, l);
        padded_is_aligned(middle);
        padded_is_aligned(padded(middle) + m);
    }
}

proof fn catalog_steps_len(root: DirView, boot: BootOptions, data: Seq<u8>, n: int)
    requires
        catalog_steps(root, boot, data, n) is Ok,
    ensures
        catalog_steps(root, boot, data, n)->Ok_0.data.len() == data.len(),
    decreases n,
{
    if n > 0 {
        catalog_steps_len(root, boot, data, n - 1);
    }
}

proof fn catalog_len(root: DirView, boot: BootOptions, data: Seq<u8>)
    requires
        with_catalog(root, boot, data) is Ok,
    ensures
        data.len() <= with_catalog(root, boot, data)->Ok_0.0.len(),
{
    let n = boot.entries@.len() as int;
    padded_is_aligned(data);
    catalog_steps_len(root, boot, padded(data), n);
    let s = catalog_steps(root, boot, padded(data), n)->Ok_0;
    padded_is_aligned(s.data + crate::iso::boot_image::catalog_bytes(s));
}

fn zero_image(n: u64) -> (r: Vec<u8>)
    ensures
        r@ == zeros(n as int),
{
    let mut r: Vec<u8> = Vec::new();
    let mut i: u64 = 0;
    assert(r@ =~= zeros(0));
    while i < n
        invariant
            i <= n,
            r@ == zeros(i as int),
        decreases n - i,
    {
        r.push(0);
        i += 1;
        assert(r@ =~= zeros(i as int));
    }
    r
}

/// Lays out and writes directories, files and path tables.
fn write_body(
    files: &mut WrittenFiles,
    ops: &IsoFormatOptions,
    types: &Vec<EntryType>,
    time: &RripTime,
    start: u64,
) -> (r: Result<(Vec<u8>, Vec<PathTableRef>), IsoCreationError>)
    requires
        start + 2048 <= u64::MAX,
    ensures
        match image_body(old(files)@, *ops, types@, time@, start as int) {
            Ok((data, root, tables)) => {
                &&& r matches Ok(v) && v.0@ == data && v.1@ == tables && v.1@.len() == types@.len()
                    && v.0@.len() >= start
                &&& final(files)@ == root
            },
            Err(e) => r == Err::<(Vec<u8>, Vec<PathTableRef>), IsoCreationError>(e),
        },
{
    let rrip: Option<&RripOptions> = match &ops.features.rock_ridge {
        Some(o) => Some(o),
        None => None,
    };
    assert(option_value(rrip) == ops.features.rock_ridge);
    let work: Work = make_work(files, types);
    let mut inode_counter: u32 = 1;
    let (refs, _end): (RelocationMap, u64) = match plan_layout(
        files,
        &work,
        rrip,
        time,
        start,
        &mut inode_counter,
        Ghost(types@),
    ) {
        Ok(v) => v,
        Err(e) => {
            return Err(e);
        },
    };
    let mut data: Vec<u8> = zero_image(start);
    let ghost inode = inode_counter as int;
    match write_directories(
        &mut data,
        files,
        &work.jobs,
        rrip,
        time,
        &refs,
        &mut inode_counter,
    ) {
        Ok(_) => {},
        Err(e) => {
            return Err(e);
        },
    }
    let ghost data1 = data@;
    proof {
        write_dirs_len(
            files@,
            job_views(work.jobs@),
            ops.features.rock_ridge,
            time@,
            refs@,
            zeros(start as int),
            inode,
        );
    }
    match write_file_data(&mut data, files, &work.order) {
        Ok(_) => {},
        Err(e) => {
            return Err(e);
        },
    }
    let ghost data2 = data@;
    proof {
        write_files_len(files@, order_view(work.order@), data1);
    }
    match write_path_tables(&mut data, files, types) {
        Ok(tables) => {
            proof {
                path_tables_len(files@, types@, data2);
            }
            Ok((data, tables))
        },
        Err(e) => Err(e),
    }
}

/// Lays out directories, files and path tables without writing them: where the files end,
/// and how many bytes the path tables take behind them.
pub(crate) fn plan_body(
    files: &mut WrittenFiles,
    ops: &IsoFormatOptions,
    types: &Vec<EntryType>,
    time: &RripTime,
    start: u64,
) -> (r: Result<(u64, usize), IsoCreationError>)
    requires
        start + 2048 <= u64::MAX,
    ensures
        match layout(old(files)@, types@, ops.features.rock_ridge, time@, start as int) {
            Ok(laid) => match with_path_tables(laid.root, types@, Seq::empty()) {
                Ok((tables, _)) => r matches Ok(v) && v.0 == laid.end && v.1 == tables.len(),
                Err(e) => r == Err::<(u64, usize), IsoCreationError>(e),
            },
            Err(e) => r == Err::<(u64, usize), IsoCreationError>(e),
        },
{
    let rrip: Option<&RripOptions> = match &ops.features.rock_ridge {
        Some(o) => Some(o),
        None => None,
    };
    assert(option_value(rrip) == ops.features.rock_ridge);
    let work: Work = make_work(files, types);
    let mut inode_counter: u32 = 1;
    let (_refs, end): (RelocationMap, u64) = match plan_layout(
        files,
        &work,
        rrip,
        time,
        start,
        &mut inode_counter,
        Ghost(types@),
    ) {
        Ok(v) => v,
        Err(e) => {
            return Err(e);
        },
    };
    let mut tables: Vec<u8> = Vec::new();
    assert(tables@ =~= Seq::empty());
    match write_path_tables(&mut tables, files, types) {
        Ok(_) => Ok((end, tables.len())),
        Err(e) => Err(e),
    }
}

fn make_locations(
    files: &WrittenFiles,
    types: &Vec<EntryType>,
    tables: &Vec<PathTableRef>,
    space: u32,
) -> (r: Vec<Location>)
    requires
        tables@.len() == types@.len(),
    ensures
        r@ == locations(files@, types@, tables@, space),
        r@.len() == types@.len(),
{
    let ghost all = locations(files@, types@, tables@, space);
    let mut r: Vec<Location> = Vec::new();
    let mut i: usize = 0;
    while i < types.len()
        invariant
            i <= types@.len(),
            tables@.len() == types@.len(),
            all == locations(files@, types@, tables@, space),
            r@ == all.take(i as int),
        decreases types.len() - i,
    {
        r.push(
            Location {
                root: get_entry(&files.root, types[i]),
                path_table_size: tables[i].size as u32,
                lpt: tables[i].lpt.0 as u32,
                mpt: tables[i].mpt.0 as u32,
                volume_space: space,
            },
        );
        i += 1;
        assert(r@ =~= all.take(i as int));
    }
    assert(r@ =~= all);
    r
}

fn make_no_locations(n: usize) -> (r: Vec<Location>)
    ensures
        r@ == no_locations(n as nat),
        r@.len() == n,
{
    let mut r: Vec<Location> = Vec::new();
    let mut i: usize = 0;
    while i < n
        invariant
            i <= n,
            r@ == no_locations(i as nat),
        decreases n - i,
    {
        r.push(
            Location {
                root: DirectoryRef::default(),
                path_table_size: 0,
                lpt: 0,
                mpt: 0,
                volume_space: 0,
            },
        );
        i += 1;
        assert(r@ =~= no_locations(i as nat));
    }
    assert(r@ =~= no_locations(n as nat));
    r
}

/// Adds boot catalog, descriptors and partition table.
fn finalize_volume_descriptors(
    data: &mut Vec<u8>,
    files: &WrittenFiles,
    tables: &Vec<PathTableRef>,
    ops: &IsoFormatOptions,
    types: &Vec<EntryType>,
) -> (r: Result<(), IsoCreationError>)
    requires
        types@.len() > 0,
        tables@.len() == types@.len(),
        old(data)@.len() >= (16 + descriptor_sectors(types@, ops.features.el_torito is Some))
            * 2048,
    ensures
        match finalized(old(data)@, files@, tables@, *ops, types@) {
            Ok(after) => r == Ok::<(), IsoCreationError>(()) && final(data)@ == after,
            Err(e) => r == Err::<(), IsoCreationError>(e),
        },
{
    let ghost before = data@;
    let catalog: Option<u32> = match &ops.features.el_torito {
        None => None,
        Some(boot) => match write_boot_catalog(data, files, ops.path_separator, boot) {
            Err(e) => {
                return Err(e);
            },
            Ok(sector) => {
                proof {
                    catalog_len(files@, *boot, before);
                }
                Some(sector)
            },
        },
    };
    assert(data@.len() >= before.len());
    proof {
        padded_is_aligned(data@);
    }
    pad_align_sector(data);
    if data.len() as u64 > 0x3FFF_FFFF_FFFF_FFFF {
        return Err(IsoCreationError::TooLarge);
    }
    let end_sector: u64 = (data.len() / 2048) as u64;
    let space: u32 = volume_space_sectors(ops, end_sector);
    let at: Vec<Location> = make_locations(files, types, tables, space);
    match make_descriptors(ops, types, &at, catalog) {
        Err(e) => Err(e),
        Ok(list) => {
            proof {
                descriptors_len(*ops, types@, at@, catalog);
            }
            overwrite(data, 32768, list.as_slice());
            match write_partition_tables(data, files, ops) {
                Ok(_) => Ok(()),
                Err(e) => Err(e),
            }
        },
    }
}

/// Creates images.
pub struct IsoImageWriter;

impl IsoImageWriter {
    /// The image of a tree, made at the time of the call.
    pub fn create(files: InputTree, ops: &IsoFormatOptions) -> (r: Result<Vec<u8>, IsoCreationError>)
        ensures
            exists|now: CivilTime|
                #![trigger rrip_time_bytes(now)]
                now.wf() && match image(files@, *ops, None, rrip_time_bytes(now)) {
                    Ok(bytes) => r matches Ok(v) && v@ == bytes,
                    Err(e) => r == Err::<Vec<u8>, IsoCreationError>(e),
                },
    {
        Self::create_with_allocation_floor(files, ops, None)
    }

    /// The image of a tree, made at the time of the call, with directories and files not
    /// before a sector. A floor below the end of the descriptors has no effect.
    pub fn create_with_allocation_floor(
        files: InputTree,
        ops: &IsoFormatOptions,
        allocation_floor: Option<u32>,
    ) -> (r: Result<Vec<u8>, IsoCreationError>)
        ensures
            exists|now: CivilTime|
                #![trigger rrip_time_bytes(now)]
                now.wf() && match image(files@, *ops, allocation_floor, rrip_time_bytes(now)) {
                    Ok(bytes) => r matches Ok(v) && v@ == bytes,
                    Err(e) => r == Err::<Vec<u8>, IsoCreationError>(e),
                },
    {
        let now: CivilTime = civil_now();
        let time: RripTime = encode_rrip_time(now);
        Self::create_at(files, ops, allocation_floor, &time)
    }

    /// The parts of an image that hold nothing, where a target may keep what it has: the rest
    /// of the system area, and what lies between the descriptors and an allocation floor.
    pub fn gaps(ops: &IsoFormatOptions, allocation_floor: Option<u32>) -> (r: Vec<(u64, u64)>)
        ensures
            ({
                let types = entry_types_of(ops.features);
                let boot = ops.features.el_torito is Some;
                &&& r@.len() == 2
                &&& r@[0].0 == table_end(ops.features)
                &&& r@[0].1 == 32768
                &&& r@[1].0 == data_start(types, boot, None)
                &&& r@[1].1 == data_start(types, boot, allocation_floor)
            }),
    {
        let end: u64 = match ops.partition_scheme() {
            Some(PartitionScheme::Mbr) => 512,
            Some(PartitionScheme::Gpt) => 17408,
            Some(PartitionScheme::Hybrid) => 17408,
            _ => 0,
        };
        let types: Vec<EntryType> = ops.entry_types();
        let boot: u64 = match &ops.features.el_torito {
            Some(_) => 1,
            None => 0,
        };
        assert(types@.len() <= 3);
        let behind: u64 = (16 + types.len() as u64 + 1 + boot) * 2048;
        let start: u64 = match allocation_floor {
            Some(sector) => if sector as u64 * 2048 > behind {
                sector as u64 * 2048
            } else {
                behind
            },
            None => behind,
        };
        let mut r: Vec<(u64, u64)> = Vec::new();
        r.push((end, 32768));
        r.push((behind, start));
        r
    }

    /// The image of a tree that is made at a given time.
    #[verifier::spinoff_prover]
    #[verifier::rlimit(60)]
    pub fn create_at(
        files: InputTree,
        ops: &IsoFormatOptions,
        allocation_floor: Option<u32>,
        time: &RripTime,
    ) -> (r: Result<Vec<u8>, IsoCreationError>)
        ensures
            match image(files@, *ops, allocation_floor, time@) {
                Ok(bytes) => r matches Ok(v) && v@ == bytes,
                Err(e) => r == Err::<Vec<u8>, IsoCreationError>(e),
            },
    {
        proof {
            reveal(image);
        }
        let mut files: InputTree = files;
        let ghost tree = files@;
        if ops.sector_size != 2048 {
            return Err(IsoCreationError::SectorSize);
        }
        let rrip: Option<&RripOptions> = match &ops.features.rock_ridge {
            Some(o) => Some(o),
            None => None,
        };
        match files.validate(rrip) {
            Ok(_) => {},
            Err(e) => {
                return Err(e);
            },
        }
        let types: Vec<EntryType> = ops.entry_types();
        let ghost boot = ops.features.el_torito;
        let nowhere: Vec<Location> = make_no_locations(types.len());
        let blank: Option<u32> = match &ops.features.el_torito {
            Some(_) => Some(0),
            None => None,
        };
        match make_descriptors(ops, &types, &nowhere, blank) {
            Ok(_) => {},
            Err(e) => {
                return Err(e);
            },
        }
        match &ops.features.el_torito {
            Some(boot) => {
                let sections: u128 = boot.entries.len() as u128;
                let size: u128 = (96 + sections * 64 + 2047) / 2048 * 2048;
                if size + 2048 > usize::MAX as u128 {
                    return Err(IsoCreationError::TooManyEntries);
                }
                let _record: Vec<u8> = ElToritoWriter::create_descriptor(boot, &mut files);
            },
            None => {},
        }
        assert(files@ == input_with_catalog(tree, boot));
        let has_boot: bool = ops.features.el_torito.is_some();
        let count: u64 = types.len() as u64 + 1 + if has_boot {
            1
        } else {
            0
        };
        let behind: u64 = (16 + count) * 2048;
        let start: u64 = match allocation_floor {
            Some(sector) => if sector as u64 * 2048 > behind {
                sector as u64 * 2048
            } else {
                behind
            },
            None => behind,
        };
        let mut written: WrittenFiles = match build_tree(&files, ops) {
            Ok(written) => written,
            Err(e) => {
                return Err(e);
            },
        };
        match write_body(&mut written, ops, &types, time, start) {
            Err(e) => Err(e),
            Ok((mut data, tables)) => match finalize_volume_descriptors(
                &mut data,
                &written,
                &tables,
                ops,
                &types,
            ) {
                Ok(_) => Ok(data),
                Err(e) => Err(e),
            },
        }
    }
}

} // verus!
