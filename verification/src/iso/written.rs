//! The directory tree of an image under construction.

use std::sync::Arc;

use crate::bytes::bytes_equal;
use crate::iso::refmap::{DirKey, RefMap, RelocationMap};
#[allow(unused_imports)]
use crate::iso::tree::{
    entry_events, list_events, no_metadata, open_directories, EntryView, Event, KindView,
};
use crate::iso::tree::{FileTreeWalker, InputEntryKind, InputMetadata, TreeWalkerItem};
#[allow(unused_imports)]
use crate::iso::types::empty_ref;
use crate::iso::types::{DirectoryRef, EntryType, PathSeparator};
use crate::text::{path_components, share};
#[allow(unused_imports)]
use crate::text::path_parts;
use vstd::prelude::*;
#[allow(unused_imports)]
use vstd::utf8::encode_utf8;

verus! {

/// The way to a directory from the root: the index of a child at each level.
#[derive(Debug)]
pub struct DirectoryId {
    /// The indices.
    pub indices: Vec<usize>,
}

impl DirectoryId {
    /// The indices.
    pub open spec fn view(&self) -> Seq<usize> {
        self.indices@
    }

    /// The root.
    pub fn new() -> (r: Self)
        ensures
            r@ == Seq::<usize>::empty(),
    {
        DirectoryId { indices: Vec::new() }
    }

    /// Goes down to a child.
    pub fn push(&mut self, index: usize)
        ensures
            final(self)@ == old(self)@.push(index),
    {
        self.indices.push(index);
    }

    /// Goes up, and says which child it was.
    pub fn pop(&mut self) -> (r: usize)
        requires
            old(self)@.len() > 0,
        ensures
            final(self)@ == old(self)@.drop_last(),
            r == old(self)@.last(),
    {
        match self.indices.pop() {
            Some(index) => index,
            None => 0,
        }
    }

    /// A copy.
    pub fn duplicate(&self) -> (r: Self)
        ensures
            r@ == self@,
    {
        let indices: Vec<usize> = self.indices.clone();
        assert(indices@ =~= self.indices@);
        DirectoryId { indices }
    }

    /// Whether this is the root.
    pub fn is_root(&self) -> (r: bool)
        ensures
            r == (self@.len() == 0),
    {
        self.indices.len() == 0
    }
}

/// Where a directory stands when deep directories are relocated.
#[derive(Debug, Clone, Copy, PartialEq, Eq, Structural)]
pub enum DirectoryRelocation {
    /// At its place.
    InPlace,
    /// Elsewhere; this entry only points at it.
    Placeholder {
        /// Number of the relocated directory.
        target: usize,
    },
    /// Here, but it belongs elsewhere.
    Moved {
        /// Number of this directory.
        id: usize,
        /// Number of the directory that it belongs to.
        logical_parent: usize,
    },
}

/// A file of the tree.
#[derive(Debug)]
pub struct WrittenFile {
    /// Name.
    pub name: Arc<String>,
    /// First extent.
    pub entry: DirectoryRef,
    /// Further extents of a file that needs more than one.
    pub additional_extents: Vec<DirectoryRef>,
    /// What the file is.
    pub kind: InputEntryKind,
    /// Metadata.
    pub metadata: InputMetadata,
}

/// A directory of the tree.
#[derive(Debug)]
pub struct WrittenDirectory {
    /// Number, counted from 0 at the root in the order of the walk.
    pub id: usize,
    /// Name in the image.
    pub name: Arc<String>,
    /// Name that Rock Ridge shows.
    pub rrip_name: Arc<String>,
    /// Extent of the directory in each namespace.
    pub entries: RefMap<EntryType>,
    /// Child directories.
    pub dirs: Vec<WrittenDirectory>,
    /// Files.
    pub files: Vec<WrittenFile>,
    /// Metadata.
    pub metadata: InputMetadata,
    /// Where the directory stands.
    pub relocation: DirectoryRelocation,
}

/// The tree of directories and files of an image.
#[derive(Debug)]
pub struct WrittenFiles {
    /// The root directory.
    pub root: WrittenDirectory,
}

/// The mathematical value of a [`WrittenFile`].
pub struct FileView {
    /// Name.
    pub name: Seq<char>,
    /// First extent.
    pub entry: DirectoryRef,
    /// Further extents.
    pub additional_extents: Seq<DirectoryRef>,
    /// What the file is.
    pub kind: KindView,
    /// Metadata.
    pub metadata: InputMetadata,
}

/// The mathematical value of a [`WrittenDirectory`].
pub struct DirView {
    /// Number.
    pub id: usize,
    /// Name in the image.
    pub name: Seq<char>,
    /// Name that Rock Ridge shows.
    pub rrip_name: Seq<char>,
    /// Extents.
    pub entries: Map<EntryType, DirectoryRef>,
    /// Child directories.
    pub dirs: Seq<DirView>,
    /// Files.
    pub files: Seq<FileView>,
    /// Metadata.
    pub metadata: InputMetadata,
    /// Where the directory stands.
    pub relocation: DirectoryRelocation,
}

impl WrittenFile {
    /// The mathematical value.
    pub open spec fn view(&self) -> FileView {
        FileView {
            name: self.name@,
            entry: self.entry,
            additional_extents: self.additional_extents@,
            kind: self.kind.view(),
            metadata: self.metadata,
        }
    }

    /// A file without extents.
    pub fn new(name: Arc<String>, kind: InputEntryKind, metadata: InputMetadata) -> (r: Self)
        ensures
            r.view() == (FileView {
                name: name@,
                entry: empty_ref(),
                additional_extents: Seq::empty(),
                kind: kind.view(),
                metadata,
            }),
    {
        let r: WrittenFile = WrittenFile {
            name,
            entry: DirectoryRef::default(),
            additional_extents: Vec::new(),
            kind,
            metadata,
        };
        assert(r.additional_extents@ =~= Seq::empty());
        r
    }

    /// A file with one extent.
    pub fn with_extent(
        name: Arc<String>,
        kind: InputEntryKind,
        metadata: InputMetadata,
        extent: DirectoryRef,
    ) -> (r: Self)
        ensures
            r.view() == (FileView {
                name: name@,
                entry: extent,
                additional_extents: Seq::empty(),
                kind: kind.view(),
                metadata,
            }),
    {
        let r: WrittenFile = WrittenFile {
            name,
            entry: extent,
            additional_extents: Vec::new(),
            kind,
            metadata,
        };
        assert(r.additional_extents@ =~= Seq::empty());
        r
    }

    /// All extents, the first one first.
    pub fn extents(&self) -> (r: Vec<DirectoryRef>)
        ensures
            r@ == file_extents(self.view()),
    {
        let mut r: Vec<DirectoryRef> = Vec::new();
        r.push(self.entry);
        let mut i: usize = 0;
        while i < self.additional_extents.len()
            invariant
                i <= self.additional_extents@.len(),
                r@ == seq![self.entry] + self.additional_extents@.take(i as int),
            decreases self.additional_extents.len() - i,
        {
            r.push(self.additional_extents[i]);
            i += 1;
            assert(r@ =~= seq![self.entry] + self.additional_extents@.take(i as int));
        }
        assert(r@ =~= file_extents(self.view()));
        r
    }
}

/// All extents of a file, the first one first.
pub open spec fn file_extents(file: FileView) -> Seq<DirectoryRef> {
    seq![file.entry] + file.additional_extents
}

/// The values of files.
pub open spec fn written_files_view(files: Seq<WrittenFile>) -> Seq<FileView> {
    Seq::new(files.len(), |i: int| files[i].view())
}

/// The values of directories.
pub open spec fn dirs_view(dirs: Seq<WrittenDirectory>) -> Seq<DirView> {
    Seq::new(dirs.len(), |i: int| dirs[i].view())
}

/// An empty directory.
pub open spec fn new_dir(name: Seq<char>) -> DirView {
    DirView {
        id: 0,
        name,
        rrip_name: name,
        entries: Map::empty(),
        dirs: Seq::empty(),
        files: Seq::empty(),
        metadata: no_metadata(),
        relocation: DirectoryRelocation::InPlace,
    }
}

/// The extent of a directory in a namespace: a placeholder has that of its target, and
/// an empty one where the target has none.
pub open spec fn dir_ref(
    dir: DirView,
    ty: EntryType,
    refs: Map<DirKey, DirectoryRef>,
) -> DirectoryRef {
    match dir.relocation {
        DirectoryRelocation::Placeholder { target } => if refs.dom().contains(DirKey { id: target, ty }) {
            refs[DirKey { id: target, ty }]
        } else {
            empty_ref()
        },
        _ => dir.entries[ty],
    }
}

impl WrittenDirectory {
    /// The mathematical value.
    pub open spec fn view(&self) -> DirView
        decreases self,
    {
        DirView {
            id: self.id,
            name: self.name@,
            rrip_name: self.rrip_name@,
            entries: self.entries@,
            dirs: Seq::new(
                self.dirs@.len(),
                |i: int|
                    if 0 <= i < self.dirs@.len() {
                        self.dirs@[i].view()
                    } else {
                        arbitrary()
                    },
            ),
            files: written_files_view(self.files@),
            metadata: self.metadata,
            relocation: self.relocation,
        }
    }

    /// An empty directory.
    pub fn new(name: Arc<String>) -> (r: Self)
        ensures
            r.view() == new_dir(name@),
    {
        let r: WrittenDirectory = WrittenDirectory {
            id: 0,
            rrip_name: share(&name),
            name,
            entries: RefMap::new(),
            dirs: Vec::new(),
            files: Vec::new(),
            metadata: InputMetadata::default(),
            relocation: DirectoryRelocation::InPlace,
        };
        proof {
            assert(r.view().dirs =~= Seq::empty());
            assert(r.view().files =~= Seq::empty());
        }
        r
    }

    /// The extent of the directory in a namespace.
    pub fn get_dir_ref(&self, ty: EntryType, relocation_refs: &RelocationMap) -> (r: DirectoryRef)
        requires
            !(self.relocation is Placeholder) ==> self.entries@.dom().contains(ty),
        ensures
            r == dir_ref(self.view(), ty, relocation_refs@),
    {
        match self.relocation {
            DirectoryRelocation::Placeholder { target } => match relocation_refs.get(
                &DirKey { id: target, ty },
            ) {
                Some(r) => r,
                None => DirectoryRef::default(),
            },
            _ => match self.entries.get(&ty) {
                Some(r) => r,
                None => DirectoryRef::default(),
            },
        }
    }

    /// Sets the extent of the directory in a namespace.
    pub fn set_entry(&mut self, ty: EntryType, entry: DirectoryRef)
        ensures
            final(self).view() == (DirView {
                entries: old(self).view().entries.insert(ty, entry),
                ..old(self).view()
            }),
    {
        self.entries.insert(ty, entry);
        assert(self.view().dirs =~= old(self).view().dirs);
    }

    /// Sets the extents of a file.
    pub fn set_extents(&mut self, index: usize, entry: DirectoryRef, additional: Vec<DirectoryRef>)
        requires
            index < old(self).view().files.len(),
        ensures
            final(self).view() == (DirView {
                files: old(self).view().files.update(
                    index as int,
                    FileView {
                        entry,
                        additional_extents: additional@,
                        ..old(self).view().files[index as int]
                    },
                ),
                ..old(self).view()
            }),
    {
        let ghost before = self.view();
        self.files[index].entry = entry;
        self.files[index].additional_extents = additional;
        proof {
            assert(self.view().dirs =~= before.dirs);
            assert(self.view().files =~= before.files.update(
                index as int,
                FileView {
                    entry,
                    additional_extents: additional@,
                    ..before.files[index as int]
                },
            ));
        }
    }

    /// Adds a file.
    pub fn push_file(&mut self, file: WrittenFile)
        ensures
            final(self).view() == (DirView {
                files: old(self).view().files.push(file.view()),
                ..old(self).view()
            }),
    {
        self.files.push(file);
        proof {
            assert(self.view().files =~= old(self).view().files.push(file.view()));
            assert(self.view().dirs =~= old(self).view().dirs);
        }
    }

    /// Adds an empty child directory and says at which index.
    pub fn push_dir(&mut self, name: Arc<String>, metadata: InputMetadata) -> (r: usize)
        ensures
            r == old(self).view().dirs.len(),
            final(self).view() == (DirView {
                dirs: old(self).view().dirs.push(DirView { metadata, ..new_dir(name@) }),
                ..old(self).view()
            }),
    {
        self.push_numbered_dir(name, metadata, 0)
    }

    fn push_numbered_dir(&mut self, name: Arc<String>, metadata: InputMetadata, id: usize) -> (r:
        usize)
        ensures
            r == old(self).view().dirs.len(),
            final(self).view() == (DirView {
                dirs: old(self).view().dirs.push(DirView { metadata, id, ..new_dir(name@) }),
                ..old(self).view()
            }),
    {
        let mut directory: WrittenDirectory = WrittenDirectory::new(name);
        directory.metadata = metadata;
        directory.id = id;
        proof {
            assert(directory.view().dirs =~= Seq::empty());
            assert(directory.view() == (DirView { metadata, id, ..new_dir(name@) }));
        }
        let index: usize = self.dirs.len();
        self.dirs.push(directory);
        proof {
            assert(self.view().dirs =~= old(self).view().dirs.push(directory.view()));
        }
        index
    }
}

/// Whether the way leads to a directory.
pub open spec fn valid_path(dir: DirView, path: Seq<usize>) -> bool
    decreases path.len(),
{
    path.len() > 0 ==> {
        &&& path[0] < dir.dirs.len()
        &&& valid_path(dir.dirs[path[0] as int], path.drop_first())
    }
}

/// The directory that the way leads to.
pub open spec fn dir_at(dir: DirView, path: Seq<usize>) -> DirView
    decreases path.len(),
{
    if path.len() == 0 {
        dir
    } else {
        dir_at(dir.dirs[path[0] as int], path.drop_first())
    }
}

/// The tree with the directory that the way leads to replaced.
pub open spec fn with_dir_at(dir: DirView, path: Seq<usize>, new: DirView) -> DirView
    decreases path.len(),
{
    if path.len() == 0 {
        new
    } else {
        DirView {
            dirs: dir.dirs.update(
                path[0] as int,
                with_dir_at(dir.dirs[path[0] as int], path.drop_first(), new),
            ),
            ..dir
        }
    }
}

/// Replacing a directory puts the new one where the way leads, and a second replacement
/// forgets the first.
pub proof fn replaced_dir_is_found(dir: DirView, path: Seq<usize>, x: DirView, y: DirView)
    requires
        valid_path(dir, path),
    ensures
        valid_path(with_dir_at(dir, path, x), path),
        dir_at(with_dir_at(dir, path, x), path) == x,
        with_dir_at(with_dir_at(dir, path, x), path, y) == with_dir_at(dir, path, y),
        with_dir_at(dir, path, dir_at(dir, path)) == dir,
    decreases path.len(),
{
    if path.len() > 0 {
        let i = path[0] as int;
        replaced_dir_is_found(dir.dirs[i], path.drop_first(), x, y);
        let a = with_dir_at(dir, path, x);
        assert(a.dirs[i] == with_dir_at(dir.dirs[i], path.drop_first(), x));
        assert(with_dir_at(a, path, y).dirs =~= with_dir_at(dir, path, y).dirs);
        assert(with_dir_at(dir, path, dir_at(dir, path)).dirs =~= dir.dirs);
    }
}

/// One step further down the way.
pub proof fn path_goes_down(dir: DirView, path: Seq<usize>, i: usize)
    requires
        valid_path(dir, path),
    ensures
        valid_path(dir, path.push(i)) <==> i < dir_at(dir, path).dirs.len(),
        i < dir_at(dir, path).dirs.len() ==> {
            &&& dir_at(dir, path.push(i)) == dir_at(dir, path).dirs[i as int]
            &&& forall|y: DirView|
                #![trigger with_dir_at(dir, path.push(i), y)]
                with_dir_at(dir, path.push(i), y) == with_dir_at(
                    dir,
                    path,
                    DirView {
                        dirs: dir_at(dir, path).dirs.update(i as int, y),
                        ..dir_at(dir, path)
                    },
                )
        },
    decreases path.len(),
{
    let q = path.push(i);
    reveal_with_fuel(valid_path, 2);
    reveal_with_fuel(dir_at, 2);
    reveal_with_fuel(with_dir_at, 2);
    if path.len() == 0 {
        assert(q.drop_first() =~= Seq::empty());
        assert(q[0] == i);
    } else {
        let j = path[0] as int;
        assert(q.drop_first() =~= path.drop_first().push(i));
        path_goes_down(dir.dirs[j], path.drop_first(), i);
        assert(q[0] == path[0]);
        if i < dir_at(dir, path).dirs.len() {
            let end = dir_at(dir, path);
            assert forall|y: DirView|
                #![trigger with_dir_at(dir, q, y)]
                with_dir_at(dir, q, y) == with_dir_at(
                    dir,
                    path,
                    DirView { dirs: end.dirs.update(i as int, y), ..end },
                ) by {
                assert(with_dir_at(dir.dirs[j], path.drop_first().push(i), y) == with_dir_at(
                    dir.dirs[j],
                    path.drop_first(),
                    DirView { dirs: end.dirs.update(i as int, y), ..end },
                ));
            }
        }
    }
}

/// One step up the way.
pub proof fn path_goes_up(dir: DirView, path: Seq<usize>)
    requires
        valid_path(dir, path),
        path.len() > 0,
    ensures
        valid_path(dir, path.drop_last()),
    decreases path.len(),
{
    if path.len() > 1 {
        assert(path.drop_last().drop_first() =~= path.drop_first().drop_last());
        path_goes_up(dir.dirs[path[0] as int], path.drop_first());
    }
}

/// The state of building the tree from the events of a walk.
pub struct WalkState {
    /// The tree so far.
    pub root: DirView,
    /// The directory that is open.
    pub path: Seq<usize>,
    /// The number of the next directory.
    pub next_id: int,
}

/// A directory as the walk adds it.
pub open spec fn fresh_dir(entry: EntryView, id: int) -> DirView {
    DirView { metadata: entry.metadata, id: id as usize, ..new_dir(entry.name) }
}

/// A file as the walk adds it.
pub open spec fn fresh_file(entry: EntryView) -> FileView {
    FileView {
        name: entry.name,
        entry: empty_ref(),
        additional_extents: Seq::empty(),
        kind: entry.kind,
        metadata: entry.metadata,
    }
}

/// What an event does: a directory is added and opened, a file is added, the open
/// directory is closed.
pub open spec fn walk_step(s: WalkState, event: Event) -> WalkState {
    let dir = dir_at(s.root, s.path);
    match event {
        Event::Enter(entry) => WalkState {
            root: with_dir_at(
                s.root,
                s.path,
                DirView { dirs: dir.dirs.push(fresh_dir(entry, s.next_id)), ..dir },
            ),
            path: s.path.push(dir.dirs.len() as usize),
            next_id: s.next_id + 1,
        },
        Event::Exit(_) => WalkState { path: s.path.drop_last(), ..s },
        Event::File(entry) => WalkState {
            root: with_dir_at(
                s.root,
                s.path,
                DirView { files: dir.files.push(fresh_file(entry)), ..dir },
            ),
            ..s
        },
    }
}

/// What events do, in order.
pub open spec fn walk_steps(s: WalkState, events: Seq<Event>) -> WalkState
    decreases events.len(),
{
    if events.len() == 0 {
        s
    } else {
        walk_step(walk_steps(s, events.drop_last()), events.last())
    }
}

/// The first `n` events never close more directories than they opened.
pub open spec fn never_underflows(events: Seq<Event>) -> bool {
    forall|k: int| 0 <= k <= events.len() ==> open_directories(#[trigger] events.take(k)) >= 0
}

proof fn walk_step_keeps_path(s: WalkState, event: Event)
    requires
        valid_path(s.root, s.path),
        event is Exit ==> s.path.len() > 0,
        event is Enter ==> dir_at(s.root, s.path).dirs.len() <= usize::MAX,
    ensures
        valid_path(walk_step(s, event).root, walk_step(s, event).path),
{
    let dir = dir_at(s.root, s.path);
    let t = walk_step(s, event);
    match event {
        Event::Enter(entry) => {
            let grown = DirView { dirs: dir.dirs.push(fresh_dir(entry, s.next_id)), ..dir };
            replaced_dir_is_found(s.root, s.path, grown, grown);
            path_goes_down(t.root, s.path, dir.dirs.len() as usize);
        },
        Event::Exit(_) => {
            path_goes_up(s.root, s.path);
        },
        Event::File(entry) => {
            let grown = DirView { files: dir.files.push(fresh_file(entry)), ..dir };
            replaced_dir_is_found(s.root, s.path, grown, grown);
        },
    }
}

impl<'a> FileTreeWalker<'a> {
    /// Builds the tree that the remaining events describe, below what is already there.
    /// Directories are numbered from 1 in the order in which they are entered.
    pub fn walk(self, written_files: &mut WrittenFiles)
        requires
            never_underflows(self.pending()),
            self.pending().len() < usize::MAX,
        ensures
            final(written_files)@ == walk_steps(
                WalkState { root: old(written_files)@, path: Seq::empty(), next_id: 1 },
                self.pending(),
            ).root,
    {
        let mut walker: FileTreeWalker<'a> = self;
        let mut next_directory_id: usize = 1;
        let mut current_dir: DirectoryId = written_files.root_dir();
        let ghost all = self.pending();
        let ghost start = WalkState { root: written_files@, path: Seq::empty(), next_id: 1 };
        let ghost mut k: int = 0;
        let mut done: bool = false;
        proof {
            assert(all.skip(0) =~= all);
            assert(all.take(0) =~= Seq::empty());
        }
        while !done
            invariant
                0 <= k <= all.len(),
                all.len() < usize::MAX,
                never_underflows(all),
                walker.pending() == all.skip(k),
                1 <= next_directory_id <= k + 1,
                walk_steps(start, all.take(k)) == (WalkState {
                    root: written_files@,
                    path: current_dir@,
                    next_id: next_directory_id as int,
                }),
                current_dir@.len() == open_directories(all.take(k)),
                valid_path(written_files@, current_dir@),
                done ==> k == all.len(),
            decreases all.len() - k + (if done {
                0int
            } else {
                1int
            }),
        {
            let ghost s = walk_steps(start, all.take(k));
            let ghost event = all[k];
            let item: Option<TreeWalkerItem<'a>> = walker.next();
            proof {
                if k < all.len() {
                    assert(all.take(k + 1).drop_last() =~= all.take(k));
                    assert(all.skip(k).drop_first() =~= all.skip(k + 1));
                    assert(open_directories(all.take(k + 1)) >= 0);
                }
            }
            match item {
                None => {
                    assert(k == all.len());
                    done = true;
                },
                Some(TreeWalkerItem::EnterDirectory(dir)) => {
                    let name: Arc<String> = dir.name();
                    let metadata: InputMetadata = dir.metadata;
                    let written_dir: &mut WrittenDirectory = written_files.get_mut(&current_dir);
                    let index: usize = written_dir.push_numbered_dir(
                        name,
                        metadata,
                        next_directory_id,
                    );
                    next_directory_id += 1;
                    proof {
                        walk_step_keeps_path(s, event);
                    }
                    current_dir.push(index);
                    proof {
                        k = k + 1;
                    }
                },
                Some(TreeWalkerItem::ExitDirectory(_)) => {
                    proof {
                        walk_step_keeps_path(s, event);
                    }
                    let _index: usize = current_dir.pop();
                    proof {
                        k = k + 1;
                    }
                },
                Some(TreeWalkerItem::File(file)) => {
                    let new_file: WrittenFile = WrittenFile::new(
                        share(&file.name),
                        file.kind.duplicate(),
                        file.metadata,
                    );
                    let dir: &mut WrittenDirectory = written_files.get_mut(&current_dir);
                    dir.push_file(new_file);
                    proof {
                        walk_step_keeps_path(s, event);
                        k = k + 1;
                    }
                },
            }
        }
        assert(all.take(k) =~= all);
    }
}

/// The directory with the entries of an input directory added, its directories numbered
/// from `id` on: each directory before its children, each child before the next.
pub open spec fn with_entries(dir: DirView, entries: Seq<EntryView>, id: int) -> DirView
    decreases entries,
{
    if entries.len() == 0 {
        dir
    } else {
        let before = with_entries(dir, entries.drop_last(), id);
        let next = id + directory_count(entries.drop_last());
        let last = entries.last();
        match last.kind {
            KindView::Directory(children) => DirView {
                dirs: before.dirs.push(with_entries(fresh_dir(last, next), children, next + 1)),
                ..before
            },
            _ => DirView { files: before.files.push(fresh_file(last)), ..before },
        }
    }
}

/// How many directories the entries hold, at any depth.
pub open spec fn directory_count(entries: Seq<EntryView>) -> int
    decreases entries,
{
    if entries.len() == 0 {
        0
    } else {
        directory_count(entries.drop_last()) + match entries.last().kind {
            KindView::Directory(children) => 1 + directory_count(children),
            _ => 0,
        }
    }
}

proof fn walk_steps_concat(s: WalkState, a: Seq<Event>, b: Seq<Event>)
    ensures
        walk_steps(s, a + b) == walk_steps(walk_steps(s, a), b),
    decreases b.len(),
{
    if b.len() == 0 {
        assert(a + b =~= a);
    } else {
        assert((a + b).drop_last() =~= a + b.drop_last());
        walk_steps_concat(s, a, b.drop_last());
    }
}

proof fn walk_one_step(s: WalkState, event: Event)
    ensures
        walk_steps(s, seq![event]) == walk_step(s, event),
{
    assert(seq![event].drop_last() =~= Seq::empty());
    assert(walk_steps(s, seq![event].drop_last()) == s);
}

/// The events of a walk over `entries` add exactly these entries to the open directory,
/// and leave it open.
pub proof fn walk_builds_the_input(s: WalkState, entries: Seq<EntryView>)
    requires
        valid_path(s.root, s.path),
        dir_at(s.root, s.path).dirs.len() + list_events(entries).len() < usize::MAX,
    ensures
        walk_steps(s, list_events(entries)) == (WalkState {
            root: with_dir_at(
                s.root,
                s.path,
                with_entries(dir_at(s.root, s.path), entries, s.next_id),
            ),
            path: s.path,
            next_id: s.next_id + directory_count(entries),
        }),
        with_entries(dir_at(s.root, s.path), entries, s.next_id).dirs.len() <= dir_at(
            s.root,
            s.path,
        ).dirs.len() + list_events(entries).len(),
    decreases entries,
{
    let dir = dir_at(s.root, s.path);
    if entries.len() == 0 {
        replaced_dir_is_found(s.root, s.path, dir, dir);
    } else {
        let init = entries.drop_last();
        let last = entries.last();
        let a = list_events(init);
        let b = entry_events(last);
        walk_builds_the_input(s, init);
        walk_steps_concat(s, a, b);
        let s1 = walk_steps(s, a);
        let d1 = with_entries(dir, init, s.next_id);
        replaced_dir_is_found(s.root, s.path, d1, d1);
        match last.kind {
            KindView::Directory(children) => {
                let enter = seq![Event::Enter(last)];
                let inner = list_events(children);
                let exit = seq![Event::Exit(last)];
                walk_steps_concat(s1, enter + inner, exit);
                walk_steps_concat(s1, enter, inner);
                walk_one_step(s1, Event::Enter(last));
                let s2 = walk_step(s1, Event::Enter(last));
                let child = fresh_dir(last, s1.next_id);
                let d2 = DirView { dirs: d1.dirs.push(child), ..d1 };
                replaced_dir_is_found(s1.root, s.path, d2, d2);
                assert(d1.dirs.len() <= dir.dirs.len() + a.len());
                let i = d1.dirs.len() as usize;
                path_goes_down(s2.root, s.path, i);
                assert(dir_at(s2.root, s2.path) == child);
                walk_builds_the_input(s2, children);
                let full = with_entries(child, children, s2.next_id);
                let s3 = walk_steps(s2, inner);
                assert(s3.root == with_dir_at(s2.root, s.path.push(i), full));
                let d3 = DirView { dirs: d2.dirs.update(i as int, full), ..d2 };
                assert(d3.dirs =~= d1.dirs.push(full));
                replaced_dir_is_found(s1.root, s.path, d2, d3);
                replaced_dir_is_found(s.root, s.path, d1, d3);
                walk_one_step(s3, Event::Exit(last));
                assert(s3.path.drop_last() =~= s.path);
            },
            _ => {
                walk_one_step(s1, Event::File(last));
                let d2 = DirView { files: d1.files.push(fresh_file(last)), ..d1 };
                replaced_dir_is_found(s.root, s.path, d1, d2);
            },
        }
    }
}

/// Index of the first directory with the given name, or the length.
pub open spec fn find_dir(dirs: Seq<DirView>, name: Seq<u8>) -> int
    decreases dirs.len(),
{
    if dirs.len() == 0 || encode_utf8(dirs[0].name) == name {
        0
    } else {
        1 + find_dir(dirs.drop_first(), name)
    }
}

/// Index of the first file with the given name, or the length.
pub open spec fn find_name(files: Seq<FileView>, name: Seq<u8>) -> int
    decreases files.len(),
{
    if files.len() == 0 || encode_utf8(files[0].name) == name {
        0
    } else {
        1 + find_name(files.drop_first(), name)
    }
}

/// The first extent of the file that the path components lead to: each but the last
/// names a directory, the last a file. No way leads through `..`.
pub open spec fn find_parts(dir: DirView, parts: Seq<Seq<u8>>) -> Option<DirectoryRef>
    decreases parts.len(),
{
    if parts.len() == 0 || parts[0] == seq![0x2Eu8, 0x2Eu8] {
        None
    } else if parts.len() == 1 {
        let i = find_name(dir.files, parts[0]);
        if i < dir.files.len() {
            Some(dir.files[i].entry)
        } else {
            None
        }
    } else {
        let i = find_dir(dir.dirs, parts[0]);
        if i < dir.dirs.len() {
            find_parts(dir.dirs[i], parts.drop_first())
        } else {
            None
        }
    }
}

/// The components without those that stand for the directory itself.
pub open spec fn without_current(parts: Seq<Seq<u8>>) -> Seq<Seq<u8>>
    decreases parts.len(),
{
    if parts.len() == 0 {
        Seq::empty()
    } else if parts.last() == seq![0x2Eu8] {
        without_current(parts.drop_last())
    } else {
        without_current(parts.drop_last()).push(parts.last())
    }
}

/// The components of a path with slashes or backslashes, without those that stand for
/// the directory itself.
pub open spec fn lookup_parts(path: Seq<char>) -> Seq<Seq<u8>> {
    without_current(path_parts(encode_utf8(path), true))
}

fn lookup_components(path: &str) -> (r: Vec<Vec<u8>>)
    ensures
        Seq::new(r@.len(), |i: int| r@[i]@) == lookup_parts(path@),
{
    let parts: Vec<Vec<u8>> = path_components(path.as_bytes(), true);
    let ghost all = Seq::new(parts@.len(), |i: int| parts@[i]@);
    let mut r: Vec<Vec<u8>> = Vec::new();
    let mut i: usize = 0;
    assert(Seq::new(r@.len(), |i: int| r@[i]@) =~= without_current(all.take(0)));
    while i < parts.len()
        invariant
            i <= parts@.len(),
            all == Seq::new(parts@.len(), |i: int| parts@[i]@),
            Seq::new(r@.len(), |i: int| r@[i]@) == without_current(all.take(i as int)),
        decreases parts.len() - i,
    {
        let ghost before = Seq::new(r@.len(), |i: int| r@[i]@);
        assert(all.take(i + 1).drop_last() =~= all.take(i as int));
        if parts[i].len() == 1 && parts[i][0] == 0x2E {
            assert(all[i as int] =~= seq![0x2Eu8]);
        } else {
            assert(all[i as int] != seq![0x2Eu8]);
            let part: Vec<u8> = crate::bytes::copy_range(
                parts[i].as_slice(),
                0,
                parts[i].len(),
            );
            assert(part@ =~= all[i as int]);
            r.push(part);
            assert(Seq::new(r@.len(), |i: int| r@[i]@) =~= before.push(all[i as int]));
        }
        i += 1;
    }
    assert(all.take(i as int) =~= all);
    r
}

impl WrittenFiles {
    /// The root directory.
    pub open spec fn view(&self) -> DirView {
        self.root.view()
    }

    /// A tree with an empty root.
    pub fn new() -> (r: Self)
        ensures
            r@ == new_dir(Seq::empty()),
    {
        WrittenFiles { root: WrittenDirectory::new(Arc::new(String::new())) }
    }

    /// The first extent of the file that a path leads to.
    pub fn find_file(&self, name: &str, _sep: PathSeparator) -> (r: Option<DirectoryRef>)
        ensures
            r == find_parts(self@, lookup_parts(name@)),
    {
        let parts: Vec<Vec<u8>> = lookup_components(name);
        let ghost all = lookup_parts(name@);
        let mut dir: &WrittenDirectory = &self.root;
        let mut p: usize = 0;
        assert(all.skip(0) =~= all);
        while p < parts.len()
            invariant
                p <= parts@.len(),
                all == lookup_parts(name@),
                all == Seq::new(parts@.len(), |i: int| parts@[i]@),
                find_parts(self@, all) == find_parts(dir.view(), all.skip(p as int)),
            decreases parts.len() - p,
        {
            let ghost rest = all.skip(p as int);
            assert(rest[0] == parts@[p as int]@);
            if parts[p].len() == 2 && parts[p][0] == 0x2E && parts[p][1] == 0x2E {
                assert(rest[0] =~= seq![0x2Eu8, 0x2Eu8]);
                return None;
            }
            assert(rest[0] != seq![0x2Eu8, 0x2Eu8]);
            if p + 1 == parts.len() {
                let i: usize = dir.index_of_file(parts[p].as_slice());
                if i < dir.files.len() {
                    assert(dir.view().files[i as int].entry == dir.files@[i as int].entry);
                    return Some(dir.files[i].entry);
                }
                return None;
            }
            let i: usize = dir.index_of_dir(parts[p].as_slice());
            if i < dir.dirs.len() {
                assert(rest.drop_first() =~= all.skip(p + 1));
                dir = &dir.dirs[i];
                p += 1;
            } else {
                return None;
            }
        }
        None
    }

    /// The way to the root.
    pub fn root_dir(&self) -> (r: DirectoryId)
        ensures
            r@ == Seq::<usize>::empty(),
    {
        DirectoryId::new()
    }

    /// The extents of the root.
    pub fn root_refs(&self) -> (r: &RefMap<EntryType>)
        ensures
            r@ == self@.entries,
    {
        &self.root.entries
    }

    /// The directory that a way leads to.
    pub fn get(&self, id: &DirectoryId) -> (r: &WrittenDirectory)
        requires
            valid_path(self@, id@),
        ensures
            r.view() == dir_at(self@, id@),
    {
        let mut dir: &WrittenDirectory = &self.root;
        let mut i: usize = 0;
        assert(id@.skip(0) =~= id@);
        while i < id.indices.len()
            invariant
                i <= id.indices@.len(),
                valid_path(dir.view(), id@.skip(i as int)),
                dir_at(dir.view(), id@.skip(i as int)) == dir_at(self@, id@),
            decreases id.indices.len() - i,
        {
            assert(id@.skip(i as int).drop_first() =~= id@.skip(i + 1));
            let index: usize = id.indices[i];
            dir = &dir.dirs[index];
            i += 1;
        }
        dir
    }

    /// The directory that a way leads to, for change.
    pub fn get_mut(&mut self, id: &DirectoryId) -> (r: &mut WrittenDirectory)
        requires
            valid_path(old(self)@, id@),
        ensures
            r.view() == dir_at(old(self)@, id@),
            final(self)@ == with_dir_at(old(self)@, id@, final(r).view()),
    {
        assert(id@.skip(0) =~= id@);
        descend(&mut self.root, &id.indices, 0)
    }
}

impl Default for WrittenFiles {
    fn default() -> (r: Self)
        ensures
            r@ == new_dir(Seq::empty()),
    {
        Self::new()
    }
}

proof fn child_replaced(d: WrittenDirectory, i: int)
    requires
        0 <= i < d.dirs@.len(),
    ensures
        forall|new: WrittenDirectory, child: WrittenDirectory|
            #![trigger new.view(), child.view()]
            new == (WrittenDirectory { dirs: new.dirs, ..d }) && new.dirs@ == d.dirs@.update(
                i,
                child,
            ) ==> new.view() == (DirView {
                dirs: d.view().dirs.update(i, child.view()),
                ..d.view()
            }),
{
    assert forall|new: WrittenDirectory, child: WrittenDirectory|
        #![trigger new.view(), child.view()]
        new == (WrittenDirectory { dirs: new.dirs, ..d }) && new.dirs@ == d.dirs@.update(
            i,
            child,
        ) implies new.view() == (DirView {
        dirs: d.view().dirs.update(i, child.view()),
        ..d.view()
    }) by {
        assert(new.view().dirs =~= d.view().dirs.update(i, child.view()));
    }
}

fn descend<'a>(dir: &'a mut WrittenDirectory, path: &Vec<usize>, pos: usize) -> (r:
    &'a mut WrittenDirectory)
    requires
        pos <= path@.len(),
        valid_path(old(dir).view(), path@.skip(pos as int)),
    ensures
        r.view() == dir_at(old(dir).view(), path@.skip(pos as int)),
        final(dir).view() == with_dir_at(
            old(dir).view(),
            path@.skip(pos as int),
            final(r).view(),
        ),
    decreases path@.len() - pos,
{
    if pos == path.len() {
        dir
    } else {
        assert(path@.skip(pos as int).drop_first() =~= path@.skip(pos + 1));
        let i: usize = path[pos];
        proof {
            child_replaced(*dir, i as int);
        }
        descend(&mut dir.dirs[i], path, pos + 1)
    }
}

impl WrittenDirectory {
    fn index_of_file(&self, name: &[u8]) -> (r: usize)
        ensures
            r == find_name(self.view().files, name@),
            r <= self.files@.len(),
    {
        let ghost all = self.view().files;
        let mut i: usize = 0;
        assert(all.skip(0) =~= all);
        while i < self.files.len()
            invariant
                i <= self.files@.len(),
                all == self.view().files,
                find_name(all, name@) == i + find_name(all.skip(i as int), name@),
            decreases self.files.len() - i,
        {
            assert(all.skip(i as int)[0] == self.files@[i as int].view());
            if bytes_equal(self.files[i].name.as_str().as_bytes(), name) {
                return i;
            }
            assert(all.skip(i as int).drop_first() =~= all.skip(i + 1));
            i += 1;
        }
        i
    }

    fn index_of_dir(&self, name: &[u8]) -> (r: usize)
        ensures
            r == find_dir(self.view().dirs, name@),
            r <= self.dirs@.len(),
    {
        let ghost all = self.view().dirs;
        let mut i: usize = 0;
        assert(all.skip(0) =~= all);
        while i < self.dirs.len()
            invariant
                i <= self.dirs@.len(),
                all == self.view().dirs,
                find_dir(all, name@) == i + find_dir(all.skip(i as int), name@),
            decreases self.dirs.len() - i,
        {
            assert(all.skip(i as int)[0] == self.dirs@[i as int].view());
            if bytes_equal(self.dirs[i].name.as_str().as_bytes(), name) {
                return i;
            }
            assert(all.skip(i as int).drop_first() =~= all.skip(i + 1));
            i += 1;
        }
        i
    }
}

} // verus!
