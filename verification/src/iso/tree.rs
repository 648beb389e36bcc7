//! The input of image creation: a tree of files, directories, links and devices, and
//! the depth-first walk over it.

use std::sync::Arc;

use crate::iso::error::IsoCreationError;
use crate::iso::types::{PathSeparator, RripOptions};
use crate::text::share;
use vstd::prelude::*;
use vstd::std_specs::convert::FromSpecImpl;
#[allow(unused_imports)]
use vstd::utf8::encode_utf8;

verus! {

/// An input tree without metadata.
#[derive(Debug)]
pub struct InputFiles {
    /// Separator used by paths in the writer's options.
    pub path_separator: PathSeparator,
    /// Entries of the root directory.
    pub files: Vec<File>,
}

/// A file or directory of an [`InputFiles`] tree.
#[derive(Debug, PartialEq, Eq)]
pub enum File {
    /// A file.
    File {
        /// Name.
        name: Arc<String>,
        /// Contents.
        contents: Vec<u8>,
    },
    /// A directory.
    Directory {
        /// Name.
        name: Arc<String>,
        /// Entries.
        children: Vec<File>,
    },
}

/// An input tree with metadata.
#[derive(Debug, PartialEq, Eq)]
pub struct InputTree {
    /// Separator used by paths in the writer's options.
    pub path_separator: PathSeparator,
    /// Entries of the root directory.
    pub entries: Vec<InputEntry>,
}

/// POSIX metadata of an entry, as far as it is known.
#[derive(Debug, Clone, Copy, PartialEq, Eq)]
pub struct InputMetadata {
    /// Permissions.
    pub mode: Option<u32>,
    /// Owner.
    pub uid: Option<u32>,
    /// Group.
    pub gid: Option<u32>,
    /// Creation time in seconds since the start of 1970.
    pub created: Option<i64>,
    /// Modification time in seconds since the start of 1970.
    pub modified: Option<i64>,
    /// Access time in seconds since the start of 1970.
    pub accessed: Option<i64>,
}

/// Metadata of which nothing is known.
pub open spec fn no_metadata() -> InputMetadata {
    InputMetadata {
        mode: None,
        uid: None,
        gid: None,
        created: None,
        modified: None,
        accessed: None,
    }
}

impl Default for InputMetadata {
    fn default() -> (r: Self)
        ensures
            r == no_metadata(),
    {
        InputMetadata {
            mode: None,
            uid: None,
            gid: None,
            created: None,
            modified: None,
            accessed: None,
        }
    }
}

/// What an entry is.
#[derive(Debug, PartialEq, Eq)]
pub enum InputEntryKind {
    /// A file with its contents.
    File(Vec<u8>),
    /// A directory with its entries.
    Directory(Vec<InputEntry>),
    /// A symbolic link with its target.
    Symlink(String),
    /// A character device.
    CharacterDevice {
        /// Device class.
        major: u32,
        /// Device within the class.
        minor: u32,
    },
    /// A block device.
    BlockDevice {
        /// Device class.
        major: u32,
        /// Device within the class.
        minor: u32,
    },
}

/// A named entry of an input tree.
#[derive(Debug, PartialEq, Eq)]
pub struct InputEntry {
    /// Name.
    pub name: Arc<String>,
    /// What the entry is.
    pub kind: InputEntryKind,
    /// Metadata.
    pub metadata: InputMetadata,
}

/// The mathematical value of an [`InputEntryKind`].
pub enum KindView {
    /// A file with its contents.
    File(Seq<u8>),
    /// A directory with its entries.
    Directory(Seq<EntryView>),
    /// A symbolic link with its target.
    Symlink(Seq<char>),
    /// A character device.
    CharacterDevice(u32, u32),
    /// A block device.
    BlockDevice(u32, u32),
}

/// The mathematical value of an [`InputEntry`].
pub struct EntryView {
    /// Name.
    pub name: Seq<char>,
    /// What the entry is.
    pub kind: KindView,
    /// Metadata.
    pub metadata: InputMetadata,
}

impl InputEntryKind {
    /// The mathematical value.
    pub open spec fn view(&self) -> KindView
        decreases self,
    {
        match self {
            InputEntryKind::File(contents) => KindView::File(contents@),
            InputEntryKind::Directory(children) => KindView::Directory(
                Seq::new(
                    children@.len(),
                    |i: int|
                        if 0 <= i < children@.len() {
                            children@[i].view()
                        } else {
                            arbitrary()
                        },
                ),
            ),
            InputEntryKind::Symlink(target) => KindView::Symlink(target@),
            InputEntryKind::CharacterDevice { major, minor } => KindView::CharacterDevice(
                *major,
                *minor,
            ),
            InputEntryKind::BlockDevice { major, minor } => KindView::BlockDevice(*major, *minor),
        }
    }
}

impl InputEntry {
    /// The mathematical value.
    pub open spec fn view(&self) -> EntryView
        decreases self,
    {
        EntryView { name: self.name@, kind: self.kind.view(), metadata: self.metadata }
    }
}

/// The values of entries.
pub open spec fn entries_view(entries: Seq<InputEntry>) -> Seq<EntryView> {
    Seq::new(entries.len(), |i: int| entries[i].view())
}

impl File {
    /// The value of the entry that the file or directory becomes.
    pub open spec fn view(&self) -> EntryView
        decreases self,
    {
        match self {
            File::File { name, contents } => EntryView {
                name: name@,
                kind: KindView::File(contents@),
                metadata: no_metadata(),
            },
            File::Directory { name, children } => EntryView {
                name: name@,
                kind: KindView::Directory(
                    Seq::new(
                        children@.len(),
                        |i: int|
                            if 0 <= i < children@.len() {
                                children@[i].view()
                            } else {
                                arbitrary()
                            },
                    ),
                ),
                metadata: no_metadata(),
            },
        }
    }

    /// The name.
    pub fn name(&self) -> (r: Arc<String>)
        ensures
            r@ == self.view().name,
    {
        match self {
            File::File { name, .. } => share(name),
            File::Directory { name, .. } => share(name),
        }
    }
}

/// The values of the entries that files become.
pub open spec fn files_view(files: Seq<File>) -> Seq<EntryView> {
    Seq::new(files.len(), |i: int| files[i].view())
}

/// The length in bytes of an entry's name.
pub open spec fn name_len(name: Seq<char>) -> nat {
    encode_utf8(name).len()
}

/// The length of a path that goes on with another name: with a separator between, but
/// for the first name. It stops at the largest length.
pub open spec fn joined_len(path_len: usize, name_len: usize) -> usize {
    if path_len == 0 {
        name_len
    } else if path_len + 1 + name_len > usize::MAX {
        usize::MAX
    } else {
        (path_len + 1 + name_len) as usize
    }
}

/// The next depth, which stops at the largest number.
pub open spec fn deeper(depth: usize) -> usize {
    if depth == usize::MAX {
        depth
    } else {
        (depth + 1) as usize
    }
}

/// Whether directories beyond the limits are relocated.
pub open spec fn relocates(rrip: Option<RripOptions>) -> bool {
    match rrip {
        Some(options) => options.enabled && options.relocate_deep_dirs,
        None => false,
    }
}

/// Whether symbolic links can be stored.
pub open spec fn keeps_symlinks(rrip: Option<RripOptions>) -> bool {
    match rrip {
        Some(options) => options.enabled && options.preserve_symlinks,
        None => false,
    }
}

/// Whether device nodes can be stored.
pub open spec fn keeps_devices(rrip: Option<RripOptions>) -> bool {
    match rrip {
        Some(options) => options.enabled && options.preserve_devices,
        None => false,
    }
}

/// What is wrong with an entry in a directory at `depth` (the root has depth 1) whose
/// path has `path_len` bytes, if anything: a directory at depth 8 or with a path of more
/// than 255 bytes where nothing is relocated, or a link or device that cannot be stored.
/// The entry itself comes before its children.
pub open spec fn entry_error(
    entry: EntryView,
    rrip: Option<RripOptions>,
    depth: usize,
    path_len: usize,
) -> Option<IsoCreationError>
    decreases entry,
{
    match entry.kind {
        KindView::File(_) => None,
        KindView::Directory(children) => {
            let child_len = joined_len(path_len, name_len(entry.name) as usize);
            if (depth >= 8 || child_len > 255) && !relocates(rrip) {
                Some(IsoCreationError::DirectoryLimits)
            } else {
                first_error(children, rrip, deeper(depth), child_len)
            }
        },
        KindView::Symlink(_) => if keeps_symlinks(rrip) {
            None
        } else {
            Some(IsoCreationError::SymlinkUnsupported)
        },
        _ => if keeps_devices(rrip) {
            None
        } else {
            Some(IsoCreationError::DeviceUnsupported)
        },
    }
}

/// The first thing that is wrong with the entries, in order.
pub open spec fn first_error(
    entries: Seq<EntryView>,
    rrip: Option<RripOptions>,
    depth: usize,
    path_len: usize,
) -> Option<IsoCreationError>
    decreases entries,
{
    if entries.len() == 0 {
        None
    } else {
        match first_error(entries.drop_last(), rrip, depth, path_len) {
            Some(e) => Some(e),
            None => entry_error(entries.last(), rrip, depth, path_len),
        }
    }
}

proof fn first_error_prefix(
    entries: Seq<EntryView>,
    k: int,
    rrip: Option<RripOptions>,
    depth: usize,
    path_len: usize,
)
    requires
        0 <= k <= entries.len(),
        first_error(entries.take(k), rrip, depth, path_len) is Some,
    ensures
        first_error(entries, rrip, depth, path_len) == first_error(
            entries.take(k),
            rrip,
            depth,
            path_len,
        ),
    decreases entries.len(),
{
    if k == entries.len() {
        assert(entries.take(k) =~= entries);
    } else {
        assert(entries.drop_last().take(k) =~= entries.take(k));
        first_error_prefix(entries.drop_last(), k, rrip, depth, path_len);
    }
}

impl InputTree {
    /// The values of the root's entries.
    pub open spec fn view(&self) -> Seq<EntryView> {
        entries_view(self.entries@)
    }

    /// A tree with the given entries in its root.
    pub fn new(path_separator: PathSeparator, entries: Vec<InputEntry>) -> (r: Self)
        ensures
            r.path_separator == path_separator,
            r@ == entries_view(entries@),
    {
        InputTree { path_separator, entries }
    }

    /// Checks the tree against the limits of the format: at most eight levels of
    /// directories and paths of at most 255 bytes unless deep directories are relocated,
    /// and links and devices only where Rock Ridge stores them.
    pub fn validate(&self, rrip: Option<&RripOptions>) -> (r: Result<(), IsoCreationError>)
        ensures
            r == match first_error(
                self@,
                match rrip {
                    Some(o) => Some(*o),
                    None => None,
                },
                1,
                0,
            ) {
                Some(e) => Err::<(), IsoCreationError>(e),
                None => Ok(()),
            },
    {
        let options: Option<RripOptions> = match rrip {
            Some(o) => Some(*o),
            None => None,
        };
        Self::visit(&self.entries, options, 1, 0)
    }

    fn visit(
        entries: &Vec<InputEntry>,
        rrip: Option<RripOptions>,
        depth: usize,
        path_len: usize,
    ) -> (r: Result<(), IsoCreationError>)
        ensures
            r == match first_error(entries_view(entries@), rrip, depth, path_len) {
                Some(e) => Err::<(), IsoCreationError>(e),
                None => Ok(()),
            },
        decreases *entries,
    {
        let ghost all = entries_view(entries@);
        let may_relocate: bool = match rrip {
            Some(o) => o.enabled && o.relocate_deep_dirs,
            None => false,
        };
        let may_link: bool = match rrip {
            Some(o) => o.enabled && o.preserve_symlinks,
            None => false,
        };
        let may_device: bool = match rrip {
            Some(o) => o.enabled && o.preserve_devices,
            None => false,
        };
        let mut i: usize = 0;
        assert(first_error(all.take(0), rrip, depth, path_len) is None);
        while i < entries.len()
            invariant
                i <= entries.len(),
                all == entries_view(entries@),
                may_relocate == relocates(rrip),
                may_link == keeps_symlinks(rrip),
                may_device == keeps_devices(rrip),
                first_error(all.take(i as int), rrip, depth, path_len) is None,
            decreases entries.len() - i,
        {
            let entry: &InputEntry = &entries[i];
            proof {
                assert(all.take(i + 1).drop_last() =~= all.take(i as int));
                assert(all.take(i + 1).last() == entry.view());
                if entry_error(entry.view(), rrip, depth, path_len) is Some {
                    first_error_prefix(all, i + 1, rrip, depth, path_len);
                }
            }
            match &entry.kind {
                InputEntryKind::Directory(children) => {
                    let own_len: usize = entry.name.as_str().len();
                    let child_len: usize = if path_len == 0 {
                        own_len
                    } else {
                        path_len.saturating_add(1).saturating_add(own_len)
                    };
                    assert(child_len == joined_len(path_len, own_len));
                    assert(entry.view().kind == KindView::Directory(entries_view(children@))) by {
                        assert(entry.view().kind->Directory_0 =~= entries_view(children@));
                    }
                    if (depth >= 8 || child_len > 255) && !may_relocate {
                        return Err(IsoCreationError::DirectoryLimits);
                    }
                    match Self::visit(children, rrip, depth.saturating_add(1), child_len) {
                        Ok(_) => {},
                        Err(e) => {
                            return Err(e);
                        },
                    }
                },
                InputEntryKind::Symlink(_) => {
                    if !may_link {
                        return Err(IsoCreationError::SymlinkUnsupported);
                    }
                },
                InputEntryKind::CharacterDevice { .. } => {
                    if !may_device {
                        return Err(IsoCreationError::DeviceUnsupported);
                    }
                },
                InputEntryKind::BlockDevice { .. } => {
                    if !may_device {
                        return Err(IsoCreationError::DeviceUnsupported);
                    }
                },
                InputEntryKind::File(_) => {},
            }
            i += 1;
        }
        assert(all.take(i as int) =~= all);
        Ok(())
    }
}

impl InputEntryKind {
    /// The length of a file, and nothing for anything else.
    pub open spec fn spec_file_len(&self) -> Option<u64> {
        match self {
            InputEntryKind::File(contents) => Some(contents@.len() as u64),
            _ => None,
        }
    }

    /// The length of a file, and nothing for anything else.
    pub fn file_len(&self) -> (r: Option<u64>)
        ensures
            r == self.spec_file_len(),
    {
        match self {
            InputEntryKind::File(contents) => Some(contents.len() as u64),
            _ => None,
        }
    }

    /// A copy.
    pub(crate) fn duplicate(&self) -> (r: Self)
        ensures
            r.view() == self.view(),
        decreases *self,
    {
        match self {
            InputEntryKind::File(contents) => {
                let copy: Vec<u8> = crate::bytes::copy_range(
                    contents.as_slice(),
                    0,
                    contents.len(),
                );
                assert(copy@ =~= contents@);
                InputEntryKind::File(copy)
            },
            InputEntryKind::Directory(children) => {
                let mut copy: Vec<InputEntry> = Vec::new();
                let mut i: usize = 0;
                while i < children.len()
                    invariant
                        i <= children.len(),
                        *self == InputEntryKind::Directory(*children),
                        entries_view(copy@) == entries_view(children@).take(i as int),
                    decreases children.len() - i,
                {
                    let child: &InputEntry = &children[i];
                    assert(decreases_to!(*self => self->Directory_0));
                    assert(self->Directory_0 == *children);
                    assert(decreases_to!(*children => children@[i as int]));
                    let kind: InputEntryKind = child.kind.duplicate();
                    let ghost before = entries_view(copy@);
                    let twin: InputEntry = InputEntry {
                        name: share(&child.name),
                        kind,
                        metadata: child.metadata,
                    };
                    copy.push(twin);
                    i += 1;
                    assert(entries_view(copy@) =~= before.push(twin.view()));
                    assert(entries_view(copy@) =~= entries_view(children@).take(i as int));
                }
                let r: InputEntryKind = InputEntryKind::Directory(copy);
                proof {
                    assert(entries_view(copy@) =~= entries_view(children@));
                    assert(r.view()->Directory_0 =~= entries_view(copy@));
                    assert(self.view()->Directory_0 =~= entries_view(children@));
                }
                r
            },
            InputEntryKind::Symlink(target) => InputEntryKind::Symlink(target.clone()),
            InputEntryKind::CharacterDevice { major, minor } => InputEntryKind::CharacterDevice {
                major: *major,
                minor: *minor,
            },
            InputEntryKind::BlockDevice { major, minor } => InputEntryKind::BlockDevice {
                major: *major,
                minor: *minor,
            },
        }
    }
}

impl Clone for InputEntryKind {
    fn clone(&self) -> (r: Self)
        ensures
            r.view() == self.view(),
    {
        self.duplicate()
    }
}

impl Clone for InputEntry {
    fn clone(&self) -> (r: Self)
        ensures
            r.view() == self.view(),
    {
        InputEntry {
            name: share(&self.name),
            kind: self.kind.duplicate(),
            metadata: self.metadata,
        }
    }
}

impl InputEntry {
    fn new(name: String, kind: InputEntryKind) -> (r: Self)
        ensures
            r.view() == (EntryView { name: name@, kind: kind.view(), metadata: no_metadata() }),
            r.kind == kind,
    {
        InputEntry { name: Arc::new(name), kind, metadata: InputMetadata::default() }
    }

    /// A file.
    pub fn file(name: &str, contents: Vec<u8>) -> (r: Self)
        ensures
            r.view() == (EntryView {
                name: name@,
                kind: KindView::File(contents@),
                metadata: no_metadata(),
            }),
    {
        Self::new(name.to_owned(), InputEntryKind::File(contents))
    }

    /// A directory.
    pub fn directory(name: &str, children: Vec<InputEntry>) -> (r: Self)
        ensures
            r.view() == (EntryView {
                name: name@,
                kind: KindView::Directory(entries_view(children@)),
                metadata: no_metadata(),
            }),
    {
        let r: InputEntry = Self::new(name.to_owned(), InputEntryKind::Directory(children));
        assert(r.view().kind->Directory_0 =~= entries_view(children@));
        r
    }

    /// A symbolic link.
    pub fn symlink(name: &str, target: &str) -> (r: Self)
        ensures
            r.view() == (EntryView {
                name: name@,
                kind: KindView::Symlink(target@),
                metadata: no_metadata(),
            }),
    {
        Self::new(name.to_owned(), InputEntryKind::Symlink(target.to_owned()))
    }

    /// A character device.
    pub fn character_device(name: &str, major: u32, minor: u32) -> (r: Self)
        ensures
            r.view() == (EntryView {
                name: name@,
                kind: KindView::CharacterDevice(major, minor),
                metadata: no_metadata(),
            }),
    {
        Self::new(name.to_owned(), InputEntryKind::CharacterDevice { major, minor })
    }

    /// A block device.
    pub fn block_device(name: &str, major: u32, minor: u32) -> (r: Self)
        ensures
            r.view() == (EntryView {
                name: name@,
                kind: KindView::BlockDevice(major, minor),
                metadata: no_metadata(),
            }),
    {
        Self::new(name.to_owned(), InputEntryKind::BlockDevice { major, minor })
    }

    /// The entry with other metadata.
    pub fn with_metadata(self, metadata: InputMetadata) -> (r: Self)
        ensures
            r.view() == (EntryView { metadata, ..self.view() }),
    {
        InputEntry { name: self.name, kind: self.kind, metadata }
    }

    /// The name.
    pub fn name(&self) -> (r: Arc<String>)
        ensures
            r == self.name,
            r@ == self.view().name,
    {
        share(&self.name)
    }
}

fn convert_files(files: Vec<File>) -> (r: Vec<InputEntry>)
    ensures
        entries_view(r@) == files_view(files@),
    decreases files,
{
    let ghost all = files;
    let mut r: Vec<InputEntry> = Vec::new();
    for file in it: files
        invariant
            it.seq() == all@,
            entries_view(r@) == files_view(all@).take(it.index()),
    {
        let ghost before = entries_view(r@);
        let ghost value = file.view();
        assert(file == all@[it.index()]);
        let entry: InputEntry = match file {
            File::File { name, contents } => InputEntry {
                name,
                kind: InputEntryKind::File(contents),
                metadata: InputMetadata::default(),
            },
            File::Directory { name, children } => {
                let ghost old_children = children@;
                let converted: Vec<InputEntry> = convert_files(children);
                let e: InputEntry = InputEntry {
                    name,
                    kind: InputEntryKind::Directory(converted),
                    metadata: InputMetadata::default(),
                };
                proof {
                    assert(e.view().kind->Directory_0 =~= entries_view(converted@));
                    assert(value.kind->Directory_0 =~= files_view(old_children));
                }
                e
            },
        };
        assert(entry.view() == value);
        r.push(entry);
        assert(entries_view(r@) =~= before.push(value));
        assert(entries_view(r@) =~= files_view(all@).take(it.index() + 1));
    }
    assert(files_view(all@).take(all@.len() as int) =~= files_view(all@));
    r
}

/// The entries that files and directories become, which stay as they are.
fn copy_files(files: &Vec<File>) -> (r: Vec<InputEntry>)
    ensures
        entries_view(r@) == files_view(files@),
    decreases *files,
{
    let ghost all = files_view(files@);
    let mut r: Vec<InputEntry> = Vec::new();
    let mut i: usize = 0;
    while i < files.len()
        invariant
            i <= files@.len(),
            all == files_view(files@),
            entries_view(r@) == all.take(i as int),
        decreases files.len() - i,
    {
        let ghost before = entries_view(r@);
        let ghost value = files@[i as int].view();
        assert(all[i as int] == value);
        let entry: InputEntry = match &files[i] {
            File::File { name, contents } => {
                let copy: Vec<u8> = crate::bytes::copy_range(
                    contents.as_slice(),
                    0,
                    contents.len(),
                );
                assert(copy@ =~= contents@);
                InputEntry {
                    name: share(name),
                    kind: InputEntryKind::File(copy),
                    metadata: InputMetadata::default(),
                }
            },
            File::Directory { name, children } => {
                assert(decreases_to!(*files => files@[i as int]));
                let copied: Vec<InputEntry> = copy_files(children);
                let e: InputEntry = InputEntry {
                    name: share(name),
                    kind: InputEntryKind::Directory(copied),
                    metadata: InputMetadata::default(),
                };
                proof {
                    assert(e.view().kind->Directory_0 =~= entries_view(copied@));
                    assert(value.kind->Directory_0 =~= files_view(children@));
                }
                e
            },
        };
        assert(entry.view() == value);
        r.push(entry);
        i += 1;
        assert(entries_view(r@) =~= before.push(value));
        assert(entries_view(r@) =~= all.take(i as int));
    }
    assert(all.take(i as int) =~= all);
    r
}

impl InputFiles {
    /// The tree that the files become, which stay as they are.
    pub(crate) fn to_tree(&self) -> (r: InputTree)
        ensures
            r@ == files_view(self.files@),
    {
        InputTree::new(self.path_separator, copy_files(&self.files))
    }
}

impl InputTree {
    /// A copy.
    pub(crate) fn duplicate(&self) -> (r: Self)
        ensures
            r@ == self@,
    {
        let mut entries: Vec<InputEntry> = Vec::new();
        let mut i: usize = 0;
        while i < self.entries.len()
            invariant
                i <= self.entries@.len(),
                entries_view(entries@) == self@.take(i as int),
            decreases self.entries.len() - i,
        {
            let ghost before = entries_view(entries@);
            let twin: InputEntry = self.entries[i].clone();
            entries.push(twin);
            i += 1;
            assert(entries_view(entries@) =~= before.push(twin.view()));
            assert(entries_view(entries@) =~= self@.take(i as int));
        }
        assert(self@.take(i as int) =~= self@);
        InputTree::new(self.path_separator, entries)
    }
}

impl From<InputFiles> for InputTree {
    fn from(value: InputFiles) -> (r: Self)
        ensures
            r.path_separator == value.path_separator,
            r@ == files_view(value.files@),
    {
        InputTree::new(value.path_separator, convert_files(value.files))
    }
}

impl FromSpecImpl<InputFiles> for InputTree {
    open spec fn obeys_from_spec() -> bool {
        false
    }

    open spec fn from_spec(value: InputFiles) -> Self {
        arbitrary()
    }
}

/// What a walk reports.
#[derive(Debug, PartialEq, Eq)]
pub enum TreeWalkerItem<'a> {
    /// A directory is entered.
    EnterDirectory(&'a InputEntry),
    /// Anything that is not a directory.
    File(&'a InputEntry),
    /// A directory is left.
    ExitDirectory(&'a InputEntry),
}

/// The mathematical value of a [`TreeWalkerItem`].
pub enum Event {
    /// A directory is entered.
    Enter(EntryView),
    /// Anything that is not a directory.
    File(EntryView),
    /// A directory is left.
    Exit(EntryView),
}

impl<'a> TreeWalkerItem<'a> {
    /// The mathematical value.
    pub open spec fn view(&self) -> Event {
        match self {
            TreeWalkerItem::EnterDirectory(e) => Event::Enter(e.view()),
            TreeWalkerItem::File(e) => Event::File(e.view()),
            TreeWalkerItem::ExitDirectory(e) => Event::Exit(e.view()),
        }
    }
}

/// The events of one entry: a directory is entered, its entries follow, and it is left.
pub open spec fn entry_events(entry: EntryView) -> Seq<Event>
    decreases entry,
{
    match entry.kind {
        KindView::Directory(children) => seq![Event::Enter(entry)] + list_events(children)
            + seq![Event::Exit(entry)],
        _ => seq![Event::File(entry)],
    }
}

/// The events of entries, in order.
pub open spec fn list_events(entries: Seq<EntryView>) -> Seq<Event>
    decreases entries,
{
    if entries.len() == 0 {
        Seq::empty()
    } else {
        list_events(entries.drop_last()) + entry_events(entries.last())
    }
}

/// Events of a list are the events of its two parts, one after the other.
pub proof fn list_events_concat(a: Seq<EntryView>, b: Seq<EntryView>)
    ensures
        list_events(a + b) == list_events(a) + list_events(b),
    decreases b.len(),
{
    if b.len() == 0 {
        assert(a + b =~= a);
        assert(list_events(a) + list_events(b) =~= list_events(a));
    } else {
        assert((a + b).drop_last() =~= a + b.drop_last());
        list_events_concat(a, b.drop_last());
        assert(list_events(a + b) =~= list_events(a) + list_events(b));
    }
}

enum StackFrame<'a> {
    Node(&'a InputEntry),
    DirExit(&'a InputEntry),
}

impl<'a> StackFrame<'a> {
    spec fn events(&self) -> Seq<Event> {
        match self {
            StackFrame::Node(e) => entry_events(e.view()),
            StackFrame::DirExit(e) => seq![Event::Exit(e.view())],
        }
    }
}

spec fn stack_events(stack: Seq<StackFrame>) -> Seq<Event>
    decreases stack.len(),
{
    if stack.len() == 0 {
        Seq::empty()
    } else {
        stack.last().events() + stack_events(stack.drop_last())
    }
}

/// A depth-first walk.
pub struct FileTreeWalker<'a> {
    stack: Vec<StackFrame<'a>>,
}

fn push_nodes<'a>(stack: &mut Vec<StackFrame<'a>>, entries: &'a Vec<InputEntry>)
    ensures
        stack_events(final(stack)@) == list_events(entries_view(entries@)) + stack_events(
            old(stack)@,
        ),
{
    let ghost all = entries_view(entries@);
    let ghost base = stack_events(stack@);
    let mut k: usize = entries.len();
    assert(all.skip(k as int) =~= Seq::empty());
    assert(list_events(all.skip(k as int)) + base =~= base);
    while k > 0
        invariant
            k <= entries.len(),
            all == entries_view(entries@),
            stack_events(stack@) == list_events(all.skip(k as int)) + base,
        decreases k,
    {
        k -= 1;
        let ghost before = stack@;
        stack.push(StackFrame::Node(&entries[k]));
        proof {
            assert(stack@.drop_last() =~= before);
            let one = seq![all[k as int]];
            assert(all.skip(k as int) =~= one + all.skip(k + 1));
            list_events_concat(one, all.skip(k + 1));
            assert(one.drop_last() =~= Seq::empty());
            assert(list_events(one.drop_last()) =~= Seq::empty());
            assert(list_events(one) =~= entry_events(all[k as int]));
            assert(stack_events(stack@) =~= list_events(all.skip(k as int)) + base);
        }
    }
    assert(all.skip(0) =~= all);
}

impl<'a> FileTreeWalker<'a> {
    /// The events that are still to come.
    pub closed spec fn pending(&self) -> Seq<Event> {
        stack_events(self.stack@)
    }

    /// A walk over the whole tree.
    pub fn new(input: &'a InputTree) -> (r: Self)
        ensures
            r.pending() == list_events(input@),
    {
        let mut stack: Vec<StackFrame<'a>> = Vec::new();
        push_nodes(&mut stack, &input.entries);
        let r: FileTreeWalker<'a> = FileTreeWalker { stack };
        assert(r.pending() =~= list_events(input@));
        r
    }

    /// The next event.
    pub fn next(&mut self) -> (r: Option<TreeWalkerItem<'a>>)
        ensures
            r is None <==> old(self).pending().len() == 0,
            r is None ==> final(self).pending() == old(self).pending(),
            r matches Some(item) ==> {
                &&& item.view() == old(self).pending()[0]
                &&& final(self).pending() == old(self).pending().drop_first()
            },
    {
        let ghost before = self.stack@;
        match self.stack.pop() {
            None => None,
            Some(frame) => {
                let ghost rest = stack_events(before.drop_last());
                match frame {
                    StackFrame::Node(entry) => match &entry.kind {
                        InputEntryKind::Directory(children) => {
                            assert(entry.view().kind->Directory_0 =~= entries_view(children@));
                            let ghost popped = self.stack@;
                            self.stack.push(StackFrame::DirExit(entry));
                            assert(self.stack@.drop_last() =~= popped);
                            push_nodes(&mut self.stack, children);
                            assert(self.pending() =~= old(self).pending().drop_first());
                            Some(TreeWalkerItem::EnterDirectory(entry))
                        },
                        _ => {
                            assert(self.pending() =~= old(self).pending().drop_first());
                            Some(TreeWalkerItem::File(entry))
                        },
                    },
                    StackFrame::DirExit(dir) => {
                        assert(self.pending() =~= old(self).pending().drop_first());
                        Some(TreeWalkerItem::ExitDirectory(dir))
                    },
                }
            },
        }
    }

    /// All events that are still to come.
    pub fn collect(self) -> (r: Vec<TreeWalkerItem<'a>>)
        ensures
            Seq::new(r@.len(), |i: int| r@[i].view()) == self.pending(),
    {
        let mut walker: FileTreeWalker<'a> = self;
        let mut r: Vec<TreeWalkerItem<'a>> = Vec::new();
        let ghost all = self.pending();
        let mut done: bool = false;
        assert(Seq::new(r@.len(), |i: int| r@[i].view()) + walker.pending() =~= all);
        while !done
            invariant
                Seq::new(r@.len(), |i: int| r@[i].view()) + walker.pending() == all,
                done ==> walker.pending().len() == 0,
            decreases walker.pending().len() + (if done {
                0int
            } else {
                1int
            }),
        {
            let ghost was = walker.pending();
            let ghost got = Seq::new(r@.len(), |i: int| r@[i].view());
            match walker.next() {
                Some(item) => {
                    r.push(item);
                    assert(Seq::new(r@.len(), |i: int| r@[i].view()) =~= got.push(was[0]));
                    assert(got.push(was[0]) + was.drop_first() =~= got + was);
                },
                None => {
                    done = true;
                },
            }
        }
        assert(Seq::new(r@.len(), |i: int| r@[i].view()) =~= all);
        r
    }
}

/// How many directories were entered and not left.
pub open spec fn open_directories(events: Seq<Event>) -> int
    decreases events.len(),
{
    if events.len() == 0 {
        0
    } else {
        open_directories(events.drop_last()) + match events.last() {
            Event::Enter(_) => 1int,
            Event::Exit(_) => -1int,
            Event::File(_) => 0int,
        }
    }
}

proof fn open_directories_concat(a: Seq<Event>, b: Seq<Event>)
    ensures
        open_directories(a + b) == open_directories(a) + open_directories(b),
    decreases b.len(),
{
    if b.len() == 0 {
        assert(a + b =~= a);
    } else {
        assert((a + b).drop_last() =~= a + b.drop_last());
        open_directories_concat(a, b.drop_last());
    }
}

proof fn entry_events_balance(entry: EntryView)
    ensures
        open_directories(entry_events(entry)) == 0,
        forall|k: int|
            0 <= k <= entry_events(entry).len() ==> open_directories(
                #[trigger] entry_events(entry).take(k),
            ) >= 0,
    decreases entry,
{
    reveal_with_fuel(open_directories, 2);
    match entry.kind {
        KindView::Directory(children) => {
            walk_is_balanced(children);
            let a = seq![Event::Enter(entry)];
            let b = list_events(children);
            let c = seq![Event::Exit(entry)];
            assert(a.drop_last() =~= Seq::empty());
            assert(c.drop_last() =~= Seq::empty());
            open_directories_concat(a, b);
            open_directories_concat(a + b, c);
            let all = entry_events(entry);
            assert(all == a + b + c);
            assert forall|k: int| 0 <= k <= all.len() implies open_directories(
                #[trigger] all.take(k),
            ) >= 0 by {
                if k == 0 {
                    assert(all.take(k) =~= Seq::empty());
                } else if k < all.len() {
                    assert(all.take(k) =~= a + b.take(k - 1));
                    open_directories_concat(a, b.take(k - 1));
                } else {
                    assert(all.take(k) =~= all);
                }
            }
        },
        _ => {
            let all = entry_events(entry);
            assert(all.drop_last() =~= Seq::empty());
            assert forall|k: int| 0 <= k <= all.len() implies open_directories(
                #[trigger] all.take(k),
            ) >= 0 by {
                if k == 0 {
                    assert(all.take(k) =~= Seq::empty());
                } else {
                    assert(all.take(k) =~= all);
                }
            }
        },
    }
}

/// A walk leaves every directory that it enters, and leaves none that it has not entered.
pub proof fn walk_is_balanced(entries: Seq<EntryView>)
    ensures
        open_directories(list_events(entries)) == 0,
        forall|k: int|
            0 <= k <= list_events(entries).len() ==> open_directories(
                #[trigger] list_events(entries).take(k),
            ) >= 0,
    decreases entries,
{
    if entries.len() > 0 {
        let a = list_events(entries.drop_last());
        let b = entry_events(entries.last());
        walk_is_balanced(entries.drop_last());
        entry_events_balance(entries.last());
        open_directories_concat(a, b);
        let all = list_events(entries);
        assert(all == a + b);
        assert forall|k: int| 0 <= k <= all.len() implies open_directories(#[trigger] all.take(k))
            >= 0 by {
            if k <= a.len() {
                assert(all.take(k) =~= a.take(k));
            } else {
                assert(all.take(k) =~= a + b.take(k - a.len()));
                open_directories_concat(a, b.take(k - a.len()));
            }
        }
    } else {
        assert forall|k: int|
            0 <= k <= list_events(entries).len() implies open_directories(
            #[trigger] list_events(entries).take(k),
        ) >= 0 by {
            assert(list_events(entries).take(k) =~= Seq::empty());
        }
    }
}

/// What is left of `budget` after one for each event of a walk, or nothing where the walk
/// has more events.
pub fn events_within(entries: &Vec<InputEntry>, budget: usize) -> (r: Option<usize>)
    ensures
        ({
            let n = list_events(entries_view(entries@)).len();
            if n <= budget {
                r == Some((budget - n) as usize)
            } else {
                r is None
            }
        }),
    decreases *entries,
{
    let ghost all = entries_view(entries@);
    let mut left: usize = budget;
    let mut i: usize = 0;
    assert(all.take(0) =~= Seq::empty());
    while i < entries.len()
        invariant
            i <= entries@.len(),
            all == entries_view(entries@),
            left <= budget,
            list_events(all.take(i as int)).len() == budget - left,
        decreases entries.len() - i,
    {
        let entry: &InputEntry = &entries[i];
        proof {
            assert(all[i as int] == entry.view());
            assert(all.take(i + 1).drop_last() =~= all.take(i as int));
            assert(all.take(i + 1).last() == all[i as int]);
            list_events_grow(all, i + 1);
            assert(decreases_to!(*entries => entries@[i as int]));
        }
        match &entry.kind {
            InputEntryKind::Directory(children) => {
                assert(entry.view().kind->Directory_0 =~= entries_view(children@));
                assert(entry_events(all[i as int]).len() == 2 + list_events(
                    entries_view(children@),
                ).len());
                if left < 2 {
                    return None;
                }
                match events_within(children, left - 2) {
                    Some(rest) => {
                        left = rest;
                    },
                    None => {
                        return None;
                    },
                }
            },
            _ => {
                assert(!(entry.view().kind is Directory));
                assert(entry_events(all[i as int]).len() == 1);
                if left < 1 {
                    return None;
                }
                left = left - 1;
            },
        }
        i += 1;
    }
    assert(all.take(i as int) =~= all);
    Some(left)
}

proof fn list_events_grow(entries: Seq<EntryView>, k: int)
    requires
        0 <= k <= entries.len(),
    ensures
        list_events(entries.take(k)).len() <= list_events(entries).len(),
    decreases entries.len(),
{
    if k == entries.len() {
        assert(entries.take(k) =~= entries);
    } else {
        list_events_grow(entries.drop_last(), k);
        assert(entries.drop_last().take(k) =~= entries.take(k));
    }
}

} // verus!
