//! Small types shared by the ISO 9660 modules.

use vstd::prelude::*;
use vstd::std_specs::convert::FromSpecImpl;

verus! {

/// The number of a logical sector.
#[derive(Debug, Clone, Copy, PartialEq, Eq, Structural)]
pub struct LogicalSector(pub usize);

/// Location and size of a file or directory.
#[derive(Debug, Clone, Copy, PartialEq, Eq, Structural)]
pub struct DirectoryRef {
    /// First sector.
    pub extent: LogicalSector,
    /// Size in bytes.
    pub size: usize,
}

impl DirectoryRef {
    /// A reference to `size` bytes from sector `extent` on.
    pub fn new(extent: usize, size: usize) -> (r: Self)
        ensures
            r.extent.0 == extent,
            r.size == size,
    {
        DirectoryRef { extent: LogicalSector(extent), size }
    }
}

/// The reference that stands for no data.
pub open spec fn empty_ref() -> DirectoryRef {
    DirectoryRef { extent: LogicalSector(0), size: 0 }
}

impl Default for DirectoryRef {
    fn default() -> (r: Self)
        ensures
            r == empty_ref(),
    {
        DirectoryRef { extent: LogicalSector(0), size: 0 }
    }
}

/// File flags of a directory record.
#[derive(Debug, Clone, Copy, PartialEq, Eq, Structural)]
pub struct FileFlags {
    /// The flags byte.
    pub bits: u8,
}

impl FileFlags {
    /// No flag.
    pub fn empty() -> (r: Self)
        ensures
            r.bits == 0,
    {
        FileFlags { bits: 0 }
    }

    /// The record describes a directory.
    pub fn directory() -> (r: Self)
        ensures
            r.bits == 0x02,
    {
        FileFlags { bits: 0x02 }
    }

    /// More records of the same file follow.
    pub fn not_final() -> (r: Self)
        ensures
            r.bits == 0x80,
    {
        FileFlags { bits: 0x80 }
    }

    /// Whether every flag of `other` is set in `self`.
    pub open spec fn has(self, other: FileFlags) -> bool {
        self.bits & other.bits == other.bits
    }

    /// Whether every flag of `other` is set.
    pub fn contains(self, other: FileFlags) -> (r: bool)
        ensures
            r == self.has(other),
    {
        self.bits & other.bits == other.bits
    }

    /// The flags byte.
    pub fn bits(self) -> (r: u8)
        ensures
            r == self.bits,
    {
        self.bits
    }
}

/// Whether more records of the same file follow the one with these flags.
pub open spec fn continues(flags: FileFlags) -> bool {
    flags.has(FileFlags { bits: 0x80 })
}

/// The separator used by paths in the writer's options.
#[derive(Debug, Clone, Copy, PartialEq, Eq, Structural)]
pub enum PathSeparator {
    /// `/`
    ForwardSlash,
    /// `\`
    Backslash,
}

/// Joliet level.
#[derive(Debug, Clone, Copy, PartialEq, Eq, Structural)]
pub enum JolietLevel {
    /// UCS-2 level 1.
    Level1,
    /// UCS-2 level 2.
    Level2,
    /// UCS-2 level 3.
    Level3,
}

impl JolietLevel {
    /// The third byte of the level's escape sequence, which is `%/` and this byte.
    pub open spec fn escape_byte(self) -> u8 {
        match self {
            JolietLevel::Level1 => 0x40,
            JolietLevel::Level2 => 0x43,
            JolietLevel::Level3 => 0x45,
        }
    }

    /// The level's escape sequence, followed by zeros.
    pub open spec fn escape_seq(self) -> Seq<u8> {
        seq![0x25u8, 0x2Fu8, self.escape_byte()] + Seq::new(29, |i: int| 0u8)
    }

    /// The 32-byte escape sequence field that announces the level.
    pub fn escape_sequence(self) -> (r: Vec<u8>)
        ensures
            r@ == self.escape_seq(),
    {
        let last: u8 = match self {
            JolietLevel::Level1 => 0x40,
            JolietLevel::Level2 => 0x43,
            JolietLevel::Level3 => 0x45,
        };
        let mut r: Vec<u8> = Vec::new();
        r.push(0x25);
        r.push(0x2F);
        r.push(last);
        crate::bytes::push_zeros(&mut r, 29);
        assert(r@ =~= self.escape_seq());
        r
    }
}

/// A namespace of the image: how names are written in one directory tree.
#[derive(Debug, Clone, Copy, PartialEq, Eq, Structural)]
pub enum EntryType {
    /// 8.3 names.
    Level1 {
        /// Whether lowercase letters are kept.
        supports_lowercase: bool,
        /// Whether Rock Ridge fields are written.
        supports_rrip: bool,
    },
    /// Names of up to 30 bytes.
    Level2 {
        /// Whether lowercase letters are kept.
        supports_lowercase: bool,
        /// Whether Rock Ridge fields are written.
        supports_rrip: bool,
    },
    /// Names of up to 207 bytes without a version.
    Level3 {
        /// Whether lowercase letters are kept.
        supports_lowercase: bool,
        /// Whether Rock Ridge fields are written.
        supports_rrip: bool,
    },
    /// UCS-2 names.
    Joliet {
        /// The Joliet level.
        level: JolietLevel,
        /// Whether Rock Ridge fields are written.
        supports_rrip: bool,
    },
}

impl EntryType {
    /// Whether Rock Ridge fields are written in this namespace.
    pub open spec fn rrip(self) -> bool {
        match self {
            EntryType::Level1 { supports_rrip, .. } => supports_rrip,
            EntryType::Level2 { supports_rrip, .. } => supports_rrip,
            EntryType::Level3 { supports_rrip, .. } => supports_rrip,
            EntryType::Joliet { supports_rrip, .. } => supports_rrip,
        }
    }

    /// Whether Rock Ridge fields are written in this namespace.
    pub fn supports_rrip(&self) -> (r: bool)
        ensures
            r == self.rrip(),
    {
        match self {
            EntryType::Level1 { supports_rrip, .. } => *supports_rrip,
            EntryType::Level2 { supports_rrip, .. } => *supports_rrip,
            EntryType::Level3 { supports_rrip, .. } => *supports_rrip,
            EntryType::Joliet { supports_rrip, .. } => *supports_rrip,
        }
    }
}

impl Default for EntryType {
    fn default() -> (r: Self)
        ensures
            r == (EntryType::Level1 { supports_lowercase: false, supports_rrip: false }),
    {
        EntryType::Level1 { supports_lowercase: false, supports_rrip: false }
    }
}

impl From<JolietLevel> for EntryType {
    fn from(value: JolietLevel) -> (r: Self) {
        EntryType::Joliet { level: value, supports_rrip: false }
    }
}

impl FromSpecImpl<JolietLevel> for EntryType {
    open spec fn obeys_from_spec() -> bool {
        true
    }

    open spec fn from_spec(value: JolietLevel) -> Self {
        EntryType::Joliet { level: value, supports_rrip: false }
    }
}

/// Which Rock Ridge data the writer stores.
#[derive(Debug, Clone, Copy, PartialEq, Eq, Structural)]
pub struct RripOptions {
    /// Whether Rock Ridge fields are written at all.
    pub enabled: bool,
    /// Whether directories below the depth limit are relocated.
    pub relocate_deep_dirs: bool,
    /// Whether permissions come from the input.
    pub preserve_permissions: bool,
    /// Whether owner and group come from the input.
    pub preserve_ownership: bool,
    /// Whether timestamps are written.
    pub preserve_timestamps: bool,
    /// Whether symbolic links are accepted.
    pub preserve_symlinks: bool,
    /// Whether device nodes are accepted.
    pub preserve_devices: bool,
}

/// Options that store no Rock Ridge data.
pub open spec fn rrip_disabled() -> RripOptions {
    RripOptions {
        enabled: false,
        relocate_deep_dirs: false,
        preserve_permissions: false,
        preserve_ownership: false,
        preserve_timestamps: false,
        preserve_symlinks: false,
        preserve_devices: false,
    }
}

impl RripOptions {
    /// Options that store no Rock Ridge data.
    pub fn disabled() -> (r: Self)
        ensures
            r == rrip_disabled(),
    {
        RripOptions {
            enabled: false,
            relocate_deep_dirs: false,
            preserve_permissions: false,
            preserve_ownership: false,
            preserve_timestamps: false,
            preserve_symlinks: false,
            preserve_devices: false,
        }
    }
}

/// Options that store all Rock Ridge data.
pub open spec fn rrip_full() -> RripOptions {
    RripOptions {
        enabled: true,
        relocate_deep_dirs: true,
        preserve_permissions: true,
        preserve_ownership: true,
        preserve_timestamps: true,
        preserve_symlinks: true,
        preserve_devices: true,
    }
}

impl Default for RripOptions {
    fn default() -> (r: Self)
        ensures
            r == rrip_full(),
    {
        RripOptions {
            enabled: true,
            relocate_deep_dirs: true,
            preserve_permissions: true,
            preserve_ownership: true,
            preserve_timestamps: true,
            preserve_symlinks: true,
            preserve_devices: true,
        }
    }
}

} // verus!
