//! What the writer is asked to create.

use crate::iso::boot::BootOptions;
use crate::iso::types::{EntryType, JolietLevel, PathSeparator, RripOptions};
#[allow(unused_imports)]
use crate::iso::types::rrip_full;
use vstd::prelude::*;
use vstd::std_specs::convert::FromSpecImpl;

verus! {

/// Which partition table the image carries.
#[derive(Debug, Clone, Copy, PartialEq, Eq, Structural)]
pub enum PartitionScheme {
    /// None; the image boots from optical media only.
    NoTable,
    /// An MBR.
    Mbr,
    /// A GPT.
    Gpt,
    /// A GPT with an MBR that mirrors its partitions.
    Hybrid,
}

impl Default for PartitionScheme {
    fn default() -> (r: Self)
        ensures
            r == PartitionScheme::NoTable,
    {
        PartitionScheme::NoTable
    }
}

/// How the image boots from a disk.
#[derive(Debug)]
pub struct HybridBootOptions {
    /// The partition table.
    pub partition_scheme: PartitionScheme,
    /// Boot code for the MBR, of which at most 446 bytes are used.
    pub mbr_bootstrap: Option<Vec<u8>>,
    /// Whether the MBR marks the image's partition as bootable.
    pub bootable: bool,
    /// Path of the UEFI boot image that becomes an EFI System Partition of the GPT.
    pub efi_boot_partition: Option<String>,
}

impl HybridBootOptions {
    /// An MBR.
    pub fn mbr() -> (r: Self)
        ensures
            r.partition_scheme == PartitionScheme::Mbr,
            r.mbr_bootstrap is None,
            r.bootable,
            r.efi_boot_partition is None,
    {
        HybridBootOptions {
            partition_scheme: PartitionScheme::Mbr,
            mbr_bootstrap: None,
            bootable: true,
            efi_boot_partition: None,
        }
    }

    /// A GPT.
    pub fn gpt() -> (r: Self)
        ensures
            r.partition_scheme == PartitionScheme::Gpt,
            r.mbr_bootstrap is None,
            !r.bootable,
            r.efi_boot_partition is None,
    {
        HybridBootOptions {
            partition_scheme: PartitionScheme::Gpt,
            mbr_bootstrap: None,
            bootable: false,
            efi_boot_partition: None,
        }
    }

    /// A GPT with an MBR that mirrors its partitions.
    pub fn hybrid() -> (r: Self)
        ensures
            r.partition_scheme == PartitionScheme::Hybrid,
            r.mbr_bootstrap is None,
            r.bootable,
            r.efi_boot_partition is None,
    {
        HybridBootOptions {
            partition_scheme: PartitionScheme::Hybrid,
            mbr_bootstrap: None,
            bootable: true,
            efi_boot_partition: None,
        }
    }

    /// With boot code for the MBR.
    pub fn bootstrap(self, bootstrap: Vec<u8>) -> (r: Self)
        ensures
            r == (HybridBootOptions { mbr_bootstrap: Some(bootstrap), ..self }),
    {
        HybridBootOptions {
            partition_scheme: self.partition_scheme,
            mbr_bootstrap: Some(bootstrap),
            bootable: self.bootable,
            efi_boot_partition: self.efi_boot_partition,
        }
    }

    /// With a UEFI boot image that becomes an EFI System Partition.
    pub fn with_efi_boot_partition(self, path: &str) -> (r: Self)
        ensures
            r.partition_scheme == self.partition_scheme,
            r.mbr_bootstrap == self.mbr_bootstrap,
            r.bootable == self.bootable,
            r.efi_boot_partition matches Some(p) && p@ == path@,
    {
        HybridBootOptions {
            partition_scheme: self.partition_scheme,
            mbr_bootstrap: self.mbr_bootstrap,
            bootable: self.bootable,
            efi_boot_partition: Some(path.to_owned()),
        }
    }
}

impl Default for HybridBootOptions {
    fn default() -> (r: Self)
        ensures
            r.partition_scheme == PartitionScheme::NoTable,
            r.mbr_bootstrap is None,
            !r.bootable,
            r.efi_boot_partition is None,
    {
        HybridBootOptions {
            partition_scheme: PartitionScheme::NoTable,
            mbr_bootstrap: None,
            bootable: false,
            efi_boot_partition: None,
        }
    }
}

/// The interchange level of the primary namespace.
#[derive(Debug, Clone, Copy, PartialEq, Eq, Structural)]
pub enum BaseIsoLevel {
    /// 8.3 names.
    Level1 {
        /// Whether lowercase letters are kept.
        supports_lowercase: bool,
        /// Whether Rock Ridge fields are written.
        supports_rrip: bool,
    },
    /// Names of up to 30 bytes.
    Level2 {
        /// Whether lowercase letters are kept.
        supports_lowercase: bool,
        /// Whether Rock Ridge fields are written.
        supports_rrip: bool,
    },
    /// The names of level 2, and files of several extents.
    Level3 {
        /// Whether lowercase letters are kept.
        supports_lowercase: bool,
        /// Whether Rock Ridge fields are written.
        supports_rrip: bool,
    },
}

/// The namespace of an interchange level: level 3 has the names of level 2.
pub open spec fn base_entry_type(level: BaseIsoLevel) -> EntryType {
    match level {
        BaseIsoLevel::Level1 { supports_lowercase, supports_rrip } => EntryType::Level1 {
            supports_lowercase,
            supports_rrip,
        },
        BaseIsoLevel::Level2 { supports_lowercase, supports_rrip } => EntryType::Level2 {
            supports_lowercase,
            supports_rrip,
        },
        BaseIsoLevel::Level3 { supports_lowercase, supports_rrip } => EntryType::Level2 {
            supports_lowercase,
            supports_rrip,
        },
    }
}

impl From<BaseIsoLevel> for EntryType {
    fn from(value: BaseIsoLevel) -> (r: Self) {
        match value {
            BaseIsoLevel::Level1 { supports_lowercase, supports_rrip } => EntryType::Level1 {
                supports_lowercase,
                supports_rrip,
            },
            BaseIsoLevel::Level2 { supports_lowercase, supports_rrip } => EntryType::Level2 {
                supports_lowercase,
                supports_rrip,
            },
            BaseIsoLevel::Level3 { supports_lowercase, supports_rrip } => EntryType::Level2 {
                supports_lowercase,
                supports_rrip,
            },
        }
    }
}

impl FromSpecImpl<BaseIsoLevel> for EntryType {
    open spec fn obeys_from_spec() -> bool {
        true
    }

    open spec fn from_spec(value: BaseIsoLevel) -> Self {
        base_entry_type(value)
    }
}

/// What the image offers.
#[derive(Debug)]
pub struct CreationFeatures {
    /// The primary namespace.
    pub filenames: BaseIsoLevel,
    /// Whether there is a namespace with names of up to 207 bytes.
    pub long_filenames: bool,
    /// The Joliet namespace, if any.
    pub joliet: Option<JolietLevel>,
    /// Rock Ridge, if any.
    pub rock_ridge: Option<RripOptions>,
    /// Booting from optical media, if any.
    pub el_torito: Option<BootOptions>,
    /// Booting from a disk, if any.
    pub hybrid_boot: Option<HybridBootOptions>,
}

/// 8.3 names without lowercase letters.
pub open spec fn plain_level(supports_rrip: bool) -> BaseIsoLevel {
    BaseIsoLevel::Level1 { supports_lowercase: false, supports_rrip }
}

impl Default for CreationFeatures {
    fn default() -> (r: Self)
        ensures
            r.filenames == plain_level(false),
            !r.long_filenames,
            r.joliet is None,
            r.rock_ridge is None,
            r.el_torito is None,
            r.hybrid_boot is None,
    {
        CreationFeatures {
            filenames: BaseIsoLevel::Level1 { supports_lowercase: false, supports_rrip: false },
            long_filenames: false,
            joliet: None,
            rock_ridge: None,
            el_torito: None,
            hybrid_boot: None,
        }
    }
}

impl CreationFeatures {
    /// Rock Ridge with all its data.
    pub fn rock_ridge() -> (r: Self)
        ensures
            r.filenames == plain_level(true),
            !r.long_filenames,
            r.joliet is None,
            r.rock_ridge == Some(rrip_full()),
            r.el_torito is None,
            r.hybrid_boot is None,
    {
        CreationFeatures {
            filenames: BaseIsoLevel::Level1 { supports_lowercase: false, supports_rrip: true },
            long_filenames: false,
            joliet: None,
            rock_ridge: Some(RripOptions::default()),
            el_torito: None,
            hybrid_boot: None,
        }
    }

    /// A Joliet namespace.
    pub fn joliet(level: JolietLevel) -> (r: Self)
        ensures
            r.filenames == plain_level(false),
            !r.long_filenames,
            r.joliet == Some(level),
            r.rock_ridge is None,
            r.el_torito is None,
            r.hybrid_boot is None,
    {
        CreationFeatures {
            filenames: BaseIsoLevel::Level1 { supports_lowercase: false, supports_rrip: false },
            long_filenames: false,
            joliet: Some(level),
            rock_ridge: None,
            el_torito: None,
            hybrid_boot: None,
        }
    }

    /// Rock Ridge and Joliet.
    pub fn extensions() -> (r: Self)
        ensures
            r.filenames == plain_level(true),
            !r.long_filenames,
            r.joliet == Some(JolietLevel::Level3),
            r.rock_ridge == Some(rrip_full()),
            r.el_torito is None,
            r.hybrid_boot is None,
    {
        CreationFeatures {
            filenames: BaseIsoLevel::Level1 { supports_lowercase: false, supports_rrip: true },
            long_filenames: false,
            joliet: Some(JolietLevel::Level3),
            rock_ridge: Some(RripOptions::default()),
            el_torito: None,
            hybrid_boot: None,
        }
    }

    /// A partition table.
    pub fn hybrid_boot(scheme: PartitionScheme) -> (r: Self)
        ensures
            r.filenames == plain_level(false),
            !r.long_filenames,
            r.joliet is None,
            r.rock_ridge is None,
            r.el_torito is None,
            r.hybrid_boot matches Some(h) && h.partition_scheme == scheme && h.mbr_bootstrap is None
                && h.bootable && h.efi_boot_partition is None,
    {
        CreationFeatures {
            filenames: BaseIsoLevel::Level1 { supports_lowercase: false, supports_rrip: false },
            long_filenames: false,
            joliet: None,
            rock_ridge: None,
            el_torito: None,
            hybrid_boot: Some(
                HybridBootOptions {
                    partition_scheme: scheme,
                    mbr_bootstrap: None,
                    bootable: true,
                    efi_boot_partition: None,
                },
            ),
        }
    }
}

/// What the writer is asked to create.
#[derive(Debug)]
pub struct IsoFormatOptions {
    /// Volume name.
    pub volume_name: String,
    /// System identifier.
    pub system_id: Option<String>,
    /// Volume set identifier.
    pub volume_set_id: Option<String>,
    /// Publisher identifier.
    pub publisher_id: Option<String>,
    /// Preparer identifier.
    pub preparer_id: Option<String>,
    /// Application identifier.
    pub application_id: Option<String>,
    /// Bytes of a logical sector.
    pub sector_size: usize,
    /// What the image offers.
    pub features: CreationFeatures,
    /// Separator used by paths in the options.
    pub path_separator: PathSeparator,
    /// Whether identifiers are brought into the character set of the format. If not, they
    /// are stored as they are.
    pub strict_charset: bool,
}

/// The namespaces of an image: the primary one, then that with long names and the Joliet
/// one where they are asked for.
pub open spec fn entry_types_of(features: CreationFeatures) -> Seq<EntryType> {
    let base = seq![base_entry_type(features.filenames)];
    let long = if features.long_filenames {
        base.push(EntryType::Level3 { supports_lowercase: true, supports_rrip: false })
    } else {
        base
    };
    match features.joliet {
        Some(level) => long.push(EntryType::Joliet { level, supports_rrip: false }),
        None => long,
    }
}

/// The partition table that the features ask for.
pub open spec fn scheme_of(features: CreationFeatures) -> Option<PartitionScheme> {
    match features.hybrid_boot {
        Some(h) => Some(h.partition_scheme),
        None => None,
    }
}

/// Whether the image carries a GPT.
pub open spec fn has_gpt(features: CreationFeatures) -> bool {
    scheme_of(features) == Some(PartitionScheme::Gpt) || scheme_of(features) == Some(
        PartitionScheme::Hybrid,
    )
}

/// The namespaces of an image.
pub fn build_entry_types(features: &CreationFeatures) -> (r: Vec<EntryType>)
    ensures
        r@ == entry_types_of(*features),
{
    let mut entry_types: Vec<EntryType> = Vec::new();
    entry_types.push(EntryType::from(features.filenames));
    assert(entry_types@ =~= seq![base_entry_type(features.filenames)]);
    if features.long_filenames {
        entry_types.push(EntryType::Level3 { supports_lowercase: true, supports_rrip: false });
    }
    match features.joliet {
        Some(level) => {
            entry_types.push(EntryType::from(level));
        },
        None => {},
    }
    entry_types
}

impl IsoFormatOptions {
    /// The partition table that is asked for.
    pub fn partition_scheme(&self) -> (r: Option<PartitionScheme>)
        ensures
            r == scheme_of(self.features),
    {
        match &self.features.hybrid_boot {
            Some(h) => Some(h.partition_scheme),
            None => None,
        }
    }

    /// Whether deep directories are relocated.
    pub fn has_rock_ridge_deep_dirs(&self) -> (r: bool)
        ensures
            r == crate::iso::tree::relocates(self.features.rock_ridge),
    {
        match &self.features.rock_ridge {
            Some(o) => o.enabled && o.relocate_deep_dirs,
            None => false,
        }
    }

    /// The namespaces: the primary one, then that with long names and the Joliet one
    /// where they are asked for.
    pub fn entry_types(&self) -> (r: Vec<EntryType>)
        ensures
            r@ == entry_types_of(self.features),
    {
        build_entry_types(&self.features)
    }
}

} // verus!
