//! Errors of image creation.

use vstd::prelude::*;

verus! {

/// The kind of an error, as an I/O layer would classify it.
#[derive(Debug, Clone, Copy, PartialEq, Eq, Structural)]
pub enum ErrorKind {
    /// The caller's input is not acceptable.
    InvalidInput,
    /// Data that was read or planned is not consistent.
    InvalidData,
    /// Something that was named does not exist.
    NotFound,
    /// The data ends too early.
    UnexpectedEof,
}

/// What can go wrong when an image is created.
#[derive(Debug, Clone, Copy, PartialEq, Eq, Structural)]
pub enum IsoCreationError {
    /// The logical sector size is not 2048.
    SectorSize,
    /// A directory lies too deep or its path is too long, and relocation is off.
    DirectoryLimits,
    /// A symbolic link, and symbolic links are off.
    SymlinkUnsupported,
    /// A device node, and device nodes are off.
    DeviceUnsupported,
    /// An identifier does not fit its field; the field is named.
    Identifier(IdentifierField),
    /// A placeholder's target has no extent.
    RelocationTarget,
    /// A directory was not written where it was planned.
    DirectoryPrediction,
    /// A file was not written where it was planned.
    ExtentPrediction,
    /// A boot image does not exist.
    BootImageNotFound,
    /// A boot image has fewer than 64 bytes but wants a boot information table.
    BootImageTooSmall,
    /// The boot catalog's file does not exist.
    BootCatalogNotFound,
    /// The boot catalog does not fit into its file.
    BootCatalogTooSmall,
    /// The image ends where a read needs data.
    UnexpectedEnd,
    /// The image is too small for a GPT.
    GptTooSmall,
    /// The EFI boot image does not exist.
    EfiImageNotFound,
    /// The EFI boot image lies outside the data area.
    EfiImageOutside,
    /// A partition does not fit an MBR.
    HybridMbr,
    /// A directory record has more than 255 bytes.
    RecordTooLong,
    /// There are more entries than their numbers can count.
    TooManyEntries,
    /// There are more directories than a path table can number.
    TooManyDirectories,
    /// The image does not fit the memory.
    TooLarge,
}

/// An identifier field of a volume descriptor.
#[derive(Debug, Clone, Copy, PartialEq, Eq, Structural)]
pub enum IdentifierField {
    /// Volume name.
    VolumeName,
    /// System identifier.
    System,
    /// Volume set identifier.
    VolumeSet,
    /// Publisher identifier.
    Publisher,
    /// Preparer identifier.
    Preparer,
    /// Application identifier.
    Application,
}

impl IsoCreationError {
    /// How an I/O layer would classify the error.
    pub open spec fn spec_kind(self) -> ErrorKind {
        match self {
            IsoCreationError::SectorSize => ErrorKind::InvalidInput,
            IsoCreationError::DirectoryLimits => ErrorKind::InvalidInput,
            IsoCreationError::SymlinkUnsupported => ErrorKind::InvalidInput,
            IsoCreationError::DeviceUnsupported => ErrorKind::InvalidInput,
            IsoCreationError::Identifier(_) => ErrorKind::InvalidInput,
            IsoCreationError::BootImageTooSmall => ErrorKind::InvalidInput,
            IsoCreationError::HybridMbr => ErrorKind::InvalidInput,
            IsoCreationError::RecordTooLong => ErrorKind::InvalidInput,
            IsoCreationError::TooManyEntries => ErrorKind::InvalidInput,
            IsoCreationError::TooManyDirectories => ErrorKind::InvalidInput,
            IsoCreationError::TooLarge => ErrorKind::InvalidInput,
            IsoCreationError::BootImageNotFound => ErrorKind::NotFound,
            IsoCreationError::BootCatalogNotFound => ErrorKind::NotFound,
            IsoCreationError::EfiImageNotFound => ErrorKind::NotFound,
            IsoCreationError::UnexpectedEnd => ErrorKind::UnexpectedEof,
            _ => ErrorKind::InvalidData,
        }
    }

    /// The error in words. An identifier's error names the field.
    pub open spec fn text(self) -> Seq<char> {
        match self {
            IsoCreationError::SectorSize => "ISO creation requires 2048-byte logical sectors"@,
            IsoCreationError::DirectoryLimits => "directory depth or path length exceeds ISO 9660 limits and RRIP relocation is disabled"@,
            IsoCreationError::SymlinkUnsupported => "symbolic links require RRIP preserve_symlinks"@,
            IsoCreationError::DeviceUnsupported => "device entries require RRIP preserve_devices"@,
            IsoCreationError::Identifier(IdentifierField::VolumeName) => "volume name"@,
            IsoCreationError::Identifier(IdentifierField::System) => "system identifier"@,
            IsoCreationError::Identifier(IdentifierField::VolumeSet) => "volume set identifier"@,
            IsoCreationError::Identifier(IdentifierField::Publisher) => "publisher identifier"@,
            IsoCreationError::Identifier(IdentifierField::Preparer) => "preparer identifier"@,
            IsoCreationError::Identifier(IdentifierField::Application) => "application identifier"@,
            IsoCreationError::RelocationTarget => "relocated directory extent was not written"@,
            IsoCreationError::DirectoryPrediction => "directory prediction did not match the written layout"@,
            IsoCreationError::ExtentPrediction => "extent prediction did not match"@,
            IsoCreationError::BootImageNotFound => "boot image file not found"@,
            IsoCreationError::BootImageTooSmall => "boot image too small for boot info table (minimum 64 bytes)"@,
            IsoCreationError::BootCatalogNotFound => "boot.catalog not found"@,
            IsoCreationError::BootCatalogTooSmall => "boot.catalog too small"@,
            IsoCreationError::UnexpectedEnd => "unexpected end of the image"@,
            IsoCreationError::GptTooSmall => "image too small for a GPT partition table"@,
            IsoCreationError::EfiImageNotFound => "EFI boot partition image not found in the ISO tree"@,
            IsoCreationError::EfiImageOutside => "EFI boot partition lies outside the ISO data area"@,
            IsoCreationError::HybridMbr => "invalid hybrid MBR"@,
            IsoCreationError::RecordTooLong => "directory record exceeds 255 bytes"@,
            IsoCreationError::TooManyEntries => "too many entries"@,
            IsoCreationError::TooManyDirectories => "too many directories for a path table"@,
            IsoCreationError::TooLarge => "image too large"@,
        }
    }

    /// The error in words. An identifier's error names the field.
    pub fn message(&self) -> (r: &'static str)
        ensures
            r@ == self.text(),
    {
        match self {
            IsoCreationError::SectorSize => "ISO creation requires 2048-byte logical sectors",
            IsoCreationError::DirectoryLimits => "directory depth or path length exceeds ISO 9660 limits and RRIP relocation is disabled",
            IsoCreationError::SymlinkUnsupported => "symbolic links require RRIP preserve_symlinks",
            IsoCreationError::DeviceUnsupported => "device entries require RRIP preserve_devices",
            IsoCreationError::Identifier(IdentifierField::VolumeName) => "volume name",
            IsoCreationError::Identifier(IdentifierField::System) => "system identifier",
            IsoCreationError::Identifier(IdentifierField::VolumeSet) => "volume set identifier",
            IsoCreationError::Identifier(IdentifierField::Publisher) => "publisher identifier",
            IsoCreationError::Identifier(IdentifierField::Preparer) => "preparer identifier",
            IsoCreationError::Identifier(IdentifierField::Application) => "application identifier",
            IsoCreationError::RelocationTarget => "relocated directory extent was not written",
            IsoCreationError::DirectoryPrediction => "directory prediction did not match the written layout",
            IsoCreationError::ExtentPrediction => "extent prediction did not match",
            IsoCreationError::BootImageNotFound => "boot image file not found",
            IsoCreationError::BootImageTooSmall => "boot image too small for boot info table (minimum 64 bytes)",
            IsoCreationError::BootCatalogNotFound => "boot.catalog not found",
            IsoCreationError::BootCatalogTooSmall => "boot.catalog too small",
            IsoCreationError::UnexpectedEnd => "unexpected end of the image",
            IsoCreationError::GptTooSmall => "image too small for a GPT partition table",
            IsoCreationError::EfiImageNotFound => "EFI boot partition image not found in the ISO tree",
            IsoCreationError::EfiImageOutside => "EFI boot partition lies outside the ISO data area",
            IsoCreationError::HybridMbr => "invalid hybrid MBR",
            IsoCreationError::RecordTooLong => "directory record exceeds 255 bytes",
            IsoCreationError::TooManyEntries => "too many entries",
            IsoCreationError::TooManyDirectories => "too many directories for a path table",
            IsoCreationError::TooLarge => "image too large",
        }
    }

    /// How an I/O layer would classify the error.
    pub fn kind(&self) -> (r: ErrorKind)
        ensures
            r == self.spec_kind(),
    {
        match self {
            IsoCreationError::SectorSize => ErrorKind::InvalidInput,
            IsoCreationError::DirectoryLimits => ErrorKind::InvalidInput,
            IsoCreationError::SymlinkUnsupported => ErrorKind::InvalidInput,
            IsoCreationError::DeviceUnsupported => ErrorKind::InvalidInput,
            IsoCreationError::Identifier(_) => ErrorKind::InvalidInput,
            IsoCreationError::BootImageTooSmall => ErrorKind::InvalidInput,
            IsoCreationError::HybridMbr => ErrorKind::InvalidInput,
            IsoCreationError::RecordTooLong => ErrorKind::InvalidInput,
            IsoCreationError::TooManyEntries => ErrorKind::InvalidInput,
            IsoCreationError::TooManyDirectories => ErrorKind::InvalidInput,
            IsoCreationError::TooLarge => ErrorKind::InvalidInput,
            IsoCreationError::BootImageNotFound => ErrorKind::NotFound,
            IsoCreationError::BootCatalogNotFound => ErrorKind::NotFound,
            IsoCreationError::EfiImageNotFound => ErrorKind::NotFound,
            IsoCreationError::UnexpectedEnd => ErrorKind::UnexpectedEof,
            _ => ErrorKind::InvalidData,
        }
    }
}

} // verus!
