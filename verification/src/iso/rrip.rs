//! The Rock Ridge fields of each kind of directory record.

use crate::iso::susp::RripBuilder;
#[allow(unused_imports)]
use crate::iso::susp::{
    er_field, nm_field, nm_fields, pn_field, px_field, sl_fields, sp_field, tf_field,
};
#[allow(unused_imports)]
use crate::iso::time::rrip_time_of;
use crate::iso::time::{rrip_datetime, RripTime};
#[allow(unused_imports)]
use crate::iso::tree::KindView;
use crate::iso::tree::{InputEntryKind, InputMetadata};
use crate::iso::types::RripOptions;
use vstd::prelude::*;
#[allow(unused_imports)]
use vstd::utf8::encode_utf8;

verus! {

/// Which record gets Rock Ridge fields.
pub enum RripEntryKind<'a> {
    /// `.` of the root.
    RootDot {
        /// Metadata.
        metadata: InputMetadata,
        /// Number of links.
        nlink: u32,
    },
    /// `..` of the root.
    RootDotDot {
        /// Metadata.
        metadata: InputMetadata,
        /// Number of links.
        nlink: u32,
    },
    /// `.` of another directory.
    Dot {
        /// Metadata.
        metadata: InputMetadata,
        /// Number of links.
        nlink: u32,
    },
    /// `..` of another directory.
    DotDot {
        /// Metadata.
        metadata: InputMetadata,
        /// Number of links.
        nlink: u32,
    },
    /// A child directory.
    Directory {
        /// Name.
        original_name: &'a str,
        /// Metadata.
        metadata: InputMetadata,
        /// Number of links.
        nlink: u32,
    },
    /// Anything else.
    Entry {
        /// Name.
        original_name: &'a str,
        /// Metadata.
        metadata: InputMetadata,
        /// What it is.
        kind: &'a InputEntryKind,
    },
}

/// PX and, where timestamps are kept, TF. Permissions and owner come from the metadata
/// where they are kept and known.
pub open spec fn posix_fields(
    options: RripOptions,
    fallback: Seq<u8>,
    inode: u32,
    metadata: InputMetadata,
    type_mode: u32,
    default_permissions: u32,
    nlink: u32,
) -> Seq<Seq<u8>> {
    let permissions = match metadata.mode {
        Some(mode) if options.preserve_permissions => mode,
        _ => default_permissions,
    };
    let uid = match metadata.uid {
        Some(uid) if options.preserve_ownership => uid,
        _ => 0u32,
    };
    let gid = match metadata.gid {
        Some(gid) if options.preserve_ownership => gid,
        _ => 0u32,
    };
    let px = px_field(type_mode | permissions, nlink, uid, gid, inode);
    if options.preserve_timestamps {
        let created: Option<Seq<u8>> = match metadata.created {
            Some(secs) => Some(rrip_time_of(Some(secs), fallback)),
            None => None,
        };
        seq![
            px,
            tf_field(
                created,
                rrip_time_of(metadata.modified, fallback),
                rrip_time_of(metadata.accessed, fallback),
            ),
        ]
    } else {
        seq![px]
    }
}

/// File type bits and default permissions.
pub open spec fn mode_of(kind: KindView) -> (u32, u32) {
    match kind {
        KindView::File(_) => (0x8000, 0x1A4),
        KindView::Symlink(_) => (0xA000, 0x1FF),
        KindView::CharacterDevice(..) => (0x2000, 0x180),
        KindView::BlockDevice(..) => (0x6000, 0x180),
        KindView::Directory(_) => (0x4000, 0x1ED),
    }
}

/// The fields that only links and devices have.
pub open spec fn special_fields(kind: KindView) -> Seq<Seq<u8>> {
    match kind {
        KindView::Symlink(target) => sl_fields(encode_utf8(target)),
        KindView::CharacterDevice(major, minor) => seq![pn_field(major, minor)],
        KindView::BlockDevice(major, minor) => seq![pn_field(major, minor)],
        _ => Seq::empty(),
    }
}

/// The Rock Ridge fields of a record, most important first: SP for the root's own record,
/// PX and TF, NM, then what a link or device needs, and ER last for the root's own record.
pub open spec fn rrip_fields(
    kind: RripEntryKind,
    inode: u32,
    options: RripOptions,
    fallback: Seq<u8>,
) -> Seq<Seq<u8>> {
    match kind {
        RripEntryKind::RootDot { metadata, nlink } => seq![sp_field(0)] + posix_fields(
            options,
            fallback,
            inode,
            metadata,
            0x4000,
            0x1ED,
            nlink,
        ) + seq![nm_field(2, Seq::empty()), er_field()],
        RripEntryKind::RootDotDot { metadata, nlink } => posix_fields(
            options,
            fallback,
            inode,
            metadata,
            0x4000,
            0x1ED,
            nlink,
        ) + seq![nm_field(4, Seq::empty())],
        RripEntryKind::Dot { metadata, nlink } => posix_fields(
            options,
            fallback,
            inode,
            metadata,
            0x4000,
            0x1ED,
            nlink,
        ) + seq![nm_field(2, Seq::empty())],
        RripEntryKind::DotDot { metadata, nlink } => posix_fields(
            options,
            fallback,
            inode,
            metadata,
            0x4000,
            0x1ED,
            nlink,
        ) + seq![nm_field(4, Seq::empty())],
        RripEntryKind::Directory { original_name, metadata, nlink } => posix_fields(
            options,
            fallback,
            inode,
            metadata,
            0x4000,
            0x1ED,
            nlink,
        ) + nm_fields(encode_utf8(original_name@)),
        RripEntryKind::Entry { original_name, metadata, kind } => {
            let (type_mode, default_permissions) = mode_of(kind.view());
            posix_fields(
                options,
                fallback,
                inode,
                metadata,
                type_mode,
                default_permissions,
                1,
            ) + nm_fields(encode_utf8(original_name@)) + special_fields(kind.view())
        },
    }
}

/// Adds PX and, where timestamps are kept, TF.
pub fn add_posix_attributes(
    options: &RripOptions,
    fallback_time: &RripTime,
    inode: u32,
    builder: &mut RripBuilder,
    metadata: InputMetadata,
    type_mode: u32,
    default_permissions: u32,
    nlink: u32,
)
    ensures
        final(builder)@ == old(builder)@ + posix_fields(
            *options,
            fallback_time@,
            inode,
            metadata,
            type_mode,
            default_permissions,
            nlink,
        ),
{
    let permissions: u32 = if options.preserve_permissions {
        match metadata.mode {
            Some(mode) => mode,
            None => default_permissions,
        }
    } else {
        default_permissions
    };
    let uid: u32 = if options.preserve_ownership {
        match metadata.uid {
            Some(uid) => uid,
            None => 0,
        }
    } else {
        0
    };
    let gid: u32 = if options.preserve_ownership {
        match metadata.gid {
            Some(gid) => gid,
            None => 0,
        }
    } else {
        0
    };
    let ghost before = builder@;
    builder.add_px(type_mode | permissions, nlink, uid, gid, inode);
    if options.preserve_timestamps {
        let modified: RripTime = rrip_datetime(metadata.modified, fallback_time);
        let accessed: RripTime = rrip_datetime(metadata.accessed, fallback_time);
        match metadata.created {
            Some(secs) => {
                let created: RripTime = rrip_datetime(Some(secs), fallback_time);
                builder.add_tf(Some(&created), &modified, &accessed);
            },
            None => {
                builder.add_tf(None, &modified, &accessed);
            },
        }
    }
    assert(builder@ =~= before + posix_fields(
        *options,
        fallback_time@,
        inode,
        metadata,
        type_mode,
        default_permissions,
        nlink,
    ));
}

/// The Rock Ridge fields of a record. A directory has a record of its own kind.
pub fn build_rrip_entries<'a>(
    kind: RripEntryKind<'a>,
    inode: u32,
    options: &RripOptions,
    fallback_time: &RripTime,
) -> (builder: RripBuilder)
    requires
        kind matches RripEntryKind::Entry { kind, .. } ==> !(kind is Directory),
    ensures
        builder@ == rrip_fields(kind, inode, *options, fallback_time@),
{
    let mut builder: RripBuilder = RripBuilder::new();
    match &kind {
        RripEntryKind::RootDot { metadata, nlink } => {
            builder.add_sp(0);
            add_posix_attributes(
                options,
                fallback_time,
                inode,
                &mut builder,
                *metadata,
                0x4000,
                0x1ED,
                *nlink,
            );
            builder.add_nm_current();
            builder.add_rrip_er();
        },
        RripEntryKind::RootDotDot { metadata, nlink } => {
            add_posix_attributes(
                options,
                fallback_time,
                inode,
                &mut builder,
                *metadata,
                0x4000,
                0x1ED,
                *nlink,
            );
            builder.add_nm_parent();
        },
        RripEntryKind::Dot { metadata, nlink } => {
            add_posix_attributes(
                options,
                fallback_time,
                inode,
                &mut builder,
                *metadata,
                0x4000,
                0x1ED,
                *nlink,
            );
            builder.add_nm_current();
        },
        RripEntryKind::DotDot { metadata, nlink } => {
            add_posix_attributes(
                options,
                fallback_time,
                inode,
                &mut builder,
                *metadata,
                0x4000,
                0x1ED,
                *nlink,
            );
            builder.add_nm_parent();
        },
        RripEntryKind::Directory { original_name, metadata, nlink } => {
            add_posix_attributes(
                options,
                fallback_time,
                inode,
                &mut builder,
                *metadata,
                0x4000,
                0x1ED,
                *nlink,
            );
            builder.add_nm(original_name.as_bytes());
        },
        RripEntryKind::Entry { original_name, metadata, kind } => {
            let (type_mode, default_permissions): (u32, u32) = match kind {
                InputEntryKind::File(_) => (0x8000, 0x1A4),
                InputEntryKind::Symlink(_) => (0xA000, 0x1FF),
                InputEntryKind::CharacterDevice { .. } => (0x2000, 0x180),
                InputEntryKind::BlockDevice { .. } => (0x6000, 0x180),
                InputEntryKind::Directory(_) => (0x4000, 0x1ED),
            };
            add_posix_attributes(
                options,
                fallback_time,
                inode,
                &mut builder,
                *metadata,
                type_mode,
                default_permissions,
                1,
            );
            builder.add_nm(original_name.as_bytes());
            match kind {
                InputEntryKind::Symlink(target) => {
                    builder.add_sl(target.as_str());
                },
                InputEntryKind::CharacterDevice { major, minor } => {
                    builder.add_pn(*major, *minor);
                },
                InputEntryKind::BlockDevice { major, minor } => {
                    builder.add_pn(*major, *minor);
                },
                _ => {},
            }
        },
    }
    assert(builder@ =~= rrip_fields(kind, inode, *options, fallback_time@));
    builder
}

} // verus!
