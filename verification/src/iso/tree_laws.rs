//! What becomes of the input's entries: limits, records, moved directories and lookups.

#[allow(unused_imports)]
use crate::iso::error::IsoCreationError;
#[allow(unused_imports)]
use crate::iso::gather::{device_parts, lower, name_key};
#[allow(unused_imports)]
use crate::iso::name::{base_identifier, file_identifier};
#[allow(unused_imports)]
use crate::iso::options::{entry_types_of, has_gpt, BaseIsoLevel, CreationFeatures, PartitionScheme};
#[allow(unused_imports)]
use crate::iso::order::{before, lex_lt, lex_lt_total, stable_order, stable_order_exists};
#[allow(unused_imports)]
use crate::iso::path_table::{identifiers, kept, ordered};
#[allow(unused_imports)]
use crate::iso::records::{
    child_record, child_records, context, dot_record, dotdot_record, file_records, files_records,
    first_unseen, group_end, is_special, raw_records, sort_key, sort_keys, sorted, su_space,
    unique_name, Context, RecordView,
};
#[allow(unused_imports)]
use crate::iso::refmap::DirKey;
#[allow(unused_imports)]
use crate::iso::relocate::{
    child_path_len, data_files, first_free, holder_base, holder_name, moved_in, moved_in_list,
    name_taken, preorder, preorder_children, relocate_list, relocated_name, relocated_prefix,
    relocated_root, MovedView,
};
#[allow(unused_imports)]
use crate::iso::rrip::{mode_of, posix_fields, special_fields};
#[allow(unused_imports)]
use crate::iso::susp::{
    cl_field, er_field, nm_field, nm_fields, pl_field, re_field, sp_field, split_inline,
    split_overflow,
};
#[allow(unused_imports)]
use crate::iso::tree::{
    entry_error, entry_events, first_error, list_events, name_len, EntryView, Event, KindView,
};
#[allow(unused_imports)]
use crate::iso::types::{DirectoryRef, EntryType, RripOptions};
#[allow(unused_imports)]
use crate::iso::written::{
    dir_ref, directory_count, find_dir, find_name, find_parts, fresh_dir, fresh_file, lookup_parts,
    with_entries, without_current, DirView, DirectoryRelocation, FileView,
};
#[allow(unused_imports)]
use crate::text::{ascii_chars, decimal, path_parts, zero_padded};
#[allow(unused_imports)]
use crate::text_laws::zeros_stand_in_front;
use vstd::prelude::*;
#[allow(unused_imports)]
use vstd::utf8::encode_utf8;

verus! {

/// The parts of a device number: the major one has the twelve bits from bit 8 on and, above them,
/// those from bit 44 on; the minor one the eight bits from bit 0 on and, above them, the 24 from
/// bit 20 on.
pub proof fn device_numbers_have_their_bits(device: u64)
    ensures
        device_parts(device).0 == ((device >> 8) & 0xFFF) | ((device >> 32) & 0xFFFFF000),
        device_parts(device).1 == (device & 0xFF) | ((device >> 12) & 0xFFFFFF00),
{
    assert(((device >> 8) & 0xFFF) | ((device >> 32) & 0xFFFFF000) == device / 0x100 % 0x1000
        + device / 0x1000_0000_0000 * 0x1000) by (bit_vector);
    assert((device & 0xFF) | ((device >> 12) & 0xFFFFFF00) == device % 0x100 + device / 0x10_0000
        % 0x100_0000 * 0x100) by (bit_vector);
    assert(device / 0x100 % 0x1000 + device / 0x1000_0000_0000 * 0x1000 <= 0xFFFFFFFF);
    assert(device % 0x100 + device / 0x10_0000 % 0x100_0000 * 0x100 <= 0xFFFFFFFF);
}

/// Names are ordered as if their capital letters were small ones.
pub proof fn names_are_ordered_without_case(b: u8, name: Seq<char>, i: int)
    requires
        0 <= i < encode_utf8(name).len(),
    ensures
        'A' as u32 <= b <= 'Z' as u32 ==> lower(b) - 'a' as u32 == b - 'A' as u32,
        b < 'A' as u32 || b > 'Z' as u32 ==> lower(b) == b,
        name_key(name).len() == encode_utf8(name).len(),
        name_key(name)[i] == lower(encode_utf8(name)[i]),
{
}

/// A directory lies too deep as a child of the eighth level or below, and its path is too long with
/// more than 255 bytes, slashes counted; where directories are not moved that is refused. Links and
/// devices are refused where they are not kept, and files never.
pub proof fn entries_have_limits(
    entry: EntryView,
    rrip: Option<RripOptions>,
    depth: usize,
    path_len: usize,
)
    requires
        depth < usize::MAX,
        path_len + 1 + encode_utf8(entry.name).len() <= usize::MAX,
    ensures
        ({
            let len = if path_len == 0 {
                encode_utf8(entry.name).len() as int
            } else {
                path_len + 1 + encode_utf8(entry.name).len()
            };
            let moving = rrip matches Some(o) && o.enabled && o.relocate_deep_dirs;
            let links = rrip matches Some(o) && o.enabled && o.preserve_symlinks;
            let devices = rrip matches Some(o) && o.enabled && o.preserve_devices;
            let r = entry_error(entry, rrip, depth, path_len);
            match entry.kind {
                KindView::File(_) => r is None,
                KindView::Directory(children) => if (depth > 7 || len > 255) && !moving {
                    r == Some(IsoCreationError::DirectoryLimits)
                } else {
                    r == first_error(children, rrip, (depth + 1) as usize, len as usize)
                },
                KindView::Symlink(_) => if links {
                    r is None
                } else {
                    r == Some(IsoCreationError::SymlinkUnsupported)
                },
                _ => if devices {
                    r is None
                } else {
                    r == Some(IsoCreationError::DeviceUnsupported)
                },
            }
        }),
{
}

/// Of several entries the first that is refused decides.
pub proof fn the_first_refusal_decides(
    entries: Seq<EntryView>,
    entry: EntryView,
    rrip: Option<RripOptions>,
    depth: usize,
    path_len: usize,
)
    ensures
        first_error(Seq::empty(), rrip, depth, path_len) is None,
        first_error(entries, rrip, depth, path_len) is Some ==> first_error(
            entries.push(entry),
            rrip,
            depth,
            path_len,
        ) == first_error(entries, rrip, depth, path_len),
        first_error(entries, rrip, depth, path_len) is None ==> first_error(
            entries.push(entry),
            rrip,
            depth,
            path_len,
        ) == entry_error(entry, rrip, depth, path_len),
{
    assert(entries.push(entry).drop_last() =~= entries);
}

/// Walking goes through the entries in their order; a directory is entered, its children follow,
/// and it is left.
pub proof fn walks_go_in_order(entries: Seq<EntryView>, entry: EntryView)
    ensures
        list_events(Seq::empty()) == Seq::<Event>::empty(),
        list_events(entries.push(entry)) == list_events(entries) + entry_events(entry),
        entry.kind matches KindView::Directory(children) ==> {
            let events = entry_events(entry);
            &&& events.len() == list_events(children).len() + 2
            &&& events[0] == Event::Enter(entry)
            &&& events.last() == Event::Exit(entry)
            &&& events.subrange(1, events.len() - 1) == list_events(children)
        },
        !(entry.kind is Directory) ==> entry_events(entry) == seq![Event::File(entry)],
{
    assert(entries.push(entry).drop_last() =~= entries);
    if let KindView::Directory(children) = entry.kind {
        let events = entry_events(entry);
        assert(events.subrange(1, events.len() - 1) =~= list_events(children));
    }
}

/// Which namespaces an image has: the base one, the one for long names where it is wanted, and
/// Joliet where it is wanted, in this order; the third level of the base writes names as the
/// second.
pub proof fn namespaces_come_in_order(features: CreationFeatures)
    ensures
        ({
            let types = entry_types_of(features);
            let n = types.len();
            let base = match features.filenames {
                BaseIsoLevel::Level1 { supports_lowercase, supports_rrip } => EntryType::Level1 {
                    supports_lowercase,
                    supports_rrip,
                },
                BaseIsoLevel::Level2 { supports_lowercase, supports_rrip } => EntryType::Level2 {
                    supports_lowercase,
                    supports_rrip,
                },
                BaseIsoLevel::Level3 { supports_lowercase, supports_rrip } => EntryType::Level2 {
                    supports_lowercase,
                    supports_rrip,
                },
            };
            &&& types[0] == base
            &&& n == 1 + (if features.long_filenames {
                1int
            } else {
                0
            }) + (if features.joliet is Some {
                1int
            } else {
                0
            })
            &&& features.long_filenames ==> types[1] == (EntryType::Level3 {
                supports_lowercase: true,
                supports_rrip: false,
            })
            &&& features.joliet matches Some(level) ==> types[n - 1] == (EntryType::Joliet {
                level,
                supports_rrip: false,
            })
        }),
        has_gpt(features) <==> (features.hybrid_boot matches Some(h) && (h.partition_scheme
            == PartitionScheme::Gpt || h.partition_scheme == PartitionScheme::Hybrid)),
{
}

/// The record of a directory itself and that of its parent have the identifiers 0 and 1 and are
/// marked as directories. With attributes they name themselves `.` and `..`; the root's also says
/// which extensions follow, and that of a moved directory where its own parent lies.
pub proof fn directories_have_two_records(dir: DirView, is_root: bool, c: Context)
    ensures
        ({
            let dot = dot_record(dir, is_root, c);
            let up = dotdot_record(dir, c);
            let own = posix_fields(
                c.options,
                c.fallback,
                0,
                dir.metadata,
                0o040000,
                0o755,
                (2 + dir.dirs.len()) as u32,
            );
            let fields = if is_root {
                seq![sp_field(0)] + own + seq![nm_field(2, Seq::empty()), er_field()]
            } else {
                own + seq![nm_field(2, Seq::empty())]
            };
            let above = own + seq![nm_field(4, Seq::empty())];
            &&& dot.name == seq![0u8] && up.name == seq![1u8]
            &&& dot.flags.bits == 2 && up.flags.bits == 2
            &&& !c.has_rrip ==> dot.inline.len() == 0 && dot.overflow.len() == 0 && up.inline.len()
                == 0 && up.overflow.len() == 0
            &&& c.has_rrip ==> {
                &&& dot.inline == split_inline(fields, 222)
                &&& dot.overflow == split_overflow(fields, 222)
                &&& !(dir.relocation is Moved) ==> up.inline == split_inline(above, 222)
                    && up.overflow == split_overflow(above, 222)
                &&& dir.relocation matches DirectoryRelocation::Moved { logical_parent, .. } ==> {
                    let key = DirKey { id: logical_parent, ty: c.ty };
                    let sector = if c.refs.dom().contains(key) {
                        c.refs[key].extent.0 as u32
                    } else {
                        0
                    };
                    up.inline == split_inline(above.push(pl_field(sector)), 222) && up.overflow
                        == split_overflow(above.push(pl_field(sector)), 222)
                }
            }
        }),
{
}

/// The room for System Use data beside an identifier is what a record of 256 bytes leaves, its
/// fixed 33 bytes and the identifier filled up to an even length.
pub proof fn records_have_room(n: int)
    requires
        0 <= n,
    ensures
        n % 2 == 1 && n <= 223 ==> su_space(n) == 256 - 33 - n,
        n % 2 == 0 && n <= 222 ==> su_space(n) == 256 - 34 - n,
        n > 223 ==> su_space(n) == 0,
{
}

/// The record of a directory within another: marked as a directory, with its identifier and where
/// it lies, and with its own name. That of a moved one says so, and one that only marks where
/// another was moved from says where that lies.
pub proof fn child_directories_have_a_record(dir: DirView, inode: u32, c: Context)
    ensures
        ({
            let own = posix_fields(
                c.options,
                c.fallback,
                inode,
                dir.metadata,
                0o040000,
                0o755,
                (2 + dir.dirs.len()) as u32,
            ) + nm_fields(encode_utf8(dir.rrip_name));
            let room = su_space(base_identifier(c.ty, dir.name).len() as int);
            match child_record(dir, inode, c) {
                Ok(r) => {
                    &&& r.name == base_identifier(c.ty, dir.name)
                    &&& r.flags.bits == 2
                    &&& !(dir.relocation is Placeholder) ==> r.dir_ref == dir.entries[c.ty]
                    &&& !c.has_rrip ==> r.inline.len() == 0 && r.overflow.len() == 0
                    &&& c.has_rrip && dir.relocation is InPlace ==> r.inline == split_inline(
                        own,
                        room,
                    ) && r.overflow == split_overflow(own, room)
                    &&& c.has_rrip && dir.relocation is Moved ==> r.inline == split_inline(
                        own.push(re_field()),
                        room,
                    ) && r.overflow == split_overflow(own.push(re_field()), room)
                    &&& dir.relocation matches DirectoryRelocation::Placeholder { target } ==> {
                        let key = DirKey { id: target, ty: c.ty };
                        let link = cl_field(c.refs[key].extent.0 as u32);
                        &&& c.refs.dom().contains(key) ==> r.dir_ref == c.refs[key]
                        &&& c.has_rrip ==> c.refs.dom().contains(key) && r.inline == split_inline(
                            own.push(link),
                            room,
                        ) && r.overflow == split_overflow(own.push(link), room)
                    }
                },
                Err(e) => {
                    &&& e == IsoCreationError::RelocationTarget
                    &&& c.has_rrip
                    &&& dir.relocation matches DirectoryRelocation::Placeholder { target }
                        && !c.refs.dom().contains(DirKey { id: target, ty: c.ty })
                },
            }
        }),
{
    reveal(child_record);
}

/// A file has a record for each extent, all with its identifier; each but the last says that the
/// file goes on, and the first holds its attributes.
pub proof fn files_have_a_record_for_each_extent(file: FileView, inode: u32, c: Context, i: int)
    requires
        0 <= i < file.additional_extents.len(),
    ensures
        ({
            let r = file_records(file, inode, c);
            let n = file.additional_extents.len() as int;
            let (kind, permissions) = mode_of(file.kind);
            let fields = posix_fields(
                c.options,
                c.fallback,
                inode,
                file.metadata,
                kind,
                permissions,
                1,
            ) + nm_fields(encode_utf8(file.name)) + special_fields(file.kind);
            let room = su_space(file_identifier(c.ty, file.name).len() as int);
            &&& r.len() == n + 1
            &&& r[0].name == file_identifier(c.ty, file.name)
            &&& r[0].dir_ref == file.entry
            &&& r[0].flags.bits == 0x80
            &&& c.has_rrip ==> r[0].inline == split_inline(fields, room) && r[0].overflow
                == split_overflow(fields, room)
            &&& !c.has_rrip ==> r[0].inline.len() == 0 && r[0].overflow.len() == 0
            &&& r[i + 1].name == file_identifier(c.ty, file.name)
            &&& r[i + 1].dir_ref == file.additional_extents[i]
            &&& r[i + 1].flags.bits == (if i + 1 < n {
                0x80u8
            } else {
                0
            })
            &&& r[i + 1].inline.len() == 0 && r[i + 1].overflow.len() == 0
        }),
{
}

/// A file with one extent has one record, without a flag.
pub proof fn files_of_one_extent_have_one_record(file: FileView, inode: u32, c: Context)
    requires
        file.additional_extents.len() == 0,
    ensures
        ({
            let r = file_records(file, inode, c);
            &&& r.len() == 1
            &&& r[0].name == file_identifier(c.ty, file.name)
            &&& r[0].dir_ref == file.entry
            &&& r[0].flags.bits == 0
        }),
{
}

/// A directory's records: its own, its parent's, those of its directories and those of its files,
/// numbered one after the other.
pub proof fn records_are_numbered_in_order(
    dirs: Seq<DirView>,
    d: DirView,
    files: Seq<FileView>,
    f: FileView,
    inode: int,
    c: Context,
)
    ensures
        child_records(Seq::empty(), inode, c) == Ok::<Seq<RecordView>, IsoCreationError>(
            Seq::empty(),
        ),
        child_records(dirs, inode, c) matches Ok(before) ==> match child_record(
            d,
            (inode + dirs.len()) as u32,
            c,
        ) {
            Ok(r) => child_records(dirs.push(d), inode, c) == Ok::<
                Seq<RecordView>,
                IsoCreationError,
            >(before.push(r)),
            Err(e) => child_records(dirs.push(d), inode, c) == Err::<
                Seq<RecordView>,
                IsoCreationError,
            >(e),
        },
        files_records(Seq::empty(), inode, c) == Seq::<RecordView>::empty(),
        files_records(files.push(f), inode, c) == files_records(files, inode, c) + file_records(
            f,
            (inode + files.len()) as u32,
            c,
        ),
{
    assert(dirs.push(d).drop_last() =~= dirs);
    assert(files.push(f).drop_last() =~= files);
}

/// All records of a directory, before they are ordered.
pub proof fn all_records_of_a_directory(dir: DirView, is_root: bool, inode: int, c: Context)
    ensures
        match child_records(dir.dirs, inode, c) {
            Ok(children) => raw_records(dir, is_root, inode, c) matches Ok(r) && r == seq![
                dot_record(dir, is_root, c),
            ] + seq![dotdot_record(dir, c)] + children + files_records(
                dir.files,
                inode + dir.dirs.len(),
                c,
            ),
            Err(e) => raw_records(dir, is_root, inode, c) is Err,
        },
{
    if let Ok(children) = child_records(dir.dirs, inode, c) {
        let (a, b) = (dot_record(dir, is_root, c), dotdot_record(dir, c));
        assert(seq![a, b] =~= seq![a] + seq![b]);
    }
}

/// Attributes are written where they are enabled and the namespace has them.
pub proof fn attributes_are_written_where_enabled(
    ty: EntryType,
    options: Option<RripOptions>,
    time: Seq<u8>,
    refs: Map<DirKey, DirectoryRef>,
)
    ensures
        ({
            let c = context(ty, options, time, refs);
            &&& c.ty == ty && c.fallback == time && c.refs == refs
            &&& c.has_rrip <==> ty.rrip() && (options matches Some(o) && o.enabled)
            &&& c.has_rrip ==> options == Some(c.options)
        }),
{
}

proof fn keys_without_their_first(c: u8, name: Seq<u8>)
    ensures
        (seq![c] + name).drop_first() == name,
{
    assert((seq![c] + name).drop_first() =~= name);
}

/// Records are ordered by identifier; that of the directory itself comes first and that of its
/// parent second.
pub proof fn the_directory_itself_comes_first(a: Seq<u8>, b: Seq<u8>)
    ensures
        a.len() != 1 || a[0] > 1 ==> lex_lt(sort_key(seq![0u8]), sort_key(a)) && lex_lt(
            sort_key(seq![1u8]),
            sort_key(a),
        ),
        lex_lt(sort_key(seq![0u8]), sort_key(seq![1u8])),
        (a.len() != 1 || a[0] > 1) && (b.len() != 1 || b[0] > 1) ==> (lex_lt(
            sort_key(a),
            sort_key(b),
        ) <==> lex_lt(a, b)),
        is_special(a) <==> a == seq![0u8] || a == seq![1u8],
{
    let (zero, one) = (seq![0u8], seq![1u8]);
    assert(zero[0] == 0 && one[0] == 1);
    keys_without_their_first(2, a);
    keys_without_their_first(2, b);
    if a.len() == 1 {
        if a[0] == 0 {
            assert(a =~= zero);
        } else if a[0] == 1 {
            assert(a =~= one);
        }
    }
    if a.len() != 1 || a[0] > 1 {
        assert(a != zero && a != one);
    }
    if b.len() != 1 || b[0] > 1 {
        assert(b != zero && b != one);
    }
}

/// A name that was not used yet stays; one that was gets the smallest number that makes it new.
pub proof fn used_names_get_the_smallest_number(
    name: Seq<u8>,
    seen: Set<Seq<u8>>,
    ty: EntryType,
    k: nat,
)
    requires
        first_unseen(name, k, seen, ty),
    ensures
        !seen.contains(name) ==> unique_name(name, seen, ty) == name,
        seen.contains(name) ==> unique_name(name, seen, ty) == crate::iso::dedup::dedup_name(
            name,
            k,
            ty,
        ),
        k >= 1,
        !seen.contains(crate::iso::dedup::dedup_name(name, k, ty)),
        forall|j: nat|
            1 <= j < k ==> seen.contains(#[trigger] crate::iso::dedup::dedup_name(name, j, ty)),
{
    let m = choose|m: nat| first_unseen(name, m, seen, ty);
    assert(first_unseen(name, m, seen, ty));
    if m < k {
        assert(seen.contains(crate::iso::dedup::dedup_name(name, m, ty)));
    } else if k < m {
        assert(seen.contains(crate::iso::dedup::dedup_name(name, k, ty)));
    }
}

/// The records of one file share one name: those that say that the file goes on, and the one behind
/// them.
pub proof fn records_of_a_file_belong_together(records: Seq<RecordView>, start: int)
    requires
        0 <= start < records.len(),
    ensures
        records[start].flags.bits & 0x80 == 0 ==> group_end(records, start) == start + 1,
        records[start].flags.bits & 0x80 != 0 && start + 1 < records.len() ==> group_end(
            records,
            start,
        ) == group_end(records, start + 1),
{
    crate::iso::table_laws::files_go_on_where_bit_seven_is_set(records[start].flags);
}

/// A moved directory is called `RRD` and a number of at least six digits.
pub proof fn moved_directories_are_numbered(n: nat, i: int)
    requires
        decimal(n).len() <= 6,
        0 <= i < decimal(n).len(),
    ensures
        ({
            let name = relocated_name(n);
            let zeros = 6 - decimal(n).len();
            &&& name.len() == 9
            &&& name[0] == 'R' && name[1] == 'R' && name[2] == 'D'
            &&& forall|k: int| 3 <= k < 3 + zeros ==> #[trigger] name[k] == '0'
            &&& name[3 + zeros + i] == decimal(n)[i] as char
        }),
{
    zeros_stand_in_front(decimal(n), 6);
    crate::text::decimal_is_digits(n);
    let z = zero_padded(decimal(n), 6);
    let b = relocated_prefix() + z;
    let name = relocated_name(n);
    let zeros = 6 - decimal(n).len();
    assert forall|k: int| 3 <= k < 3 + zeros implies #[trigger] name[k] == '0' by {
        assert(b[k] == z[k - 3]);
    }
    assert(b[3 + zeros + i] == z[zeros + i]);
    assert(z[zeros + i] == decimal(n)[i]);
}

/// The directory that holds moved ones is called `RR_MOVED`, with `_` and a number behind it where
/// that name is taken.
pub proof fn the_holder_has_a_name(k: nat, i: int)
    requires
        0 <= i < decimal(k).len(),
    ensures
        holder_name(0) == seq!['R', 'R', '_', 'M', 'O', 'V', 'E', 'D'],
        k > 0 ==> {
            let name = holder_name(k);
            &&& name.len() == 9 + decimal(k).len()
            &&& name.take(8) == holder_name(0)
            &&& name[8] == '_'
            &&& name[9 + i] == decimal(k)[i] as char
        },
{
    let base = holder_base();
    assert(ascii_chars(base) =~= seq!['R', 'R', '_', 'M', 'O', 'V', 'E', 'D']);
    if k > 0 {
        let b = base + seq![0x5Fu8] + decimal(k);
        assert(holder_name(k).take(8) =~= holder_name(0)) by {
            assert forall|j: int| 0 <= j < 8 implies holder_name(k)[j] == ascii_chars(base)[j] by {
                assert(b[j] == base[j]);
            }
        }
        assert(b[9 + i] == decimal(k)[i]);
    }
}

/// A directory whose level would be beyond the eighth, or whose path would have more than 255
/// bytes, is moved: a mark stays in its place, and it lies on the third level under its new name,
/// with what is still too deep below it moved as well. Every other directory stays.
pub proof fn deep_directories_are_moved(
    dirs: Seq<DirView>,
    child: DirView,
    parent: usize,
    depth: nat,
    path_len: nat,
    moved: Seq<DirView>,
    next: nat,
)
    ensures
        ({
            let r = relocate_list(dirs, parent, depth, path_len, moved, next);
            let s = relocate_list(dirs.push(child), parent, depth, path_len, moved, next);
            let len = if path_len == 0 {
                encode_utf8(child.name).len() as nat
            } else {
                path_len + 1 + encode_utf8(child.name).len()
            };
            if depth >= 8 || len > 255 {
                let name = relocated_name(r.next);
                let sub = relocate_list(
                    child.dirs,
                    child.id,
                    3,
                    8 + 1 + encode_utf8(name).len(),
                    r.moved,
                    r.next + 1,
                );
                &&& s.next == sub.next
                &&& s.retained.len() == r.retained.len() + 1
                &&& s.retained.drop_last() == r.retained
                &&& s.retained.last().relocation == (DirectoryRelocation::Placeholder {
                    target: child.id,
                })
                &&& s.retained.last().name == child.rrip_name
                &&& s.retained.last().dirs.len() == 0 && s.retained.last().files.len() == 0
                &&& s.moved.drop_last() == sub.moved
                &&& s.moved.last() == (DirView {
                    name,
                    relocation: DirectoryRelocation::Moved { id: child.id, logical_parent: parent },
                    dirs: sub.retained,
                    ..child
                })
            } else {
                let sub = relocate_list(child.dirs, child.id, depth + 1, len, r.moved, r.next);
                &&& s.next == sub.next
                &&& s.moved == sub.moved
                &&& s.retained == r.retained.push(DirView { dirs: sub.retained, ..child })
            }
        }),
{
    assert(dirs.push(child).drop_last() =~= dirs);
    let r = relocate_list(dirs, parent, depth, path_len, moved, next);
    let s = relocate_list(dirs.push(child), parent, depth, path_len, moved, next);
    assert(s.retained.drop_last() =~= r.retained);
    if depth >= 8 || child_path_len(path_len, child.name) > 255 {
        let name = relocated_name(r.next);
        let sub = relocate_list(
            child.dirs,
            child.id,
            3,
            9 + name_len(name),
            r.moved,
            r.next + 1,
        );
        assert(s.moved.drop_last() =~= sub.moved);
    }
}

/// Moving begins at the root: its children are on the second level, their paths are their names,
/// and the first moved directory has the number 1. Without a moved one nothing is added; else a
/// directory that holds them comes first.
pub proof fn moving_begins_at_the_root(root: DirView)
    ensures
        ({
            let r = relocate_list(root.dirs, root.id, 1, 0, Seq::empty(), 1);
            let new = relocated_root(root);
            &&& new.files == root.files && new.name == root.name && new.metadata == root.metadata
            &&& r.moved.len() == 0 ==> new.dirs == r.retained
            &&& r.moved.len() > 0 ==> {
                &&& new.dirs.len() == r.retained.len() + 1
                &&& new.dirs.skip(1) == r.retained
                &&& new.dirs[0].dirs == r.moved
                &&& new.dirs[0].files.len() == 0
                &&& new.dirs[0].relocation is InPlace
            }
        }),
{
    let r = relocate_list(root.dirs, root.id, 1, 0, Seq::empty(), 1);
    let new = relocated_root(root);
    if r.moved.len() > 0 {
        assert(new.dirs.skip(1) =~= r.retained);
    }
}

/// A path leads through the directories of its names to the file of the last one; the first of a
/// name is taken. `.` stands for nothing, and `..` leads nowhere.
pub proof fn paths_lead_to_files(dir: DirView, parts: Seq<Seq<u8>>, part: Seq<u8>, i: int)
    ensures
        find_parts(dir, Seq::empty()) is None,
        find_parts(dir, seq![seq!['.' as u8, '.' as u8]] + parts) is None,
        0 <= i < dir.files.len() && encode_utf8(dir.files[i].name) == part && (forall|j: int|
            0 <= j < i ==> encode_utf8(#[trigger] dir.files[j].name) != part) && part != seq![
            '.' as u8,
            '.' as u8,
        ] ==> find_parts(dir, seq![part]) == Some(dir.files[i].entry),
        (forall|j: int| 0 <= j < dir.files.len() ==> encode_utf8(#[trigger] dir.files[j].name)
            != part) ==> find_parts(dir, seq![part]) is None,
        parts.len() > 0 && 0 <= i < dir.dirs.len() && encode_utf8(dir.dirs[i].name) == part && (
        forall|j: int| 0 <= j < i ==> encode_utf8(#[trigger] dir.dirs[j].name) != part) && part
            != seq!['.' as u8, '.' as u8] ==> find_parts(dir, seq![part] + parts) == find_parts(
            dir.dirs[i],
            parts,
        ),
        parts.len() > 0 && (forall|j: int|
            0 <= j < dir.dirs.len() ==> encode_utf8(#[trigger] dir.dirs[j].name) != part)
            ==> find_parts(dir, seq![part] + parts) is None,
{
    assert((seq![part] + parts).drop_first() =~= parts);
    assert((seq![seq![0x2Eu8, 0x2Eu8]] + parts)[0] == seq![0x2Eu8, 0x2Eu8]);
    first_file_of_a_name(dir.files, part);
    first_dir_of_a_name(dir.dirs, part);
}

proof fn first_file_of_a_name(files: Seq<FileView>, name: Seq<u8>)
    ensures
        0 <= find_name(files, name) <= files.len(),
        find_name(files, name) < files.len() ==> encode_utf8(files[find_name(files, name)].name)
            == name,
        forall|j: int|
            0 <= j < find_name(files, name) ==> encode_utf8(#[trigger] files[j].name) != name,
    decreases files.len(),
{
    if files.len() > 0 && encode_utf8(files[0].name) != name {
        let rest = files.drop_first();
        first_file_of_a_name(rest, name);
        assert forall|j: int| 0 <= j < find_name(files, name) implies encode_utf8(
            #[trigger] files[j].name,
        ) != name by {
            if j > 0 {
                assert(rest[j - 1].name == files[j].name);
            }
        }
    }
}

proof fn first_dir_of_a_name(dirs: Seq<DirView>, name: Seq<u8>)
    ensures
        0 <= find_dir(dirs, name) <= dirs.len(),
        find_dir(dirs, name) < dirs.len() ==> encode_utf8(dirs[find_dir(dirs, name)].name) == name,
        forall|j: int|
            0 <= j < find_dir(dirs, name) ==> encode_utf8(#[trigger] dirs[j].name) != name,
    decreases dirs.len(),
{
    if dirs.len() > 0 && encode_utf8(dirs[0].name) != name {
        let rest = dirs.drop_first();
        first_dir_of_a_name(rest, name);
        assert forall|j: int| 0 <= j < find_dir(dirs, name) implies encode_utf8(
            #[trigger] dirs[j].name,
        ) != name by {
            if j > 0 {
                assert(rest[j - 1].name == dirs[j].name);
            }
        }
    }
}

/// The parts of a path that is looked up: those between slashes and backslashes, without `.`.
pub proof fn looked_up_paths_skip_dots(path: Seq<char>, parts: Seq<Seq<u8>>, part: Seq<u8>)
    ensures
        lookup_parts(path) == without_current(path_parts(encode_utf8(path), true)),
        without_current(Seq::empty()) == Seq::<Seq<u8>>::empty(),
        part == seq!['.' as u8] ==> without_current(parts.push(part)) == without_current(parts),
        part != seq!['.' as u8] ==> without_current(parts.push(part)) == without_current(
            parts,
        ).push(part),
{
    assert(parts.push(part).drop_last() =~= parts);
}

/// The tree that is written has the input's entries in their order, directories and files apart;
/// directories are numbered as they are entered.
pub proof fn trees_keep_the_input(dir: DirView, entries: Seq<EntryView>, entry: EntryView, id: int)
    ensures
        with_entries(dir, Seq::empty(), id) == dir,
        ({
            let before = with_entries(dir, entries, id);
            let after = with_entries(dir, entries.push(entry), id);
            let next = id + directory_count(entries);
            match entry.kind {
                KindView::Directory(children) => {
                    &&& after.files == before.files
                    &&& after.dirs == before.dirs.push(
                        with_entries(fresh_dir(entry, next), children, next + 1),
                    )
                    &&& directory_count(entries.push(entry)) == directory_count(entries) + 1
                        + directory_count(children)
                },
                _ => {
                    &&& after.dirs == before.dirs
                    &&& after.files == before.files.push(fresh_file(entry))
                    &&& directory_count(entries.push(entry)) == directory_count(entries)
                },
            }
        }),
        ({
            let d = fresh_dir(entry, id);
            &&& d.name == entry.name && d.rrip_name == entry.name && d.metadata == entry.metadata
            &&& d.dirs.len() == 0 && d.files.len() == 0 && d.relocation is InPlace
        }),
        ({
            let f = fresh_file(entry);
            &&& f.name == entry.name && f.kind == entry.kind && f.metadata == entry.metadata
            &&& f.additional_extents.len() == 0
        }),
{
    assert(entries.push(entry).drop_last() =~= entries);
}

/// Directories come before what is below them, in their order; marks of moved ones have nothing of
/// their own.
pub proof fn directories_come_before_their_children(
    dir: DirView,
    dirs: Seq<DirView>,
    path: Seq<usize>,
)
    requires
        dirs.len() < usize::MAX,
    ensures
        preorder(dir, path) == seq![path] + preorder_children(dir.dirs, path),
        preorder_children(Seq::empty(), path) == Seq::<Seq<usize>>::empty(),
        dir.relocation is Placeholder ==> preorder_children(dirs.push(dir), path)
            == preorder_children(dirs, path),
        !(dir.relocation is Placeholder) ==> preorder_children(dirs.push(dir), path)
            == preorder_children(dirs, path) + preorder(dir, path.push(dirs.len() as usize)),
{
    assert(dirs.push(dir).drop_last() =~= dirs);
    assert(preorder_children(dirs, path) + Seq::<Seq<usize>>::empty() =~= preorder_children(
        dirs,
        path,
    ));
}

/// Files with contents are those that get a place, in their order.
pub proof fn files_with_contents_get_a_place(files: Seq<FileView>, path: Seq<usize>, n: int)
    requires
        0 < n <= files.len() <= usize::MAX,
    ensures
        data_files(files, path, 0) == Seq::<(Seq<usize>, usize)>::empty(),
        (files[n - 1].kind matches KindView::File(contents) && contents.len() > 0) ==> data_files(
            files,
            path,
            n,
        ) == data_files(files, path, n - 1).push((path, (n - 1) as usize)),
        !(files[n - 1].kind matches KindView::File(contents) && contents.len() > 0) ==> data_files(
            files,
            path,
            n,
        ) == data_files(files, path, n - 1),
{
}

/// Where a directory that holds moved ones is added, its name is the first that is free: no
/// directory of the root has it, and those that come before it are all taken.
pub proof fn the_holder_takes_the_first_free_name(root: DirView, k: nat)
    requires
        ({
            let r = relocate_list(root.dirs, root.id, 1, 0, Seq::empty(), 1);
            &&& r.moved.len() > 0
            &&& forall|i: int|
                0 <= i < r.retained.len() ==> (#[trigger] r.retained[i]).name != holder_name(k)
            &&& forall|j: nat|
                j < k ==> exists|i: int|
                    0 <= i < r.retained.len() && (#[trigger] r.retained[i]).name
                        == #[trigger] holder_name(j)
        }),
    ensures
        relocated_root(root).dirs[0].name == holder_name(k),
        relocated_root(root).dirs[0].rrip_name == holder_name(k),
{
    let r = relocate_list(root.dirs, root.id, 1, 0, Seq::empty(), 1);
    assert(!name_taken(r.retained, holder_name(k)));
    assert forall|j: nat| j < k implies name_taken(r.retained, #[trigger] holder_name(j)) by {
        let i = choose|i: int|
            0 <= i < r.retained.len() && (#[trigger] r.retained[i]).name == holder_name(j);
        assert(r.retained[i].name == holder_name(j));
    }
    assert(first_free(r.retained, k));
    let m = choose|m: nat| first_free(r.retained, m);
    assert(first_free(r.retained, m));
    if m < k {
        assert(name_taken(r.retained, holder_name(m)));
    } else if k < m {
        assert(name_taken(r.retained, holder_name(k)));
    }
}

/// The directories of a path table level, and the records of a directory, are in order: none comes
/// behind one with a greater key.
pub proof fn directories_and_records_are_sorted(
    dirs: Seq<DirView>,
    ty: EntryType,
    records: Seq<RecordView>,
    i: int,
    j: int,
)
    requires
        0 <= i < j,
    ensures
        ordered(dirs, ty).len() == kept(dirs).len(),
        j < kept(dirs).len() ==> {
            &&& !lex_lt(
                base_identifier(ty, ordered(dirs, ty)[j].name),
                base_identifier(ty, ordered(dirs, ty)[i].name),
            )
            &&& kept(dirs).contains(ordered(dirs, ty)[i])
        },
        sorted(records).len() == records.len(),
        j < records.len() ==> {
            &&& !lex_lt(sort_key(sorted(records)[j].name), sort_key(sorted(records)[i].name))
            &&& records.contains(sorted(records)[i])
        },
{
    let some = kept(dirs);
    let keys = identifiers(some, ty);
    stable_order_exists(keys);
    let perm = choose|perm: Seq<int>| stable_order(keys, perm);
    assert(stable_order(keys, perm));
    if j < some.len() {
        let (a, b) = (perm[i], perm[j]);
        assert(0 <= a < keys.len() && 0 <= b < keys.len());
        assert(before(keys, perm[i], perm[j]));
        lex_lt_total(keys[a], keys[b]);
        assert(ordered(dirs, ty)[i] == some[a]);
        assert(ordered(dirs, ty)[j] == some[b]);
    }
    let keys = sort_keys(records);
    stable_order_exists(keys);
    let perm = choose|perm: Seq<int>| stable_order(keys, perm);
    assert(stable_order(keys, perm));
    if j < records.len() {
        let (a, b) = (perm[i], perm[j]);
        assert(0 <= a < keys.len() && 0 <= b < keys.len());
        assert(before(keys, perm[i], perm[j]));
        lex_lt_total(keys[a], keys[b]);
        assert(sorted(records)[i] == records[a]);
        assert(sorted(records)[j] == records[b]);
    }
}

/// The directories that were moved, found again in the tree: a moved one with the number it had and
/// its parent's, then those below it.
pub proof fn moved_directories_are_found(dirs: Seq<DirView>, d: DirView)
    ensures
        moved_in_list(Seq::empty()) == Seq::<MovedView>::empty(),
        moved_in_list(dirs.push(d)) == moved_in_list(dirs) + moved_in(d),
        d.relocation matches DirectoryRelocation::Moved { id, logical_parent } ==> moved_in(d)
            == seq![MovedView { id, logical_parent, entries: d.entries }] + moved_in_list(d.dirs),
        !(d.relocation is Moved) ==> moved_in(d) == moved_in_list(d.dirs),
{
    assert(dirs.push(d).drop_last() =~= dirs);
    assert(Seq::<MovedView>::empty() + moved_in_list(d.dirs) =~= moved_in_list(d.dirs));
}

} // verus!
