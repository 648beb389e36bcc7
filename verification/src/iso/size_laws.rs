//! What an estimate of an image's size counts.

#[allow(unused_imports)]
use crate::iso::boot::{base_flaw, first_directory, validation_flaw, BootEntryOptions, BootError};
#[allow(unused_imports)]
use crate::iso::chunk::ChunkError;
#[allow(unused_imports)]
use crate::iso::error::{IdentifierField, IsoCreationError};
#[allow(unused_imports)]
use crate::iso::estimator::{
    any_rrip, area_space, area_total, areas_len, digits, dir_space, dir_total, directories_len,
    entry_stats, estimated_name_len, estimated_overflow, estimated_record, fields_len, filled,
    is_estimate, list_stats, longest_name_len, packed_sectors, path_table_len, path_tables_len,
    record_count, sectors, suffix_room, tree_stats, usual_of, usual_table_len, whole, widest_record,
    IsoSizeEstimate, Stats,
};
#[allow(unused_imports)]
use crate::iso::gather::{by_name, name_key, name_keys};
#[allow(unused_imports)]
use crate::iso::image::table_end;
#[allow(unused_imports)]
use crate::iso::layout::record_size;
#[allow(unused_imports)]
use crate::iso::name::first_dot_bounds;
#[allow(unused_imports)]
use crate::iso::options::{
    entry_types_of, plain_level, scheme_of, BaseIsoLevel, CreationFeatures, PartitionScheme,
};
#[allow(unused_imports)]
use crate::iso::order::{stable_order, stable_order_exists};
#[allow(unused_imports)]
use crate::iso::plan::{inode_step, records_of, ref_map, with_key};
#[allow(unused_imports)]
use crate::iso::records::{context, deduped, dir_fits, nlink_of, raw_records, sorted, RecordView};
#[allow(unused_imports)]
use crate::iso::refmap::DirKey;
#[allow(unused_imports)]
use crate::iso::susp::{concat, sl_fields};
#[allow(unused_imports)]
use crate::iso::tree::{
    entries_view, files_view, no_metadata, relocates, EntryView, File, InputEntry, InputEntryKind,
    KindView,
};
#[allow(unused_imports)]
use crate::iso::types::{
    empty_ref, rrip_disabled, rrip_full, DirectoryRef, EntryType, JolietLevel, RripOptions,
};
#[allow(unused_imports)]
use crate::iso::usual_size::{entry_usual, list_usual, tree_usual, usual_record, usual_total, Usual};
#[allow(unused_imports)]
use crate::iso::written::{dir_at, DirView, DirectoryRelocation};
#[allow(unused_imports)]
use crate::text::utf16;
use vstd::prelude::*;
#[allow(unused_imports)]
use vstd::std_specs::convert::FromSpec;
#[allow(unused_imports)]
use vstd::utf8::encode_utf8;

verus! {

/// The smaller of two numbers.
pub open spec fn at_most(a: int, b: int) -> int {
    if a <= b {
        a
    } else {
        b
    }
}

/// How long an identifier is taken to be: at most 8 bytes before the first dot and 3 behind it in
/// the first form, 30 in the second and 207 in the third, with a version in the first two; at most
/// 103 code units of two bytes in Joliet.
pub proof fn identifiers_are_estimated(name: Seq<char>, ty: EntryType, p: int)
    requires
        0 <= p <= encode_utf8(name).len(),
        p < encode_utf8(name).len() ==> encode_utf8(name)[p] == '.' as u32,
        forall|i: int| 0 <= i < p ==> encode_utf8(name)[i] != '.' as u32,
    ensures
        ({
            let n = encode_utf8(name).len() as int;
            let r = estimated_name_len(name, ty);
            &&& ty is Level1 && p == n ==> r == at_most(n, 8) + 2
            &&& ty is Level1 && p < n ==> r == at_most(p, 8) + 1 + at_most(n - p - 1, 3) + 2
            &&& ty is Level2 ==> r == at_most(n, 30) + 2
            &&& ty is Level3 ==> r == at_most(n, 207)
            &&& ty is Joliet ==> r == 2 * at_most(utf16(name).len() as int, 103)
        }),
{
    first_dot_bounds(encode_utf8(name));
}

/// A number has one digit more than a tenth of it.
pub proof fn digits_are_counted(n: int, d: int)
    requires
        0 < n,
        0 <= d < 10,
    ensures
        digits(d) == 1,
        digits(10 * n + d) == 1 + digits(n),
{
    assert((10 * n + d) / 10 == n);
}

/// The room for a number that tells names apart: `_` and the digits, in Joliet twice as much.
pub proof fn numbers_take_room(ty: EntryType, n: int)
    ensures
        ty is Joliet ==> suffix_room(ty, n) == 2 * (1 + digits(n + 5)),
        !(ty is Joliet) ==> suffix_room(ty, n) == 1 + digits(n + 5),
{
}

/// What an entry's fields take: 44 bytes for its attributes, 26 for its times, its name with 5
/// bytes for each 250 it begins, and what its kind needs: the link, a device's numbers, or the
/// field that leads to a moved directory.
pub proof fn fields_are_estimated(entry: EntryView)
    ensures
        ({
            let n = encode_utf8(entry.name).len() as int;
            let kind = match entry.kind {
                KindView::Symlink(target) => concat(sl_fields(encode_utf8(target))).len() as int,
                KindView::CharacterDevice(..) => 20,
                KindView::BlockDevice(..) => 20,
                KindView::Directory(_) => 12,
                KindView::File(_) => 0,
            };
            fields_len(entry) == 44 + 26 + (n + 5 * (n / 250 + 1)) + kind
        }),
{
}

/// A file has a record for each 0xFFFFF800 bytes it begins, and one where it has none; anything
/// else has one.
pub proof fn records_are_counted(kind: KindView)
    ensures
        !(kind is File) ==> record_count(kind) == 1,
        kind matches KindView::File(contents) ==> {
            &&& contents.len() == 0 ==> record_count(kind) == 1
            &&& contents.len() > 0 ==> (record_count(kind) - 1) * 0xFFFFF800 < contents.len()
                <= record_count(kind) * 0xFFFFF800
        },
{
}

/// What an entry's records take at most: 33 bytes, the identifier and the room for a number, filled
/// up to an even length, for the first with the fields, and never more than 255 bytes each.
pub proof fn records_are_estimated(entry: EntryView, ty: EntryType, n: int)
    ensures
        ({
            let raw = 33 + estimated_name_len(entry.name, ty) + suffix_room(ty, n);
            let plain = raw + raw % 2;
            let fields = if ty.rrip() {
                fields_len(entry)
            } else {
                0
            };
            estimated_record(entry, ty, n) == at_most(plain + fields, 255) + (record_count(
                entry.kind,
            ) - 1) * at_most(plain, 255)
        }),
        dir_total(Seq::empty(), ty, n) == (if ty.rrip() {
            384int
        } else {
            68
        }),
{
}

/// The records of a directory add up, and so does what may lie behind it; an entry whose fields fit
/// a record of 256 bytes has nothing there.
pub proof fn directories_are_estimated(
    entries: Seq<EntryView>,
    entry: EntryView,
    ty: EntryType,
    n: int,
)
    ensures
        dir_total(entries.push(entry), ty, n) == dir_total(entries, ty, n) + estimated_record(
            entry,
            ty,
            n,
        ),
        area_total(Seq::empty(), ty) == 0,
        area_total(entries.push(entry), ty) == area_total(entries, ty) + estimated_overflow(
            entry,
            ty,
        ),
        ({
            let raw = 33 + estimated_name_len(entry.name, ty);
            estimated_overflow(entry, ty) == (if raw + raw % 2 + fields_len(entry) > 256 {
                fields_len(entry)
            } else {
                0
            })
        }),
{
    assert(entries.push(entry).drop_last() =~= entries);
}

/// How many sectors records take: one where they all fit; else as many as are needed where each
/// sector may stay empty by one byte less than the widest record.
pub proof fn packing_is_estimated(total: int, widest: int, ty: EntryType, n: int)
    requires
        0 < widest <= 2048,
    ensures
        total <= 2048 ==> packed_sectors(total, widest, 2048) == 1,
        total > 2048 ==> packed_sectors(total, widest, 2048) == total / (2049 - widest) + 1,
        ty.rrip() ==> widest_record(ty, n) == 255,
        !ty.rrip() ==> {
            let longest = match ty {
                EntryType::Level1 { .. } => 14int,
                EntryType::Level2 { .. } => 32,
                EntryType::Level3 { .. } => 207,
                EntryType::Joliet { .. } => 206,
            };
            let raw = 33 + longest + suffix_room(ty, n);
            widest_record(ty, n) == at_most(raw + raw % 2, 255)
        },
{
}

/// The sums over a tree: a file counts its contents in whole sectors, a directory its name, its
/// fields and what it holds, in each namespace.
pub proof fn trees_are_added_up(
    entries: Seq<EntryView>,
    entry: EntryView,
    types: Seq<EntryType>,
    ty: EntryType,
    s: int,
)
    ensures
        ({
            let (a, b, c) = (
                list_stats(entries, types, s),
                entry_stats(entry, types, s),
                list_stats(entries.push(entry), types, s),
            );
            &&& c.dirs == a.dirs + b.dirs
            &&& c.files == a.files + b.files
            &&& c.file_bytes == a.file_bytes + b.file_bytes
            &&& c.name_bytes == a.name_bytes + b.name_bytes
            &&& c.record_bytes == a.record_bytes + b.record_bytes
            &&& c.area_bytes == a.area_bytes + b.area_bytes
            &&& c.field_bytes == a.field_bytes + b.field_bytes
        }),
        ({
            let e = list_stats(Seq::empty(), types, s);
            e.dirs == 0 && e.files == 0 && e.file_bytes == 0 && e.name_bytes == 0 && e.record_bytes
                == 0 && e.area_bytes == 0 && e.field_bytes == 0
        }),
        entry.kind matches KindView::File(contents) ==> {
            let e = entry_stats(entry, types, s);
            &&& e.files == 1 && e.dirs == 0
            &&& e.file_bytes == whole(contents.len() as int, s)
            &&& e.name_bytes == 0 && e.record_bytes == 0 && e.area_bytes == 0 && e.field_bytes == 0
        },
        entry.kind matches KindView::Directory(children) ==> {
            let (e, t) = (entry_stats(entry, types, s), tree_stats(children, types, s));
            &&& e.dirs == t.dirs + 1
            &&& e.files == t.files
            &&& e.file_bytes == t.file_bytes
            &&& e.name_bytes == t.name_bytes + longest_name_len(entry.name, types)
            &&& e.field_bytes == t.field_bytes + fields_len(entry)
            &&& e.record_bytes == t.record_bytes
            &&& e.area_bytes == t.area_bytes
        },
        ({
            let (t, l) = (tree_stats(entries, types, s), list_stats(entries, types, s));
            &&& t.dirs == l.dirs && t.files == l.files && t.file_bytes == l.file_bytes
                && t.name_bytes == l.name_bytes && t.field_bytes == l.field_bytes
            &&& t.record_bytes == l.record_bytes + dir_space(entries, types, s)
            &&& t.area_bytes == l.area_bytes + area_space(entries, types, s)
        }),
        dir_space(entries, Seq::empty(), s) == 0,
        dir_space(entries, types.push(ty), s) == dir_space(entries, types, s) + packed_sectors(
            dir_total(entries, ty, entries.len() as int),
            widest_record(ty, entries.len() as int),
            s,
        ) * s,
        area_space(entries, Seq::empty(), s) == 0,
        area_space(entries, types.push(ty), s) == area_space(entries, types, s) + (if ty.rrip() {
            whole(area_total(entries, ty), s)
        } else {
            0
        }),
        longest_name_len(entry.name, Seq::empty()) == 0,
        longest_name_len(entry.name, types.push(ty)) >= longest_name_len(entry.name, types),
        longest_name_len(entry.name, types.push(ty)) >= estimated_name_len(entry.name, ty),
        longest_name_len(entry.name, types.push(ty)) == longest_name_len(entry.name, types)
            || longest_name_len(entry.name, types.push(ty)) == estimated_name_len(entry.name, ty),
{
    assert(entries.push(entry).drop_last() =~= entries);
    assert(types.push(ty).drop_last() =~= types);
}

/// What a path table takes at most: ten bytes for the root, and for each directory eight, its name
/// and one to fill up; where directories are moved also their new names and their holder's.
pub proof fn path_tables_are_estimated(stats: Stats, features: CreationFeatures, s: int)
    ensures
        path_table_len(stats, false) == 10 + 9 * stats.dirs + stats.name_bytes,
        stats.dirs < 1000000 ==> path_table_len(stats, true) == 10 + 9 * stats.dirs
            + stats.name_bytes + 67 + 18 * stats.dirs,
        stats.dirs >= 1000000 ==> path_table_len(stats, true) == 10 + 9 * stats.dirs
            + stats.name_bytes + 67 + 46 * stats.dirs,
        path_tables_len(stats, features, s) == sectors(
            path_table_len(stats, relocates(features.rock_ridge)),
            s,
        ) * 2 * entry_types_of(features).len() * s,
{
    let d = stats.dirs;
    assert(d * 18 == 18 * d && d * 46 == 46 * d) by (nonlinear_arith);
}

/// How the usual size is counted: a record has 33 bytes and the identifier, filled up, with
/// fields 68 more, its name and what its kind needs, at most 256; a directory begins with 68
/// bytes, or 384 with fields, and takes whole sectors.
pub proof fn usual_records_are_counted(
    entries: Seq<EntryView>,
    entry: EntryView,
    types: Seq<EntryType>,
    s: int,
)
    ensures
        ({
            let raw = 33 + estimated_name_len(entry.name, types[0]);
            let plain = raw + raw % 2;
            let kind = match entry.kind {
                KindView::Symlink(target) => (encode_utf8(target).len() + 8) as int,
                KindView::CharacterDevice(..) => 20int,
                KindView::BlockDevice(..) => 20int,
                _ => 0int,
            };
            usual_record(entry, types) == (if any_rrip(types) {
                at_most(plain + 68 + encode_utf8(entry.name).len() + kind, 256)
            } else {
                plain
            })
        }),
        usual_total(Seq::empty(), types) == (if any_rrip(types) {
            384int
        } else {
            68
        }),
        usual_total(entries.push(entry), types) == usual_total(entries, types) + usual_record(
            entry,
            types,
        ),
        ({
            let (a, b, c) = (
                list_usual(entries, types, s),
                entry_usual(entry, types, s),
                list_usual(entries.push(entry), types, s),
            );
            c.name_bytes == a.name_bytes + b.name_bytes && c.record_bytes == a.record_bytes
                + b.record_bytes
        }),
        entry.kind matches KindView::Directory(children) ==> {
            let (e, t) = (entry_usual(entry, types, s), tree_usual(children, types, s));
            e.name_bytes == t.name_bytes + estimated_name_len(entry.name, types[0])
                && e.record_bytes == t.record_bytes
        },
        !(entry.kind is Directory) ==> entry_usual(entry, types, s).name_bytes == 0 && entry_usual(
            entry,
            types,
            s,
        ).record_bytes == 0,
        ({
            let (t, l) = (tree_usual(entries, types, s), list_usual(entries, types, s));
            t.name_bytes == l.name_bytes && t.record_bytes == l.record_bytes + whole(
                usual_total(entries, types),
                s,
            )
        }),
{
    assert(entries.push(entry).drop_last() =~= entries);
}

/// The usual size of path tables, directories and areas behind them.
pub proof fn usual_parts_are_counted(stats: Stats, usual: Usual, features: CreationFeatures, s: int)
    ensures
        ({
            let n = entry_types_of(features).len() as int;
            let moving = relocates(features.rock_ridge);
            let u = usual_of(stats, usual, features, s);
            let table = sectors(10 + 9 * stats.dirs + usual.name_bytes, s);
            &&& !moving ==> u.2 == table * 2 * n * s && u.3 == usual.record_bytes * n
            &&& moving ==> u.2 == table * 2 * n * s + n * 2 * s && u.3 == usual.record_bytes * n + (
            stats.dirs + 1) * n * s
            &&& any_rrip(entry_types_of(features)) ==> u.4 == (stats.dirs + 1) * s
            &&& !any_rrip(entry_types_of(features)) ==> u.4 == 0
        }),
{
    assert(usual_table_len(stats, usual) == 10 + 9 * stats.dirs + usual.name_bytes);
}

/// Entries that were gathered are in the order of their names, those with the same name as they
/// came.
pub proof fn gathered_entries_are_in_order(entries: Seq<EntryView>, i: int, j: int)
    requires
        0 <= i < j < entries.len(),
    ensures
        by_name(entries).len() == entries.len(),
        !crate::iso::order::lex_lt(
            name_key(by_name(entries)[j].name),
            name_key(by_name(entries)[i].name),
        ),
        entries.contains(by_name(entries)[i]),
{
    let keys = name_keys(entries);
    stable_order_exists(keys);
    let perm = choose|perm: Seq<int>| stable_order(keys, perm);
    assert(stable_order(keys, perm));
    let (a, b) = (perm[i], perm[j]);
    assert(0 <= a < keys.len() && 0 <= b < keys.len());
    assert(crate::iso::order::before(keys, perm[i], perm[j]));
    crate::iso::order::lex_lt_total(keys[a], keys[b]);
    assert(by_name(entries)[i] == entries[a]);
    assert(by_name(entries)[j] == entries[b]);
}

/// The first two entries of a catalog are in order where the first is and the second can be
/// started.
pub proof fn catalogs_begin_with_two_entries(data: Seq<u8>)
    ensures
        data.len() < 32 ==> base_flaw(data) == Some(BootError::Io),
        data.len() >= 32 && validation_flaw(data.take(32)) is Some ==> base_flaw(data)
            == validation_flaw(data.take(32)),
        data.len() >= 32 && validation_flaw(data.take(32)) is None && data.len() < 64 ==> base_flaw(
            data,
        ) == Some(BootError::Io),
        data.len() >= 64 && validation_flaw(data.take(32)) is None && data[32] != 0x88
            ==> base_flaw(data) == Some(BootError::InvalidDefaultEntry),
        data.len() >= 64 && validation_flaw(data.take(32)) is None && data[32] == 0x88
            ==> base_flaw(data) is None,
{
}

/// The first directory among entries, or the first place where there is none.
pub proof fn the_first_directory_is_found(entries: Seq<EntryView>, i: int)
    requires
        0 <= i < entries.len(),
    ensures
        entries[i].kind is Directory && (forall|j: int|
            0 <= j < i ==> !((#[trigger] entries[j]).kind is Directory)) ==> first_directory(entries)
            == i,
        (forall|j: int| 0 <= j < entries.len() ==> !((#[trigger] entries[j]).kind is Directory))
            ==> first_directory(entries) == 0,
    decreases entries.len(),
{
    if entries[i].kind is Directory && (forall|j: int|
        0 <= j < i ==> !((#[trigger] entries[j]).kind is Directory)) {
        if i > 0 {
            let rest = entries.drop_first();
            assert(rest[i - 1] == entries[i]);
            assert forall|j: int| 0 <= j < i - 1 implies !((#[trigger] rest[j]).kind is Directory) by {
                assert(rest[j] == entries[j + 1]);
            }
            the_first_directory_is_found(rest, i - 1);
            assert(!(entries[0].kind is Directory));
        }
    }
}

/// How errors are told apart: by what the caller asked for, by what does not exist, by data that
/// ends too soon, and by data that does not fit together.
pub proof fn errors_have_their_kinds(e: IsoCreationError)
    ensures
        e.spec_kind() is NotFound <==> e is BootImageNotFound || e is BootCatalogNotFound || e
            is EfiImageNotFound,
        e.spec_kind() is UnexpectedEof <==> e is UnexpectedEnd,
        e.spec_kind() is InvalidInput <==> e is SectorSize || e is DirectoryLimits || e
            is SymlinkUnsupported || e is DeviceUnsupported || e is Identifier || e
            is BootImageTooSmall || e is HybridMbr || e is RecordTooLong || e is TooManyEntries || e
            is TooManyDirectories || e is TooLarge,
        ChunkError::ZeroChunk.spec_kind() is InvalidInput,
        ChunkError::ChainEnded.spec_kind() is InvalidData,
        ChunkError::UnexpectedEnd.spec_kind() is UnexpectedEof,
{
}

/// What each error says.
pub proof fn errors_have_their_messages()
    ensures
        IsoCreationError::SectorSize.text() == "ISO creation requires 2048-byte logical sectors"@,
        IsoCreationError::DirectoryLimits.text()
            == "directory depth or path length exceeds ISO 9660 limits and RRIP relocation is disabled"@,
        IsoCreationError::SymlinkUnsupported.text()
            == "symbolic links require RRIP preserve_symlinks"@,
        IsoCreationError::DeviceUnsupported.text()
            == "device entries require RRIP preserve_devices"@,
        IsoCreationError::Identifier(IdentifierField::VolumeName).text() == "volume name"@,
        IsoCreationError::Identifier(IdentifierField::System).text() == "system identifier"@,
        IsoCreationError::Identifier(IdentifierField::VolumeSet).text() == "volume set identifier"@,
        IsoCreationError::Identifier(IdentifierField::Publisher).text() == "publisher identifier"@,
        IsoCreationError::Identifier(IdentifierField::Preparer).text() == "preparer identifier"@,
        IsoCreationError::Identifier(IdentifierField::Application).text()
            == "application identifier"@,
        IsoCreationError::RelocationTarget.text() == "relocated directory extent was not written"@,
        IsoCreationError::DirectoryPrediction.text()
            == "directory prediction did not match the written layout"@,
        IsoCreationError::ExtentPrediction.text() == "extent prediction did not match"@,
        IsoCreationError::BootImageNotFound.text() == "boot image file not found"@,
        IsoCreationError::BootImageTooSmall.text()
            == "boot image too small for boot info table (minimum 64 bytes)"@,
        IsoCreationError::BootCatalogNotFound.text() == "boot.catalog not found"@,
        IsoCreationError::BootCatalogTooSmall.text() == "boot.catalog too small"@,
        IsoCreationError::UnexpectedEnd.text() == "unexpected end of the image"@,
        IsoCreationError::GptTooSmall.text() == "image too small for a GPT partition table"@,
        IsoCreationError::EfiImageNotFound.text()
            == "EFI boot partition image not found in the ISO tree"@,
        IsoCreationError::EfiImageOutside.text()
            == "EFI boot partition lies outside the ISO data area"@,
        IsoCreationError::HybridMbr.text() == "invalid hybrid MBR"@,
        IsoCreationError::RecordTooLong.text() == "directory record exceeds 255 bytes"@,
        IsoCreationError::TooManyEntries.text() == "too many entries"@,
        IsoCreationError::TooManyDirectories.text() == "too many directories for a path table"@,
        IsoCreationError::TooLarge.text() == "image too large"@,
{
}

/// What the two ready-made choices of attributes keep: nothing and everything.
pub proof fn ready_made_attributes()
    ensures
        ({
            let o = rrip_disabled();
            !o.enabled && !o.relocate_deep_dirs && !o.preserve_permissions && !o.preserve_ownership
                && !o.preserve_timestamps && !o.preserve_symlinks && !o.preserve_devices
        }),
        ({
            let o = rrip_full();
            o.enabled && o.relocate_deep_dirs && o.preserve_permissions && o.preserve_ownership
                && o.preserve_timestamps && o.preserve_symlinks && o.preserve_devices
        }),
{
}

/// What the ready-made choices of features start from: short names in capitals. The partition scheme
/// is that of the hybrid boot, where there is one; nothing is known of an entry at first.
pub proof fn ready_made_features(features: CreationFeatures, supports_rrip: bool)
    ensures
        plain_level(supports_rrip) == (BaseIsoLevel::Level1 {
            supports_lowercase: false,
            supports_rrip,
        }),
        features.hybrid_boot is None ==> scheme_of(features) is None,
        features.hybrid_boot matches Some(h) ==> scheme_of(features) == Some(h.partition_scheme),
        ({
            let m = no_metadata();
            m.mode is None && m.uid is None && m.gid is None && m.created is None && m.modified is None
                && m.accessed is None
        }),
{
}

/// The namespace of a level: level 3 differs from level 2 in the sizes of files alone, and Joliet
/// has no attributes.
pub proof fn levels_have_their_namespaces(level: BaseIsoLevel, joliet: JolietLevel)
    ensures
        level matches BaseIsoLevel::Level1 { supports_lowercase, supports_rrip } ==> (<EntryType as
        FromSpec<BaseIsoLevel>>::from_spec(level) == EntryType::Level1 {
            supports_lowercase,
            supports_rrip,
        }),
        level matches BaseIsoLevel::Level2 { supports_lowercase, supports_rrip } ==> (<EntryType as
        FromSpec<BaseIsoLevel>>::from_spec(level) == EntryType::Level2 {
            supports_lowercase,
            supports_rrip,
        }),
        level matches BaseIsoLevel::Level3 { supports_lowercase, supports_rrip } ==> (<EntryType as
        FromSpec<BaseIsoLevel>>::from_spec(level) == EntryType::Level2 {
            supports_lowercase,
            supports_rrip,
        }),
        <EntryType as FromSpec<JolietLevel>>::from_spec(joliet) == (EntryType::Joliet {
            level: joliet,
            supports_rrip: false,
        }),
{
}

/// What a copy of the options of a boot entry has in common with them: everything.
pub proof fn copies_of_boot_options(a: BootEntryOptions, b: BootEntryOptions)
    ensures
        a.same(&b) <==> a.load_size == b.load_size && a.boot_image_path@ == b.boot_image_path@
            && a.boot_info_table == b.boot_info_table && a.grub2_boot_info == b.grub2_boot_info
            && a.emulation == b.emulation,
{
}

/// Where the partition table ends: an MBR takes a block of 512 bytes, a GPT that and 33 more, and
/// without a table nothing is taken.
pub proof fn partition_tables_end(features: CreationFeatures)
    ensures
        features.hybrid_boot is None ==> table_end(features) == 0,
        features.hybrid_boot matches Some(h) ==> table_end(features) == 512 * (
        match h.partition_scheme {
            PartitionScheme::NoTable => 0int,
            PartitionScheme::Mbr => 1,
            PartitionScheme::Gpt => 34,
            PartitionScheme::Hybrid => 34,
        }),
{
}

/// A file of a plain tree is an entry with its name and contents, a directory one with its name and
/// its children in order; nothing else is known of them.
pub proof fn plain_files_become_entries(files: Seq<File>, i: int)
    requires
        0 <= i < files.len(),
    ensures
        files_view(files).len() == files.len(),
        files_view(files)[i].metadata == no_metadata(),
        files[i] matches File::File { name, contents } ==> files_view(files)[i].name == name@
            && files_view(files)[i].kind == KindView::File(contents@),
        files[i] matches File::Directory { name, children } ==> files_view(files)[i].name == name@
            && files_view(files)[i].kind == KindView::Directory(files_view(children@)),
{
    if let File::Directory { name, children } = files[i] {
        if let KindView::Directory(list) = files[i].view().kind {
            assert(list =~= files_view(children@));
        }
    }
}

/// An entry is what was put in: its name, what is known of it, and what kind of thing it is.
pub proof fn entries_are_what_was_put_in(entries: Seq<InputEntry>, i: int)
    requires
        0 <= i < entries.len(),
    ensures
        entries_view(entries).len() == entries.len(),
        ({
            let e = entries_view(entries)[i];
            &&& e.name == entries[i].name@
            &&& e.metadata == entries[i].metadata
            &&& entries[i].kind matches InputEntryKind::File(contents) ==> e.kind == KindView::File(
                contents@,
            )
            &&& entries[i].kind matches InputEntryKind::Directory(children) ==> e.kind
                == KindView::Directory(entries_view(children@))
            &&& entries[i].kind matches InputEntryKind::Symlink(target) ==> e.kind
                == KindView::Symlink(target@)
            &&& entries[i].kind matches InputEntryKind::CharacterDevice { major, minor } ==> e.kind
                == KindView::CharacterDevice(major, minor)
            &&& entries[i].kind matches InputEntryKind::BlockDevice { major, minor } ==> e.kind
                == KindView::BlockDevice(major, minor)
        }),
{
    if let InputEntryKind::Directory(children) = entries[i].kind {
        if let KindView::Directory(list) = entries[i].view().kind {
            assert(list =~= entries_view(children@));
        }
    }
}

/// A directory has a link from its parent, one from itself and one from each directory in it.
pub proof fn directories_count_their_links(dir: DirView)
    requires
        dir.dirs.len() + 2 <= u32::MAX,
    ensures
        nlink_of(dir) == dir.dirs.len() + 2,
{
}

/// The extents of directories are gathered one by one, each under the number of its directory and
/// its namespace; a place that is not known is sector 0 with no bytes.
pub proof fn places_are_gathered_one_by_one(
    root: DirView,
    jobs: Seq<(Seq<usize>, EntryType)>,
    job: (Seq<usize>, EntryType),
    refs: Seq<DirectoryRef>,
)
    ensures
        ref_map(root, Seq::empty(), refs) == Map::<DirKey, DirectoryRef>::empty(),
        ref_map(root, jobs.push(job), refs) == with_key(
            ref_map(root, jobs, refs),
            dir_at(root, job.0),
            job.1,
            refs[jobs.len() as int],
        ),
        empty_ref().extent.0 == 0 && empty_ref().size == 0,
{
    assert(jobs.push(job).drop_last() =~= jobs);
}

/// A file has as many bytes as its contents; nothing else has a length.
pub proof fn only_files_have_a_length(kind: InputEntryKind)
    ensures
        kind matches InputEntryKind::File(contents) ==> (kind.spec_file_len() matches Some(n) && n
            == contents@.len()),
        !(kind is File) ==> kind.spec_file_len() is None,
{
    if let InputEntryKind::File(contents) = kind {
        assert(contents@.len() == contents.len());
    }
}

/// The records of a directory are told apart and put in order; one of more than 255 bytes is
/// refused. Where attributes are written each entry has a number.
pub proof fn records_are_ordered_and_limited(
    dir: DirView,
    is_root: bool,
    ty: EntryType,
    inode: int,
    rrip: Option<RripOptions>,
    time: Seq<u8>,
    refs: Map<DirKey, DirectoryRef>,
)
    ensures
        ({
            let numbers = if ty.rrip() && (rrip matches Some(o) && o.enabled) {
                dir.dirs.len() + dir.files.len()
            } else {
                0
            };
            let r = records_of(dir, is_root, ty, inode, rrip, time, refs);
            &&& inode_step(dir, ty, rrip) == numbers
            &&& inode + numbers > 0xFFFFFFFF ==> r == Err::<Seq<RecordView>, IsoCreationError>(
                IsoCreationError::TooManyEntries,
            )
            &&& dir_fits(dir, ty) && inode + numbers <= 0xFFFFFFFF ==> match raw_records(
                dir,
                is_root,
                inode,
                context(ty, rrip, time, refs),
            ) {
                Err(e) => r == Err::<Seq<RecordView>, IsoCreationError>(e),
                Ok(raw) => {
                    let all = sorted(deduped(raw, ty));
                    &&& (forall|i: int|
                        0 <= i < all.len() ==> record_size(#[trigger] all[i]) <= 255) ==> r == Ok::<
                        Seq<RecordView>,
                        IsoCreationError,
                    >(all)
                    &&& (exists|i: int|
                        0 <= i < all.len() && record_size(#[trigger] all[i]) > 255) ==> r == Err::<
                        Seq<RecordView>,
                        IsoCreationError,
                    >(IsoCreationError::RecordTooLong)
                },
            }
        }),
{
}

/// A directory is known by its number in each namespace, a moved one also by the number it had.
pub proof fn directories_are_known_by_number(
    refs: Map<DirKey, DirectoryRef>,
    dir: DirView,
    ty: EntryType,
    r: DirectoryRef,
)
    ensures
        ({
            let more = with_key(refs, dir, ty, r);
            &&& more[DirKey { id: dir.id, ty }] == r
            &&& more.dom().contains(DirKey { id: dir.id, ty })
            &&& dir.relocation matches DirectoryRelocation::Moved { id, .. } ==> more[DirKey {
                id,
                ty,
            }] == r && more.dom().contains(DirKey { id, ty })
            &&& !(dir.relocation is Moved) ==> more == refs.insert(DirKey { id: dir.id, ty }, r)
        }),
{
}

/// What directories and the areas behind them take at most: what their records take; where
/// directories are moved a sector more for each and one for their holder, in each namespace; and as
/// many sectors as the catalog's file has records. The root's first record may go on behind it for
/// up to 320 bytes, and what moved directories hold may lie behind their holder.
pub proof fn directories_and_areas_are_estimated(
    stats: Stats,
    features: CreationFeatures,
    s: int,
)
    ensures
        ({
            let n = entry_types_of(features).len() as int;
            let moving = relocates(features.rock_ridge);
            let catalog = match features.el_torito {
                Some(boot) => if boot.write_boot_catalog {
                    (96 + 64 * (boot.entries@.len() as int)) / 0xFFFFF800 + 1
                } else {
                    0
                },
                None => 0,
            };
            &&& moving ==> directories_len(stats, features, s) == stats.record_bytes + (stats.dirs
                + 1) * n * s + catalog * n * s
            &&& !moving ==> directories_len(stats, features, s) == stats.record_bytes + catalog * n
                * s
            &&& !any_rrip(entry_types_of(features)) ==> areas_len(stats, features, s)
                == stats.area_bytes
            &&& any_rrip(entry_types_of(features)) && !moving ==> areas_len(stats, features, s)
                == stats.area_bytes + whole(320, s)
            &&& any_rrip(entry_types_of(features)) && moving ==> areas_len(stats, features, s)
                == stats.area_bytes + whole(320, s) + whole(stats.field_bytes, s)
        }),
{
}

/// An estimate says each part on its own, and the sectors are those of all parts together.
pub proof fn estimates_say_their_parts(
    r: IsoSizeEstimate,
    e: (int, int, int, int, int, int, int, int),
    s: int,
)
    requires
        is_estimate(r, e, s),
    ensures
        r.breakdown.system_area == e.0,
        r.breakdown.volume_descriptors == e.1,
        r.breakdown.path_tables == e.2,
        r.breakdown.directory_records == e.3,
        r.breakdown.continuation_areas == e.4,
        r.breakdown.file_data == e.5,
        r.breakdown.boot_catalog == e.6,
        r.breakdown.backup_gpt == e.7,
        r.minimum_sectors == sectors(e.0 + e.1 + e.2 + e.3 + e.4 + e.5 + e.6 + e.7, s),
{
}

} // verus!
