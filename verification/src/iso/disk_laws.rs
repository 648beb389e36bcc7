//! Volume descriptors and partition tables, byte by byte.

#[allow(unused_imports)]
use crate::byte_laws::{
    begins_with_itself, first_piece, number32, numbers_are_written_low_byte_first, second_piece,
};
#[allow(unused_imports)]
use crate::bytes::{be32, le32, le64};
#[allow(unused_imports)]
use crate::iso::boot_image::overwritten;
#[allow(unused_imports)]
use crate::iso::emit::zeros;
#[allow(unused_imports)]
use crate::iso::name::d_char;
#[allow(unused_imports)]
use crate::iso::options::{has_gpt, CreationFeatures};
#[allow(unused_imports)]
use crate::iso::partition::{
    boot_code, chs, crc_bit, crc_of, crc_register, data_prefix, disk_prefix, esp_prefix, fnv,
    gpt_array, gpt_entries, gpt_entry, gpt_head, gpt_header, gpt_name, guid_of, mbr_bytes,
    mbr_entry, mirror_entry, mirrored, named_guid, partition_name, partitions, total_512,
    volume_space, with_gpt, PartitionView,
};
#[allow(unused_imports)]
use crate::iso::susp::both32;
#[allow(unused_imports)]
use crate::iso::volume::{
    a_char, be_units, both16, joliet_text, joliet_units, no_date, parsed_text, root_record, stored,
    terminator_bytes, volume_bytes, LabelsView, Location,
};
#[allow(unused_imports)]
use crate::text::utf16;
use vstd::prelude::*;
#[allow(unused_imports)]
use vstd::utf8::encode_utf8;

verus! {

/// A volume descriptor: its kind, the letters `CD001` and its version, the names of system and
/// volume, the sectors of the volume, the escapes, volume 1 of a set of 1 in sectors of 2048 bytes,
/// where the path tables and the root directory lie, the other texts, four dates that are not
/// given, and nothing behind them.
#[verifier::spinoff_prover]
#[verifier::rlimit(60)]
pub proof fn descriptors_have_their_places(
    kind: u8,
    version: u8,
    escapes: Seq<u8>,
    labels: LabelsView,
    at: Location,
)
    requires
        labels.wf(),
        escapes.len() == 32,
        root_record(at.root).len() == 34,
    ensures
        ({
            let d = volume_bytes(kind, version, escapes, labels, at);
            &&& d.len() == 2048
            &&& d.subrange(0, 8) == seq![
                kind,
                'C' as u8,
                'D' as u8,
                '0' as u8,
                '0' as u8,
                '1' as u8,
                version,
                0u8,
            ]
            &&& d.subrange(8, 40) == labels.system
            &&& d.subrange(40, 72) == labels.volume
            &&& d.subrange(72, 80) == zeros(8)
            &&& d.subrange(80, 88) == both32(at.volume_space)
            &&& d.subrange(88, 120) == escapes
            &&& d.subrange(120, 124) == seq![1u8, 0u8, 0u8, 1u8]
            &&& d.subrange(124, 128) == seq![1u8, 0u8, 0u8, 1u8]
            &&& d.subrange(128, 132) == seq![0u8, 8u8, 8u8, 0u8]
            &&& d.subrange(132, 140) == both32(at.path_table_size)
            &&& d.subrange(140, 144) == le32(at.lpt)
            &&& d.subrange(144, 148) == zeros(4)
            &&& d.subrange(148, 152) == be32(at.mpt)
            &&& d.subrange(152, 156) == zeros(4)
            &&& d.subrange(156, 190) == root_record(at.root)
            &&& d.subrange(190, 318) == labels.volume_set
            &&& d.subrange(318, 446) == labels.publisher
            &&& d.subrange(446, 574) == labels.preparer
            &&& d.subrange(574, 702) == labels.application
            &&& d.subrange(702, 813) == labels.files
            &&& d.subrange(813, 830) == no_date()
            &&& d.subrange(830, 847) == no_date()
            &&& d.subrange(847, 864) == no_date()
            &&& d.subrange(864, 881) == no_date()
            &&& d.subrange(881, 883) == seq![version, 0u8]
            &&& d.subrange(883, 2048) == zeros(1165)
        }),
{
    reveal(volume_bytes);
    assert(both16(1) =~= seq![1u8, 0u8, 0u8, 1u8]);
    assert(both16(2048) =~= seq![0u8, 8u8, 8u8, 0u8]);
    let a0 = seq![kind, 0x43u8, 0x44u8, 0x30u8, 0x30u8, 0x31u8, version, 0u8];
    assert(a0.len() == 8);
    let a1 = a0 + labels.system;
    assert(a1.len() == 40);
    let a2 = a1 + labels.volume;
    assert(a2.len() == 72);
    let a3 = a2 + zeros(8);
    assert(a3.len() == 80);
    let a4 = a3 + both32(at.volume_space);
    assert(a4.len() == 88);
    let a5 = a4 + escapes;
    assert(a5.len() == 120);
    let a6 = a5 + both16(1);
    assert(a6.len() == 124);
    let a7 = a6 + both16(1);
    assert(a7.len() == 128);
    let a8 = a7 + both16(2048);
    assert(a8.len() == 132);
    let a9 = a8 + both32(at.path_table_size);
    assert(a9.len() == 140);
    let a10 = a9 + le32(at.lpt);
    assert(a10.len() == 144);
    let a11 = a10 + zeros(4);
    assert(a11.len() == 148);
    let a12 = a11 + be32(at.mpt);
    assert(a12.len() == 152);
    let a13 = a12 + zeros(4);
    assert(a13.len() == 156);
    let a14 = a13 + root_record(at.root);
    assert(a14.len() == 190);
    let a15 = a14 + labels.volume_set;
    assert(a15.len() == 318);
    let a16 = a15 + labels.publisher;
    assert(a16.len() == 446);
    let a17 = a16 + labels.preparer;
    assert(a17.len() == 574);
    let a18 = a17 + labels.application;
    assert(a18.len() == 702);
    let a19 = a18 + labels.files;
    assert(a19.len() == 813);
    let a20 = a19 + no_date();
    assert(a20.len() == 830);
    let a21 = a20 + no_date();
    assert(a21.len() == 847);
    let a22 = a21 + no_date();
    assert(a22.len() == 864);
    let a23 = a22 + no_date();
    assert(a23.len() == 881);
    let a24 = a23 + seq![version, 0u8];
    assert(a24.len() == 883);
    let a25 = a24 + zeros(1165);
    assert(a25.len() == 2048);
    let all = volume_bytes(kind, version, escapes, labels, at);
    assert(all == a25);
    begins_with_itself(all);
    second_piece(a24, zeros(1165), all);
    second_piece(a23, seq![version, 0u8], all);
    second_piece(a22, no_date(), all);
    second_piece(a21, no_date(), all);
    second_piece(a20, no_date(), all);
    second_piece(a19, no_date(), all);
    second_piece(a18, labels.files, all);
    second_piece(a17, labels.application, all);
    second_piece(a16, labels.preparer, all);
    second_piece(a15, labels.publisher, all);
    second_piece(a14, labels.volume_set, all);
    second_piece(a13, root_record(at.root), all);
    second_piece(a12, zeros(4), all);
    second_piece(a11, be32(at.mpt), all);
    second_piece(a10, zeros(4), all);
    second_piece(a9, le32(at.lpt), all);
    second_piece(a8, both32(at.path_table_size), all);
    second_piece(a7, both16(2048), all);
    second_piece(a6, both16(1), all);
    second_piece(a5, both16(1), all);
    second_piece(a4, escapes, all);
    second_piece(a3, both32(at.volume_space), all);
    second_piece(a2, zeros(8), all);
    second_piece(a1, labels.volume, all);
    second_piece(a0, labels.system, all);
    first_piece(a0, all);
}

/// A date that is not given is sixteen digits 0 and one byte 0; filling bytes are 0.
pub proof fn missing_dates_are_zeros(n: int, i: int)
    requires
        0 <= i < n,
    ensures
        zeros(n).len() == n && zeros(n)[i] == 0,
        no_date().len() == 17,
        i < 16 ==> no_date()[i] == '0' as u32,
        i == 16 ==> no_date()[i] == 0,
{
}

/// The descriptors end with one of kind 255.
pub proof fn the_last_descriptor_is_a_terminator(i: int)
    requires
        7 <= i < 2048,
    ensures
        terminator_bytes().len() == 2048,
        terminator_bytes().subrange(0, 7) == seq![
            255u8,
            'C' as u8,
            'D' as u8,
            '0' as u8,
            '0' as u8,
            '1' as u8,
            1u8,
        ],
        terminator_bytes()[i] == 0,
{
    assert(terminator_bytes().subrange(0, 7) =~= seq![
        255u8,
        'C' as u8,
        'D' as u8,
        '0' as u8,
        '0' as u8,
        '1' as u8,
        1u8,
    ]);
}

/// Letters of texts that are kept as they are where the larger set is allowed: beside those of the
/// smaller set a space and the signs `! " % & ' ( ) * + , - . / : ; < = > ?`.
pub proof fn texts_have_more_signs(c: u8)
    ensures
        c == ' ' as u32 || c == '!' as u32 || c == '"' as u32 || c == '%' as u32 || c == '&' as u32
            || c == '\'' as u32 || c == '(' as u32 || c == ')' as u32 || c == '*' as u32 || c
            == '+' as u32 || c == ',' as u32 || c == '-' as u32 || c == '.' as u32 || c == '/' as u32
            || c == ':' as u32 || c == ';' as u32 || c == '<' as u32 || c == '=' as u32 || c
            == '>' as u32 || c == '?' as u32 ==> a_char(c) == c,
        'A' as u32 <= c <= 'Z' as u32 || '0' as u32 <= c <= '9' as u32 || c == '_' as u32
            ==> a_char(c) == c,
        'a' as u32 <= c <= 'z' as u32 ==> a_char(c) - 'A' as u32 == c - 'a' as u32,
        c < ' ' as u32 || c == '#' as u32 || c == '$' as u32 || c == '@' as u32 || ('Z' as u32) < c
            < '_' as u32 || c == '`' as u32 || c > 'z' as u32 ==> a_char(c) == '_' as u32,
{
}

/// A text is stored as it is, or, where only allowed signs are wanted, sign by sign as the allowed
/// one that stands for it; it is refused where it is longer than its field, and else filled up
/// with spaces.
pub proof fn texts_are_filled_with_spaces(
    s: Seq<char>,
    a_set: bool,
    n: int,
    field: crate::iso::error::IdentifierField,
    i: int,
)
    requires
        0 <= i < n,
    ensures
        ({
            let utf8 = encode_utf8(s);
            let plain = parsed_text(s, false, a_set, n, field);
            let strict = parsed_text(s, true, a_set, n, field);
            &&& utf8.len() > n ==> plain is Err && strict is Err
            &&& utf8.len() <= n ==> {
                &&& plain matches Ok(b) && b.len() == n && b[i] == (if i < utf8.len() {
                    utf8[i]
                } else {
                    ' ' as u8
                })
                &&& strict matches Ok(b) && b.len() == n && b[i] == (if i >= utf8.len() {
                    ' ' as u8
                } else if a_set {
                    a_char(utf8[i])
                } else {
                    d_char(utf8[i], false)
                })
            }
        }),
{
}

proof fn units_have_two_bytes(units: Seq<u16>, i: int)
    requires
        0 <= i < units.len(),
    ensures
        be_units(units).len() == 2 * units.len(),
        be_units(units)[2 * i] == units[i] / 256,
        be_units(units)[2 * i + 1] == units[i] % 256,
    decreases units.len(),
{
    let init = units.drop_last();
    if i < init.len() {
        units_have_two_bytes(init, i);
        assert(be_units(units)[2 * i] == be_units(init)[2 * i]);
        assert(be_units(units)[2 * i + 1] == be_units(init)[2 * i + 1]);
    } else if init.len() > 0 {
        units_have_two_bytes(init, 0);
    }
}

/// A text of a Joliet descriptor is its UTF-16 code units, high byte first, cut where the field
/// ends and else filled up with spaces.
pub proof fn joliet_texts_are_filled_with_spaces(s: Seq<char>, n: int, i: int)
    requires
        0 <= i < n,
    ensures
        joliet_text(s, n).len() == 2 * n,
        0x100 * joliet_text(s, n)[2 * i] + joliet_text(s, n)[2 * i + 1] == (if i < utf16(s).len() {
            utf16(s)[i]
        } else {
            ' ' as u16
        }),
{
    units_have_two_bytes(joliet_units(s, n), i);
}

/// The head of a partition table with GUIDs: the letters `EFI PART`, revision 1.0, 92 bytes, its
/// checksum, where it and its copy lie, the sectors that can be used, the disk's GUID, and where
/// its 128 entries of 128 bytes lie, with their checksum.
#[verifier::spinoff_prover]
#[verifier::rlimit(60)]
pub proof fn gpt_heads_have_their_places(
    sum: u32,
    own: u64,
    other: u64,
    last_usable: u64,
    disk: Seq<u8>,
    array: u64,
    array_sum: u32,
)
    requires
        disk.len() == 16,
    ensures
        ({
            let h = gpt_head(sum, own, other, last_usable, disk, array, array_sum);
            &&& h.len() == 92
            &&& h.subrange(0, 8) == seq![
                'E' as u8,
                'F' as u8,
                'I' as u8,
                ' ' as u8,
                'P' as u8,
                'A' as u8,
                'R' as u8,
                'T' as u8,
            ]
            &&& h.subrange(8, 12) == seq![0u8, 0u8, 1u8, 0u8]
            &&& h.subrange(12, 16) == seq![92u8, 0u8, 0u8, 0u8]
            &&& h.subrange(16, 20) == le32(sum)
            &&& h.subrange(20, 24) == zeros(4)
            &&& h.subrange(24, 32) == le64(own)
            &&& h.subrange(32, 40) == le64(other)
            &&& h.subrange(40, 48) == seq![34u8, 0u8, 0u8, 0u8, 0u8, 0u8, 0u8, 0u8]
            &&& h.subrange(48, 56) == le64(last_usable)
            &&& h.subrange(56, 72) == disk
            &&& h.subrange(72, 80) == le64(array)
            &&& h.subrange(80, 84) == seq![128u8, 0u8, 0u8, 0u8]
            &&& h.subrange(84, 88) == seq![128u8, 0u8, 0u8, 0u8]
            &&& h.subrange(88, 92) == le32(array_sum)
        }),
{
    assert(le32(0x00010000) =~= seq![0u8, 0u8, 1u8, 0u8]);
    assert(le32(92) =~= seq![92u8, 0u8, 0u8, 0u8]);
    assert(le32(128) =~= seq![128u8, 0u8, 0u8, 0u8]);
    assert(le64(34) =~= seq![34u8, 0u8, 0u8, 0u8, 0u8, 0u8, 0u8, 0u8]);
    let a0 = seq![0x45u8, 0x46u8, 0x49u8, 0x20u8, 0x50u8, 0x41u8, 0x52u8, 0x54u8];
    assert(a0.len() == 8);
    let a1 = a0 + le32(0x00010000);
    assert(a1.len() == 12);
    let a2 = a1 + le32(92);
    assert(a2.len() == 16);
    let a3 = a2 + le32(sum);
    assert(a3.len() == 20);
    let a4 = a3 + zeros(4);
    assert(a4.len() == 24);
    let a5 = a4 + le64(own);
    assert(a5.len() == 32);
    let a6 = a5 + le64(other);
    assert(a6.len() == 40);
    let a7 = a6 + le64(34);
    assert(a7.len() == 48);
    let a8 = a7 + le64(last_usable);
    assert(a8.len() == 56);
    let a9 = a8 + disk;
    assert(a9.len() == 72);
    let a10 = a9 + le64(array);
    assert(a10.len() == 80);
    let a11 = a10 + le32(128);
    assert(a11.len() == 84);
    let a12 = a11 + le32(128);
    assert(a12.len() == 88);
    let a13 = a12 + le32(array_sum);
    assert(a13.len() == 92);
    let all = gpt_head(sum, own, other, last_usable, disk, array, array_sum);
    assert(all == a13);
    begins_with_itself(all);
    second_piece(a12, le32(array_sum), all);
    second_piece(a11, le32(128), all);
    second_piece(a10, le32(128), all);
    second_piece(a9, le64(array), all);
    second_piece(a8, disk, all);
    second_piece(a7, le64(last_usable), all);
    second_piece(a6, le64(34), all);
    second_piece(a5, le64(other), all);
    second_piece(a4, le64(own), all);
    second_piece(a3, zeros(4), all);
    second_piece(a2, le32(sum), all);
    second_piece(a1, le32(92), all);
    second_piece(a0, le32(0x00010000), all);
    first_piece(a0, all);
}

/// A table's head is followed by nothing up to the end of its sector; its checksum is that of the
/// head with 0 in the checksum's place.
pub proof fn gpt_headers_fill_a_sector(
    own: u64,
    other: u64,
    last_usable: u64,
    disk: Seq<u8>,
    array: u64,
    array_sum: u32,
)
    requires
        disk.len() == 16,
    ensures
        ({
            let h = gpt_header(own, other, last_usable, disk, array, array_sum);
            let zeroed = gpt_head(0, own, other, last_usable, disk, array, array_sum);
            &&& h.len() == 512
            &&& h.subrange(0, 92) == gpt_head(
                crc_of(zeroed),
                own,
                other,
                last_usable,
                disk,
                array,
                array_sum,
            )
            &&& h.subrange(92, 512) == zeros(420)
        }),
{
    let zeroed = gpt_head(0, own, other, last_usable, disk, array, array_sum);
    let head = gpt_head(crc_of(zeroed), own, other, last_usable, disk, array, array_sum);
    gpt_heads_have_their_places(crc_of(zeroed), own, other, last_usable, disk, array, array_sum);
    let h = gpt_header(own, other, last_usable, disk, array, array_sum);
    assert(h.subrange(0, 92) =~= head);
    assert(h.subrange(92, 512) =~= zeros(420));
}

/// An entry of a partition table with GUIDs: what the partition is for, its own GUID, its first and
/// last sector, no attributes, and its name in 36 characters of two bytes.
#[verifier::spinoff_prover]
#[verifier::rlimit(60)]
pub proof fn gpt_entries_have_their_places(p: PartitionView)
    requires
        p.guid.len() == 16,
    ensures
        ({
            let e = gpt_entry(p);
            &&& e.len() == 128
            &&& p.esp ==> e.subrange(0, 16) == seq![
                0x28u8, 0x73u8, 0x2Au8, 0xC1u8, 0x1Fu8, 0xF8u8, 0xD2u8, 0x11u8, 0xBAu8, 0x4Bu8,
                0x00u8, 0xA0u8, 0xC9u8, 0x3Eu8, 0xC9u8, 0x3Bu8,
            ]
            &&& !p.esp ==> e.subrange(0, 16) == seq![
                0xA2u8, 0xA0u8, 0xD0u8, 0xEBu8, 0xE5u8, 0xB9u8, 0x33u8, 0x44u8, 0x87u8, 0xC0u8,
                0x68u8, 0xB6u8, 0xB7u8, 0x26u8, 0x99u8, 0xC7u8,
            ]
            &&& e.subrange(16, 32) == p.guid
            &&& e.subrange(32, 40) == le64(p.first)
            &&& e.subrange(40, 48) == le64(p.last)
            &&& e.subrange(48, 56) == zeros(8)
            &&& p.esp ==> e.subrange(56, 128) == gpt_name(encode_utf8("EFI System Partition"@))
            &&& !p.esp ==> e.subrange(56, 128) == gpt_name(encode_utf8("ISO9660"@))
        }),
{
    let kind = if p.esp {
        crate::iso::partition::efi_system_guid()
    } else {
        crate::iso::partition::basic_data_guid()
    };
    let name = gpt_name(partition_name(p.esp));
    let a0 = kind;
    assert(a0.len() == 16);
    let a1 = a0 + p.guid;
    assert(a1.len() == 32);
    let a2 = a1 + le64(p.first);
    assert(a2.len() == 40);
    let a3 = a2 + le64(p.last);
    assert(a3.len() == 48);
    let a4 = a3 + zeros(8);
    assert(a4.len() == 56);
    let a5 = a4 + name;
    assert(a5.len() == 128);
    let all = gpt_entry(p);
    assert(all == a5);
    begins_with_itself(all);
    second_piece(a4, name, all);
    second_piece(a3, zeros(8), all);
    second_piece(a2, le64(p.last), all);
    second_piece(a1, le64(p.first), all);
    second_piece(a0, p.guid, all);
    first_piece(a0, all);
}

/// A partition's name has two bytes for each letter, low byte first, and nothing behind it.
pub proof fn partition_names_have_two_bytes(name: Seq<u8>, i: int)
    requires
        0 <= i < 36,
    ensures
        gpt_name(name).len() == 72,
        gpt_name(name)[2 * i] == (if i < name.len() {
            name[i]
        } else {
            0
        }),
        gpt_name(name)[2 * i + 1] == 0,
{
    assert((2 * i) % 2 == 0 && (2 * i) / 2 == i);
    assert((2 * i + 1) % 2 == 1);
}

/// The entries of a table lie one behind the other, 128 bytes each, and zeros behind them up to
/// the place of the 128th.
pub proof fn partition_entries_lie_in_a_row(parts: Seq<PartitionView>, p: PartitionView)
    requires
        gpt_entries(parts.push(p)).len() <= 16384,
    ensures
        gpt_entries(Seq::empty()) == Seq::<u8>::empty(),
        gpt_entries(parts.push(p)) == gpt_entries(parts) + gpt_entry(p),
        gpt_array(parts.push(p)).len() == 128 * 128,
        gpt_array(parts.push(p)).take(gpt_entries(parts.push(p)).len() as int) == gpt_entries(
            parts.push(p),
        ),
        forall|i: int|
            gpt_entries(parts.push(p)).len() <= i < 128 * 128 ==> #[trigger] gpt_array(
                parts.push(p),
            )[i] == 0,
{
    assert(parts.push(p).drop_last() =~= parts);
    let all = parts.push(p);
    assert(gpt_array(all).take(gpt_entries(all).len() as int) =~= gpt_entries(all));
}

/// `n` steps of the checksum: the register is shifted by one bit to the right, and the polynomial
/// is added where the bit that falls out is set.
pub open spec fn shifted(c: u32, n: nat) -> u32
    decreases n,
{
    if n == 0 {
        c
    } else {
        let d = shifted(c, (n - 1) as nat);
        if d & 1 == 1 {
            (d >> 1) ^ 0xEDB88320u32
        } else {
            d >> 1
        }
    }
}

proof fn one_shift(c: u32)
    ensures
        crc_bit(c) == (if c & 1 == 1 {
            (c >> 1) ^ 0xEDB88320u32
        } else {
            c >> 1
        }),
{
    assert(c & 1 == c % 2 && c >> 1 == c / 2) by (bit_vector);
}

/// The checksum of bytes: a register with all bits set, to whose low bits each byte is added before
/// it is shifted by eight bits, and the register's complement at the end.
pub proof fn checksums_are_crc32(bytes: Seq<u8>, b: u8)
    ensures
        crc_register(Seq::empty()) == 0xFFFFFFFF,
        crc_register(bytes.push(b)) == shifted(crc_register(bytes) ^ (b as u32), 8),
        crc_of(bytes) == !crc_register(bytes),
{
    assert(bytes.push(b).drop_last() =~= bytes);
    let c = crc_register(bytes) ^ (b as u32);
    reveal_with_fuel(shifted, 9);
    let c1 = crc_bit(c);
    let c2 = crc_bit(c1);
    let c3 = crc_bit(c2);
    let c4 = crc_bit(c3);
    let c5 = crc_bit(c4);
    let c6 = crc_bit(c5);
    let c7 = crc_bit(c6);
    one_shift(c);
    one_shift(c1);
    one_shift(c2);
    one_shift(c3);
    one_shift(c4);
    one_shift(c5);
    one_shift(c6);
    one_shift(c7);
    assert(shifted(c, 1) == c1);
    assert(shifted(c, 2) == c2);
    assert(shifted(c, 3) == c3);
    assert(shifted(c, 4) == c4);
    assert(shifted(c, 5) == c5);
    assert(shifted(c, 6) == c6);
    assert(shifted(c, 7) == c7);
    let r = crc_register(bytes);
    assert(r ^ 0xFFFFFFFFu32 == !r) by (bit_vector);
}

/// A GUID is the two hashes of its source, low byte first, but that its upper bits say that it is
/// one of version 4 and of the usual kind.
pub proof fn guids_are_two_hashes(bytes: Seq<u8>, b: u8, i: int)
    requires
        0 <= i < 16,
    ensures
        ({
            let first = fnv(bytes, 0xcbf29ce484222325, 0x100000001b3);
            let second = fnv(bytes, 0x100000001b3, 0xcbf29ce484222325);
            let raw = le64(first) + le64(second);
            let g = guid_of(bytes);
            &&& g.len() == 16
            &&& i != 6 && i != 8 ==> g[i] == raw[i]
            &&& g[6] & 0xF0 == 0x40
            &&& g[6] & 0x0F == raw[6] & 0x0F
            &&& g[8] & 0xC0 == 0x80
            &&& g[8] & 0x3F == raw[8] & 0x3F
        }),
        fnv(Seq::empty(), 0xcbf29ce484222325, 0x100000001b3) == 0xcbf29ce484222325,
        fnv(bytes.push(b), 0xcbf29ce484222325, 0x100000001b3) == ((fnv(
            bytes,
            0xcbf29ce484222325,
            0x100000001b3,
        ) ^ (b as u64)) * 0x100000001b3) % 0x1_0000_0000_0000_0000,
        fnv(Seq::empty(), 0x100000001b3, 0xcbf29ce484222325) == 0x100000001b3,
        fnv(bytes.push(b), 0x100000001b3, 0xcbf29ce484222325) == ((fnv(
            bytes,
            0x100000001b3,
            0xcbf29ce484222325,
        ) ^ (b as u64)) * 0xcbf29ce484222325) % 0x1_0000_0000_0000_0000,
{
    assert(bytes.push(b).drop_last() =~= bytes);
    let raw = le64(fnv(bytes, 0xcbf29ce484222325, 0x100000001b3)) + le64(
        fnv(bytes, 0x100000001b3, 0xcbf29ce484222325),
    );
    let (x, y) = (raw[6], raw[8]);
    let (p, q) = ((x % 16 + 0x40) as u8, (y % 64 + 0x80) as u8);
    assert(p & 0xF0 == 0x40 && p & 0x0F == x & 0x0F) by (bit_vector)
        requires
            p == x % 16 + 0x40,
    ;
    assert(q & 0xC0 == 0x80 && q & 0x3F == y & 0x3F) by (bit_vector)
        requires
            q == y % 64 + 0x80,
    ;
}

/// The sources of the GUIDs: the volume's name, for the disk, the system partition and the data
/// behind it with `disk-`, `esp-` and `data-` in front.
pub proof fn guids_come_from_names(name: Seq<char>)
    ensures
        named_guid(disk_prefix(), name) == guid_of(
            seq!['d' as u8, 'i' as u8, 's' as u8, 'k' as u8, '-' as u8] + encode_utf8(name),
        ),
        named_guid(esp_prefix(), name) == guid_of(
            seq!['e' as u8, 's' as u8, 'p' as u8, '-' as u8] + encode_utf8(name),
        ),
        named_guid(data_prefix(), name) == guid_of(
            seq!['d' as u8, 'a' as u8, 't' as u8, 'a' as u8, '-' as u8] + encode_utf8(name),
        ),
{
    assert(disk_prefix() =~= seq!['d' as u8, 'i' as u8, 's' as u8, 'k' as u8, '-' as u8]);
    assert(esp_prefix() =~= seq!['e' as u8, 's' as u8, 'p' as u8, '-' as u8]);
    assert(data_prefix() =~= seq!['d' as u8, 'a' as u8, 't' as u8, 'a' as u8, '-' as u8]);
}

/// A disk with a table of GUIDs has room for its copy behind the data: 33 sectors of 512 bytes, up
/// to a whole sector of 2048; one without has the data's sectors.
pub proof fn disks_have_room_for_the_copy(features: CreationFeatures, end: int)
    requires
        0 <= end,
        4 * end + 36 <= u32::MAX,
    ensures
        total_512(end) % 4 == 0,
        4 * end + 33 <= total_512(end) < 4 * end + 33 + 4,
        has_gpt(features) ==> 4 * volume_space(features, end) == total_512(end),
        !has_gpt(features) ==> volume_space(features, end) == end,
{
}

/// What is partitioned: everything from sector 64 on, the system partition apart; each part has a
/// GUID of its own.
pub proof fn partitions_have_their_guids(
    esp: Option<(u64, u64)>,
    iso_end: u64,
    name: Seq<char>,
)
    requires
        esp matches Some((first, last)) ==> 64 <= first <= last <= iso_end,
    ensures
        ({
            let parts = partitions(esp, iso_end, name);
            match esp {
                None => {
                    &&& parts.len() == 1
                    &&& parts[0] == (PartitionView {
                        esp: false,
                        guid: guid_of(encode_utf8(name)),
                        first: 64,
                        last: iso_end,
                    })
                },
                Some((first, last)) => {
                    let k = if first > 64 {
                        1int
                    } else {
                        0
                    };
                    &&& parts.len() == k + 1 + (if last < iso_end {
                        1int
                    } else {
                        0
                    })
                    &&& first > 64 ==> parts[0] == (PartitionView {
                        esp: false,
                        guid: guid_of(encode_utf8(name)),
                        first: 64,
                        last: (first - 1) as u64,
                    })
                    &&& parts[k] == (PartitionView {
                        esp: true,
                        guid: named_guid(esp_prefix(), name),
                        first,
                        last,
                    })
                    &&& last < iso_end ==> parts[k + 1] == (PartitionView {
                        esp: false,
                        guid: named_guid(data_prefix(), name),
                        first: (last + 1) as u64,
                        last: iso_end,
                    })
                },
            }
        }),
{
}

/// A sector's place by cylinder, head and sector, with 255 heads and 63 sectors of each: they count
/// up to the sector's number. Where there is no such cylinder the place is the last one.
pub proof fn places_count_up_to_the_sector(lba: u32)
    ensures
        chs(lba).len() == 3,
        ({
            let (head, sector, cylinder) = (
                chs(lba)[0] as int,
                chs(lba)[1] as int % 64,
                chs(lba)[2] + 256 * (chs(lba)[1] as int / 64),
            );
            &&& lba < 1024 * 255 * 63 ==> (cylinder * 255 + head) * 63 + (sector - 1) == lba && head
                < 255 && 1 <= sector <= 63
            &&& lba >= 1024 * 255 * 63 ==> cylinder == 1023 && head == 254 && sector == 63
        }),
{
    let c = lba / 16065;
    let rest = lba % 16065;
    if c <= 1023 {
        let (h, s) = (rest / 63, rest % 63);
        assert(chs(lba)[1] == s + 1 + c / 256 * 64);
        assert((s + 1 + c / 256 * 64) % 64 == s + 1 || s + 1 == 64);
        assert((s + 1 + c / 256 * 64) / 64 == c / 256);
        assert(c % 256 + 256 * (c / 256) == c);
    }
}

/// An entry of the table in the first sector: whether it is started from, the places of its first
/// and last sector around what it is for, and its first sector and its number of sectors.
pub proof fn mbr_entries_have_their_places(active: bool, kind: u8, first: u32, count: u32)
    requires
        count > 0,
        first + count - 1 <= u32::MAX,
    ensures
        ({
            let e = mbr_entry(active, kind, first, count);
            &&& e.len() == 16
            &&& active ==> e[0] == 0x80
            &&& !active ==> e[0] == 0
            &&& e.subrange(1, 4) == chs(first)
            &&& e[4] == kind
            &&& e.subrange(5, 8) == chs((first + count - 1) as u32)
            &&& number32(e, 8) == first
            &&& number32(e, 12) == count
        }),
{
    reveal(mbr_entry);
    let last = (first + count - 1) as u32;
    places_count_up_to_the_sector(first);
    places_count_up_to_the_sector(last);
    numbers_are_written_low_byte_first(0, first, 0);
    numbers_are_written_low_byte_first(0, count, 0);
    let e = mbr_entry(active, kind, first, count);
    assert(e.subrange(1, 4) =~= chs(first));
    assert(e.subrange(5, 8) =~= chs(last));
    assert(e.subrange(8, 12) =~= le32(first));
    assert(e.subrange(12, 16) =~= le32(count));
    assert(number32(e.subrange(8, 12), 0) == number32(e, 8));
    assert(number32(e.subrange(12, 16), 0) == number32(e, 12));
}

/// The first sector: code of 446 bytes, cut or filled up with zeros, four entries, and the two
/// signature bytes.
pub proof fn first_sectors_have_their_places(code: Seq<u8>, entries: Seq<u8>, own: Option<Vec<u8>>)
    requires
        code.len() == 446,
        entries.len() <= 64,
    ensures
        ({
            let s = mbr_bytes(code, entries);
            &&& s.len() == 512
            &&& s.subrange(0, 446) == code
            &&& s.subrange(446, 446 + entries.len() as int) == entries
            &&& forall|i: int| 446 + entries.len() <= i < 510 ==> #[trigger] s[i] == 0
            &&& s[510] == 0x55
            &&& s[511] == 0xAA
        }),
        boot_code(own).len() == 446,
        own is None ==> forall|i: int| 0 <= i < 446 ==> #[trigger] boot_code(own)[i] == 0,
        own matches Some(c) ==> forall|i: int|
            0 <= i < 446 ==> #[trigger] boot_code(own)[i] == (if i < c@.len() {
                c@[i]
            } else {
                0
            }),
{
    let s = mbr_bytes(code, entries);
    assert(s.subrange(0, 446) =~= code);
    assert(s.subrange(446, 446 + entries.len() as int) =~= entries);
}

/// What the first sector shows of the partitions of a hybrid disk: the first of them, and the
/// system partition behind it; data as hidden, the system partition as what it is.
pub proof fn hybrid_disks_show_their_partitions(
    parts: Seq<PartitionView>,
    p: PartitionView,
    bootable: bool,
)
    requires
        p.first <= p.last <= u32::MAX,
    ensures
        parts.len() > 1 && !parts[0].esp && parts[1].esp ==> mirrored(parts) == parts.take(2),
        parts.len() > 1 && (parts[0].esp || !parts[1].esp) ==> mirrored(parts) == parts.take(1),
        parts.len() == 1 ==> mirrored(parts) == parts,
        p.esp ==> mirror_entry(p, bootable) == mbr_entry(
            false,
            0xEF,
            p.first as u32,
            (p.last - p.first + 1) as u32,
        ),
        !p.esp ==> mirror_entry(p, bootable) == mbr_entry(
            bootable,
            0x17,
            p.first as u32,
            (p.last - p.first + 1) as u32,
        ),
{
    if parts.len() == 1 {
        assert(parts.take(1) =~= parts);
    }
}

/// A disk with a table of GUIDs: the first sector, the head and the 32 sectors of entries in front,
/// the data behind them as it was, and at the very end the entries again and a head that points
/// back.
#[verifier::spinoff_prover]
#[verifier::rlimit(60)]
pub proof fn gpt_disks_have_their_places(
    data: Seq<u8>,
    mbr: Seq<u8>,
    parts: Seq<PartitionView>,
    name: Seq<char>,
)
    requires
        data.len() >= 17408,
        data.len() % 2048 == 0,
        mbr.len() == 512,
        gpt_entries(parts).len() <= 16384,
        total_512((data.len() / 2048) as int) <= u64::MAX,
    ensures
        ({
            let g = with_gpt(data, mbr, parts, name);
            let n = data.len() as int;
            let total = total_512(n / 2048);
            let array = gpt_array(parts);
            let disk = named_guid(disk_prefix(), name);
            &&& g.len() == 512 * total
            &&& g.subrange(0, 512) == mbr
            &&& g.subrange(512, 1024) == gpt_header(
                1,
                (total - 1) as u64,
                (total - 34) as u64,
                disk,
                2,
                crc_of(array),
            )
            &&& g.subrange(1024, 17408) == array
            &&& g.subrange(17408, n) == data.subrange(17408, n)
            &&& g.subrange(n, 512 * (total - 33)) == zeros(512 * (total - 33) - n)
            &&& g.subrange(512 * (total - 33), 512 * (total - 1)) == array
            &&& g.subrange(512 * (total - 1), 512 * total) == gpt_header(
                (total - 1) as u64,
                1,
                (total - 34) as u64,
                disk,
                (total - 33) as u64,
                crc_of(array),
            )
        }),
{
    reveal(with_gpt);
    let n = data.len() as int;
    let total = total_512(n / 2048);
    let array = gpt_array(parts);
    let disk = named_guid(disk_prefix(), name);
    guids_are_two_hashes(disk_prefix() + encode_utf8(name), 0, 0);
    let own = gpt_header(1, (total - 1) as u64, (total - 34) as u64, disk, 2, crc_of(array));
    let backup = gpt_header(
        (total - 1) as u64,
        1,
        (total - 34) as u64,
        disk,
        (total - 33) as u64,
        crc_of(array),
    );
    gpt_headers_fill_a_sector(1, (total - 1) as u64, (total - 34) as u64, disk, 2, crc_of(array));
    gpt_headers_fill_a_sector(
        (total - 1) as u64,
        1,
        (total - 34) as u64,
        disk,
        (total - 33) as u64,
        crc_of(array),
    );
    assert(array.len() == 16384);
    let front = mbr + own + array;
    assert(front.len() == 17408);
    let body = overwritten(data, 0, front);
    assert(body =~= front + data.skip(17408));
    let gap = zeros(total * 512 - 33 * 512 - n);
    assert(4 * (n / 2048) * 512 == n);
    assert(total * 512 - 33 * 512 - n >= 0);
    let g = with_gpt(data, mbr, parts, name);
    let a1 = body + gap;
    let a2 = a1 + array;
    let a3 = a2 + backup;
    assert(g == a3);
    begins_with_itself(g);
    second_piece(a2, backup, g);
    second_piece(a1, array, g);
    second_piece(body, gap, g);
    second_piece(front, data.skip(17408), g);
    second_piece(mbr + own, array, g);
    second_piece(mbr, own, g);
    first_piece(mbr, g);
    assert(data.skip(17408) =~= data.subrange(17408, n));
}

} // verus!
