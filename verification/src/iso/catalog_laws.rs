//! Boot catalogs, byte by byte, and what is done with the images that they name.

#[allow(unused_imports)]
use crate::byte_laws::{
    begins_with_itself, first_piece, number32, numbers_are_written_low_byte_first, second_piece,
};
#[allow(unused_imports)]
use crate::bytes::{from_le16, from_le32, le16, le32};
#[allow(unused_imports)]
use crate::iso::boot::{
    boot_entry_bytes, boot_record_bytes, catalog_file_name, catalog_file_size, entries_bytes,
    header_bytes, parse_sections, sections_bytes, sections_size, validation_flaw, with_section,
    word_sum, x86_checksum, x86_validation, BootCatalog, BootCatalogEntry, BootEntryOptions,
    BootError, BootOptions, BootSectionEntry, BootSectionHeaderEntry, BootSectionOptions,
    BootValidationEntry, EmulationType, ParseState, PlatformId, SectionView,
};
#[allow(unused_imports)]
use crate::iso::boot_image::{
    catalog_bytes, catalog_step, catalog_steps, checked_part, info_table, load_size_of, overwritten,
    with_catalog, with_info_table, words_sum, CatalogState,
};
#[allow(unused_imports)]
use crate::iso::emit::{padded, zeros};
#[allow(unused_imports)]
use crate::iso::error::IsoCreationError;
#[allow(unused_imports)]
use crate::iso::types::DirectoryRef;
#[allow(unused_imports)]
use crate::iso::written::{find_parts, lookup_parts, DirView};
use vstd::prelude::*;
#[allow(unused_imports)]
use vstd::utf8::encode_utf8;

verus! {

/// The numbers that stand for platforms and for what an image stands in for.
pub proof fn codes_of_platforms_and_media(value: u8)
    ensures
        PlatformId::X80X86.spec_to_u8() == 0,
        PlatformId::PowerPC.spec_to_u8() == 1,
        PlatformId::Macintosh.spec_to_u8() == 2,
        PlatformId::UEFI.spec_to_u8() == 0xEF,
        PlatformId::Unknown(value).spec_to_u8() == value,
        PlatformId::spec_from_u8(value).spec_to_u8() == value,
        EmulationType::NoEmulation.spec_to_u8() == 0,
        EmulationType::Floppy1_2.spec_to_u8() == 1,
        EmulationType::Floppy1_44.spec_to_u8() == 2,
        EmulationType::Floppy2_88.spec_to_u8() == 3,
        EmulationType::HardDisk.spec_to_u8() == 4,
        EmulationType::Unknown(value).spec_to_u8() == value,
        EmulationType::spec_from_u8(value).spec_to_u8() == value,
        PlatformId::spec_from_u8(0xEF) is UEFI,
        PlatformId::spec_from_u8(0) is X80X86,
        PlatformId::spec_from_u8(1) is PowerPC,
        PlatformId::spec_from_u8(2) is Macintosh,
        EmulationType::spec_from_u8(0) is NoEmulation,
        EmulationType::spec_from_u8(1) is Floppy1_2,
        EmulationType::spec_from_u8(2) is Floppy1_44,
        EmulationType::spec_from_u8(3) is Floppy2_88,
        EmulationType::spec_from_u8(4) is HardDisk,
        !EmulationType::NoEmulation.emulates(),
        EmulationType::Unknown(value).emulates() <==> value & 0x0F != 0,
{
    assert((value & 0x0F != 0) == (value % 16 != 0)) by (bit_vector);
}

/// An entry of a catalog: 0x88 for one that can be started, the medium, the segment, the system,
/// the sectors to load, where the image lies, and nothing behind it.
#[verifier::spinoff_prover]
#[verifier::rlimit(40)]
pub proof fn boot_entries_have_their_places(
    media: EmulationType,
    segment: u16,
    count: u16,
    rba: u32,
    i: int,
)
    requires
        12 <= i < 32,
    ensures
        ({
            let e = boot_entry_bytes(media, segment, count, rba);
            &&& e.len() == 32
            &&& e[0] == 0x88
            &&& e[1] == media.spec_to_u8()
            &&& e[2] + 0x100 * e[3] == segment
            &&& e[4] == 0 && e[5] == 0
            &&& e[6] + 0x100 * e[7] == count
            &&& number32(e, 8) == rba
            &&& e[i] == 0
        }),
{
    numbers_are_written_low_byte_first(segment, rba, 0);
    numbers_are_written_low_byte_first(count, 0, 0);
    let e = boot_entry_bytes(media, segment, count, rba);
    let a1 = seq![0x88u8, media.spec_to_u8()] + le16(segment) + seq![0u8, 0u8] + le16(count);
    assert(a1.len() == 8);
    assert(e =~= a1 + le32(rba) + seq![0u8] + Seq::new(19, |k: int| 0u8));
    assert(number32(e, 8) == number32(le32(rba), 0));
}

/// The entries of a catalog that is read or written, field by field.
#[verifier::spinoff_prover]
#[verifier::rlimit(40)]
pub proof fn catalog_entries_have_their_places(
    v: BootValidationEntry,
    h: BootSectionHeaderEntry,
    e: BootSectionEntry,
)
    ensures
        ({
            let b = v.bytes();
            &&& b.len() == 32
            &&& b[0] == v.header_id
            &&& b[1] == v.platform_id
            &&& b.subrange(2, 4) == v.reserved@
            &&& b.subrange(4, 28) == v.manufacturer@
            &&& b[28] + 0x100 * b[29] == v.checksum
            &&& b.subrange(30, 32) == v.key@
        }),
        ({
            let b = h.bytes();
            &&& b.len() == 32
            &&& b[0] == h.header_type
            &&& b[1] == h.platform_id
            &&& b[2] + 0x100 * b[3] == h.section_count
            &&& b.subrange(4, 32) == h.section_ident@
        }),
        ({
            let b = e.bytes();
            &&& b.len() == 32
            &&& b[0] == e.boot_indicator
            &&& b[1] == e.boot_media_type
            &&& b[2] + 0x100 * b[3] == e.load_segment
            &&& b[4] == e.system_type
            &&& b[5] == e.reserved0
            &&& b[6] + 0x100 * b[7] == e.sector_count
            &&& number32(b, 8) == e.load_rba
            &&& b[12] == e.selection_criteria
            &&& b.subrange(13, 32) == e.vendor_unique@
        }),
{
    numbers_are_written_low_byte_first(v.checksum, 0, 0);
    numbers_are_written_low_byte_first(h.section_count, 0, 0);
    numbers_are_written_low_byte_first(e.load_segment, e.load_rba, 0);
    numbers_are_written_low_byte_first(e.sector_count, 0, 0);
    let b = v.bytes();
    assert(b.subrange(2, 4) =~= v.reserved@);
    assert(b.subrange(4, 28) =~= v.manufacturer@);
    assert(b.subrange(30, 32) =~= v.key@);
    assert(h.bytes().subrange(4, 32) =~= h.section_ident@);
    let c = e.bytes();
    assert(c.subrange(8, 12) =~= le32(e.load_rba));
    assert(number32(c.subrange(8, 12), 0) == number32(c, 8));
    assert(c.subrange(13, 32) =~= e.vendor_unique@);
}

/// The sum of the words of bytes, low byte first.
pub open spec fn words_total(s: Seq<u8>) -> int
    decreases s.len(),
{
    if s.len() < 2 {
        0
    } else {
        words_total(s.take(s.len() - 2)) + s[s.len() - 2] + 256 * s[s.len() - 1]
    }
}

proof fn word_sums_are_totals(s: Seq<u8>)
    ensures
        word_sum(s) == words_total(s) % 65536,
        words_total(s) >= 0,
    decreases s.len(),
{
    if s.len() >= 2 {
        word_sums_are_totals(s.take(s.len() - 2));
    }
}

proof fn totals_split(a: Seq<u8>, b: Seq<u8>)
    requires
        a.len() % 2 == 0,
        b.len() % 2 == 0,
    ensures
        words_total(a + b) == words_total(a) + words_total(b),
    decreases b.len(),
{
    if b.len() == 0 {
        assert(a + b =~= a);
    } else {
        let t = b.take(b.len() - 2);
        totals_split(a, t);
        assert((a + b).take((a + b).len() - 2) =~= a + t);
    }
}

/// The first entry of a catalog is in order where it begins with 1, ends with the two key bytes,
/// and the words of the whole entry add up to a multiple of 65536; where several of these fail the
/// first in this order is told.
pub proof fn validation_entries_add_up(b: Seq<u8>)
    requires
        b.len() == 32,
    ensures
        b[0] != 1 ==> validation_flaw(b) == Some(BootError::InvalidValidationHeader),
        b[0] == 1 && (b[30] != 0x55 || b[31] != 0xAA) ==> validation_flaw(b) == Some(
            BootError::InvalidValidationKey,
        ),
        b[0] == 1 && b[30] == 0x55 && b[31] == 0xAA && words_total(b) % 65536 != 0
            ==> validation_flaw(b) == Some(BootError::InvalidValidationChecksum),
        b[0] == 1 && b[30] == 0x55 && b[31] == 0xAA && words_total(b) % 65536 == 0
            ==> validation_flaw(b) is None,
{
    let (front, sum, key) = (b.take(28), b.subrange(28, 30), b.subrange(30, 32));
    let words = front + seq![0u8, 0u8] + key;
    if b[30] == 0x55 && b[31] == 0xAA {
        assert(key =~= seq![0x55u8, 0xAAu8]);
    } else if key == seq![0x55u8, 0xAAu8] {
        assert(key[0] == 0x55 && key[1] == 0xAA);
    }
    word_sums_are_totals(words);
    totals_split(front + seq![0u8, 0u8], key);
    totals_split(front, seq![0u8, 0u8]);
    totals_split(front + sum, key);
    totals_split(front, sum);
    assert(b =~= front + sum + key);
    reveal_with_fuel(words_total, 2);
    assert(words_total(seq![0u8, 0u8]) == 0);
    assert(words_total(sum) == sum[0] + 256 * sum[1]);
    let c = from_le16(sum) as int;
    let w = words_total(words);
    assert(words_total(b) == w + c);
    assert(c == (65536 - w % 65536) % 65536 <==> (w + c) % 65536 == 0);
}

/// The first entry of a catalog that is written: for the PC, without a name, and with the checksum
/// that makes its words add up.
pub proof fn written_validation_entries(i: int)
    requires
        0 <= i < 32,
    ensures
        x86_validation().len() == 32,
        x86_validation()[i] == (if i == 0 {
            1
        } else if i == 28 {
            0xAA
        } else if i == 29 {
            0x55
        } else if i == 30 {
            0x55
        } else if i == 31 {
            0xAA
        } else {
            0int
        }),
        validation_flaw(x86_validation()) is None,
{
    let middle = Seq::new(24, |k: int| 0u8);
    let words = seq![1u8, 0u8] + seq![0u8, 0u8] + middle + seq![0u8, 0u8] + seq![0x55u8, 0xAAu8];
    word_sums_are_totals(words);
    totals_split(seq![1u8, 0u8] + seq![0u8, 0u8] + middle + seq![0u8, 0u8], seq![0x55u8, 0xAAu8]);
    totals_split(seq![1u8, 0u8] + seq![0u8, 0u8] + middle, seq![0u8, 0u8]);
    totals_split(seq![1u8, 0u8] + seq![0u8, 0u8], middle);
    totals_split(seq![1u8, 0u8], seq![0u8, 0u8]);
    zero_words(24);
    reveal_with_fuel(words_total, 2);
    assert(words_total(seq![1u8, 0u8]) == 1);
    assert(words_total(seq![0u8, 0u8]) == 0);
    assert(words_total(seq![0x55u8, 0xAAu8]) == 0x55 + 256 * 0xAA);
    assert(x86_checksum() == 0x55AA);
    let all = x86_validation();
    assert(le16(0x55AA) =~= seq![0xAAu8, 0x55u8]);
    let front = seq![1u8, 0u8] + seq![0u8, 0u8] + middle;
    assert(all =~= front + seq![0xAAu8, 0x55u8] + seq![0x55u8, 0xAAu8]);
    totals_split(front + seq![0xAAu8, 0x55u8], seq![0x55u8, 0xAAu8]);
    totals_split(front, seq![0xAAu8, 0x55u8]);
    assert(words_total(seq![0xAAu8, 0x55u8]) == 0xAA + 256 * 0x55);
    validation_entries_add_up(all);
}

proof fn zero_words(n: nat)
    requires
        n % 2 == 0,
    ensures
        words_total(Seq::new(n, |k: int| 0u8)) == 0,
    decreases n,
{
    if n >= 2 {
        let s = Seq::new(n, |k: int| 0u8);
        zero_words((n - 2) as nat);
        assert(s.take(n - 2) =~= Seq::new((n - 2) as nat, |k: int| 0u8));
    }
}

/// Reading the sections of a catalog: a header of type 0x90 or 0x91 begins one, 0x91 the last; any
/// other entry belongs to the section before it, and there must be one; an entry that begins with 0
/// ends the catalog, unless another section was announced.
pub proof fn catalogs_are_read_entry_by_entry(entry: Seq<u8>, rest: Seq<u8>, st: ParseState)
    requires
        entry.len() == 32,
    ensures
        ({
            let r = parse_sections(entry + rest, st);
            let done = match st.header {
                Some(header) => st.done.push(SectionView { header, entries: st.entries }),
                None => st.done,
            };
            &&& entry[0] == 0 && !st.has_more ==> r == Ok::<Seq<SectionView>, BootError>(done)
            &&& entry[0] == 0x90 || entry[0] == 0x91 ==> r == parse_sections(
                rest,
                ParseState {
                    done,
                    header: Some(entry),
                    entries: if st.header is Some {
                        Seq::empty()
                    } else {
                        st.entries
                    },
                    has_more: entry[0] == 0x90,
                },
            )
            &&& entry[0] != 0x90 && entry[0] != 0x91 && !(entry[0] == 0 && !st.has_more) ==> {
                &&& st.header is None ==> r == Err::<Seq<SectionView>, BootError>(
                    BootError::ExpectedSectionHeader(entry[0]),
                )
                &&& st.header is Some ==> r == parse_sections(
                    rest,
                    ParseState { entries: st.entries.push(entry), ..st },
                )
            }
        }),
        rest.len() < 32 ==> parse_sections(rest, st) == Err::<Seq<SectionView>, BootError>(
            BootError::Io,
        ),
{
    assert((entry + rest).take(32) =~= entry);
    assert((entry + rest).skip(32) =~= rest);
}

/// A section that is added is the last: its header is of the last kind, and the one before it says
/// that another follows.
pub proof fn sections_are_added_at_the_end(
    sections: Seq<SectionView>,
    section: SectionView,
    platform: u8,
    i: int,
)
    requires
        0 <= i < sections.len(),
        sections.last().header.len() == 32,
    ensures
        ({
            let all = with_section(sections, section);
            &&& all.len() == sections.len() + 1
            &&& all.last() == section
            &&& i < sections.len() - 1 ==> all[i] == sections[i]
            &&& i == sections.len() - 1 ==> all[i].entries == sections[i].entries
                && all[i].header[0] == 0x90 && all[i].header.skip(1) == sections[i].header.skip(1)
        }),
        with_section(Seq::empty(), section) == seq![section],
        ({
            let h = header_bytes(0x91, platform);
            &&& h.len() == 32
            &&& h[0] == 0x91
            &&& h[1] == platform
            &&& h[2] + 0x100 * h[3] == 1
            &&& forall|k: int| 4 <= k < 32 ==> #[trigger] h[k] == 0
        }),
{
    let all = with_section(sections, section);
    if i == sections.len() - 1 {
        assert(all[i].header.skip(1) =~= sections[i].header.skip(1));
    }
    assert(with_section(Seq::empty(), section) =~= seq![section]);
}

/// A catalog is the first entry, the default entry, each section's header with its entries, and an
/// entry of zeros.
pub proof fn catalogs_are_put_together(
    s: CatalogState,
    sections: Seq<SectionView>,
    section: SectionView,
    entries: Seq<Seq<u8>>,
    entry: Seq<u8>,
)
    ensures
        catalog_bytes(s) == x86_validation() + s.default + sections_bytes(s.sections) + Seq::new(
            32,
            |i: int| 0u8,
        ),
        sections_bytes(Seq::empty()) == Seq::<u8>::empty(),
        sections_bytes(sections.push(section)) == sections_bytes(sections) + section.header
            + entries_bytes(section.entries),
        entries_bytes(Seq::empty()) == Seq::<u8>::empty(),
        entries_bytes(entries.push(entry)) == entries_bytes(entries) + entry,
{
    assert(sections.push(section).drop_last() =~= sections);
    assert(entries.push(entry).drop_last() =~= entries);
}

/// A catalog that was read or put together is written as its first two entries, its sections and an
/// entry of zeros; an entry that extends another has its two bytes of flags in front.
pub proof fn whole_catalogs_are_written(c: BootCatalog, e: BootCatalogEntry)
    ensures
        c.bytes() == c.base.validation.bytes() + c.base.default_entry.bytes() + sections_bytes(
            c.sections_view(),
        ) + Seq::new(32, |i: int| 0u8),
        e matches BootCatalogEntry::SectionEntryExtension(x) ==> {
            let b = e.bytes();
            &&& b.len() == 32
            &&& b[0] == x.extension_indicator
            &&& b[1] == x.flags
            &&& b.subrange(2, 32) == x.vendor_unique@
        },
        c.base.is_sound() <==> c.base.validation.flaw() is None
            && c.base.default_entry.boot_indicator == 0x88,
{
    if let BootCatalogEntry::SectionEntryExtension(x) = e {
        assert(e.bytes().subrange(2, 32) =~= x.vendor_unique@);
    }
}

/// The file for a catalog has whole sectors, the fewest that hold three entries and two for each
/// section.
pub proof fn catalog_files_hold_the_catalog(sections: int)
    requires
        0 <= sections,
    ensures
        catalog_file_size(sections) % 2048 == 0,
        32 * (3 + 2 * sections) <= catalog_file_size(sections) < 32 * (3 + 2 * sections) + 2048,
        catalog_file_name() == "boot.catalog"@,
{
}

/// The boot record: kind 0, the letters `CD001`, version 1, the name of the boot system, and where
/// the catalog lies.
#[verifier::spinoff_prover]
#[verifier::rlimit(40)]
pub proof fn boot_records_have_their_places(catalog: u32)
    ensures
        ({
            let b = boot_record_bytes(catalog);
            &&& b.len() == 2048
            &&& b.subrange(0, 7) == seq![
                0u8,
                'C' as u8,
                'D' as u8,
                '0' as u8,
                '0' as u8,
                '1' as u8,
                1u8,
            ]
            &&& b.subrange(7, 30) == encode_utf8("EL TORITO SPECIFICATION"@)
            &&& b.subrange(30, 71) == zeros(41)
            &&& b.subrange(71, 75) == le32(catalog)
            &&& b.subrange(75, 2048) == zeros(1973)
        }),
{
    reveal_strlit("EL TORITO SPECIFICATION");
    vstd::utf8::is_ascii_chars_encode_utf8("EL TORITO SPECIFICATION"@);
    assert(Seq::new(41, |i: int| 0u8) =~= zeros(41));
    assert(Seq::new(1973, |i: int| 0u8) =~= zeros(1973));
    let a0 = seq![0u8, 0x43u8, 0x44u8, 0x30u8, 0x30u8, 0x31u8, 1u8];
    assert(a0.len() == 7);
    let a1 = a0 + encode_utf8("EL TORITO SPECIFICATION"@);
    assert(a1.len() == 30);
    let a2 = a1 + zeros(41);
    assert(a2.len() == 71);
    let a3 = a2 + le32(catalog);
    assert(a3.len() == 75);
    let a4 = a3 + zeros(1973);
    assert(a4.len() == 2048);
    let all = boot_record_bytes(catalog);
    assert(all == a4);
    begins_with_itself(all);
    second_piece(a3, zeros(1973), all);
    second_piece(a2, le32(catalog), all);
    second_piece(a1, zeros(41), all);
    second_piece(a0, encode_utf8("EL TORITO SPECIFICATION"@), all);
    first_piece(a0, all);
}

/// How many sectors of 512 bytes are loaded: what was asked for; else one where the image stands in
/// for a disk, and otherwise the image's.
pub proof fn images_are_loaded_whole(entry: BootEntryOptions, size: usize)
    requires
        size <= 65535 * 512,
    ensures
        entry.load_size matches Some(n) ==> load_size_of(entry, size) == n,
        entry.load_size is None && entry.emulation.emulates() ==> load_size_of(entry, size) == 1,
        entry.load_size is None && !entry.emulation.emulates() ==> 512 * (load_size_of(entry, size)
            - 1) < size <= 512 * load_size_of(entry, size),
{
}

/// The checksum of a boot image adds up its words of four bytes from byte 64 on.
pub proof fn image_checksums_add_words(data: Seq<u8>, a: u8, b: u8, c: u8, d: u8)
    requires
        data.len() % 4 == 0,
    ensures
        words_sum(Seq::empty()) == 0,
        words_sum(data + seq![a, b, c, d]) == (words_sum(data) + a + 0x100 * b + 0x10000 * c
            + 0x1000000 * d) % 0x1_0000_0000,
{
    let s = data + seq![a, b, c, d];
    let n = s.len() / 4 * 4;
    assert(n == s.len());
    assert(s.take(n - 4) =~= data);
    assert(s.subrange(n - 4, n as int) =~= seq![a, b, c, d]);
}

/// The table that is written into a boot image: the sector of the volume descriptor, where the
/// image lies, its length and its checksum, and for GRUB zeros behind it. It goes to byte 8 of
/// the image; an image with less than 64 bytes has no room for it.
#[verifier::spinoff_prover]
#[verifier::rlimit(40)]
pub proof fn information_tables_have_their_places(
    data: Seq<u8>,
    entry: BootEntryOptions,
    image: DirectoryRef,
)
    requires
        image.extent.0 <= u32::MAX,
        image.size <= u32::MAX,
    ensures
        image.size < 64 ==> with_info_table(data, entry, image) == Err::<Seq<u8>, IsoCreationError>(
            IsoCreationError::BootImageTooSmall,
        ),
        image.size >= 64 && 2048 * image.extent.0 + image.size > data.len() ==> with_info_table(
            data,
            entry,
            image,
        ) == Err::<Seq<u8>, IsoCreationError>(IsoCreationError::UnexpectedEnd),
        image.size >= 64 && 2048 * image.extent.0 + image.size <= data.len() ==> {
            let at = 2048 * image.extent.0;
            let sum = words_sum(data.subrange(at + 64, at + image.size));
            let len = if entry.grub2_boot_info {
                56int
            } else {
                16
            };
            &&& with_info_table(data, entry, image) matches Ok(r) && r.len() == data.len()
                && r.subrange(0, at + 8) == data.subrange(0, at + 8) && number32(r, at + 8) == 16
                && number32(r, at + 12) == image.extent.0 && number32(r, at + 16) == image.size
                && number32(r, at + 20) == sum && (entry.grub2_boot_info ==> r.subrange(
                at + 24,
                at + 64,
            ) == zeros(40)) && r.subrange(at + 8 + len, data.len() as int) == data.subrange(
                at + 8 + len,
                data.len() as int,
            )
        },
{
    if image.size >= 64 && 2048 * image.extent.0 + image.size <= data.len() {
        let at = 2048 * image.extent.0 as int;
        let n = data.len() as int;
        let part = checked_part(data, image);
        assert(part =~= data.subrange(at + 64, at + image.size));
        sums_are_words(part);
        let sum = words_sum(part) as u32;
        let (w, x, y, z) = (
            le32(16),
            le32(image.extent.0 as u32),
            le32(image.size as u32),
            le32(sum),
        );
        numbers_are_written_low_byte_first(0, 16, 0);
        numbers_are_written_low_byte_first(0, image.extent.0 as u32, 0);
        numbers_are_written_low_byte_first(0, image.size as u32, 0);
        numbers_are_written_low_byte_first(0, sum, 0);
        let table = info_table(entry, image, sum);
        let len = table.len() as int;
        let r = overwritten(data, at + 8, table);
        assert(r.len() == n);
        assert(r.subrange(0, at + 8) =~= data.subrange(0, at + 8));
        assert(r.subrange(at + 8, at + 12) =~= w);
        assert(r.subrange(at + 12, at + 16) =~= x);
        assert(r.subrange(at + 16, at + 20) =~= y);
        assert(r.subrange(at + 20, at + 24) =~= z);
        assert(number32(r.subrange(at + 8, at + 12), 0) == number32(r, at + 8));
        assert(number32(r.subrange(at + 12, at + 16), 0) == number32(r, at + 12));
        assert(number32(r.subrange(at + 16, at + 20), 0) == number32(r, at + 16));
        assert(number32(r.subrange(at + 20, at + 24), 0) == number32(r, at + 20));
        if entry.grub2_boot_info {
            assert(r.subrange(at + 24, at + 64) =~= zeros(40));
        }
        assert(r.subrange(at + 8 + len, n) =~= data.subrange(at + 8 + len, n));
    }
}

proof fn sums_are_words(data: Seq<u8>)
    ensures
        0 <= words_sum(data) <= u32::MAX,
{
    if data.len() >= 4 {
        let n = data.len() / 4 * 4;
        let t = words_sum(data.take(n - 4)) + from_le32(data.subrange(n - 4, n as int));
        assert(0 <= t % 0x1_0000_0000 < 0x1_0000_0000);
    }
}

/// Each entry of a catalog names an image: it says where the image lies and how much of it is
/// loaded, in the default entry or in a section of its own, and the image gets its table where it
/// wants one.
pub proof fn catalogs_name_their_images(
    root: DirView,
    s: CatalogState,
    section: Option<BootSectionOptions>,
    entry: BootEntryOptions,
)
    ensures
        match find_parts(root, lookup_parts(entry.boot_image_path@)) {
            None => catalog_step(root, s, section, entry) == Err::<CatalogState, IsoCreationError>(
                IsoCreationError::BootImageNotFound,
            ),
            Some(image) => {
                let bytes = boot_entry_bytes(
                    entry.emulation,
                    0,
                    load_size_of(entry, image.size),
                    image.extent.0 as u32,
                );
                let wants = entry.boot_info_table || entry.grub2_boot_info;
                let table = with_info_table(s.data, entry, image);
                match catalog_step(root, s, section, entry) {
                    Ok(t) => {
                        &&& !wants ==> t.data == s.data
                        &&& wants ==> table == Ok::<Seq<u8>, IsoCreationError>(t.data)
                        &&& section is None ==> t.default == bytes && t.sections == s.sections
                        &&& section matches Some(o) ==> t.default == s.default && t.sections
                            == with_section(
                            s.sections,
                            SectionView {
                                header: header_bytes(0x91, o.platform.spec_to_u8()),
                                entries: seq![bytes],
                            },
                        )
                    },
                    Err(e) => wants && table == Err::<Seq<u8>, IsoCreationError>(e),
                }
            },
        },
{
}

/// A catalog lists the default entry first, then the others in their order; without a file of its
/// own it is appended to the data, in whole sectors, and else it is written over the file.
pub proof fn catalogs_are_written(root: DirView, boot: BootOptions, data: Seq<u8>, n: int)
    requires
        0 < n <= boot.entries@.len(),
    ensures
        catalog_steps(root, boot, data, 0) == catalog_step(
            root,
            CatalogState {
                data,
                default: boot_entry_bytes(EmulationType::NoEmulation, 0, 0, 0),
                sections: Seq::empty(),
            },
            None,
            boot.default,
        ),
        match catalog_steps(root, boot, data, n - 1) {
            Ok(s) => catalog_steps(root, boot, data, n) == catalog_step(
                root,
                s,
                Some(boot.entries@[n - 1].0),
                boot.entries@[n - 1].1,
            ),
            Err(e) => catalog_steps(root, boot, data, n) == Err::<CatalogState, IsoCreationError>(e),
        },
        match catalog_steps(root, boot, padded(data), boot.entries@.len() as int) {
            Err(e) => with_catalog(root, boot, data) == Err::<(Seq<u8>, u32), IsoCreationError>(e),
            Ok(s) => !boot.write_boot_catalog ==> with_catalog(root, boot, data) == Ok::<
                (Seq<u8>, u32),
                IsoCreationError,
            >((padded(s.data + catalog_bytes(s)), (s.data.len() / 2048) as u32)),
        },
{
}

/// Where the catalog has a file, it is written over the file's first bytes; the file must exist and
/// be large enough.
pub proof fn catalogs_are_written_over_their_file(root: DirView, boot: BootOptions, data: Seq<u8>)
    requires
        boot.write_boot_catalog,
    ensures
        catalog_steps(root, boot, padded(data), boot.entries@.len() as int) matches Ok(s) ==> {
            let r = with_catalog(root, boot, data);
            let c = catalog_bytes(s);
            match find_parts(root, lookup_parts("boot.catalog"@)) {
                None => r == Err::<(Seq<u8>, u32), IsoCreationError>(
                    IsoCreationError::BootCatalogNotFound,
                ),
                Some(file) => {
                    &&& file.size < c.len() ==> r == Err::<(Seq<u8>, u32), IsoCreationError>(
                        IsoCreationError::BootCatalogTooSmall,
                    )
                    &&& file.size >= c.len() && 2048 * file.extent.0 + c.len() <= s.data.len() ==> (
                    r matches Ok((d, sector)) && sector == file.extent.0 as u32 && d.len()
                        == s.data.len() && d.subrange(
                        2048 * file.extent.0,
                        2048 * file.extent.0 + c.len(),
                    ) == c && d.subrange(0, 2048 * file.extent.0) == s.data.subrange(
                        0,
                        2048 * file.extent.0,
                    ) && d.skip(2048 * file.extent.0 + c.len()) == s.data.skip(
                        2048 * file.extent.0 + c.len(),
                    ))
                },
            }
        },
{
    if let Ok(s) = catalog_steps(root, boot, padded(data), boot.entries@.len() as int) {
        let c = catalog_bytes(s);
        if let Some(file) = find_parts(root, lookup_parts("boot.catalog"@)) {
            let at = 2048 * file.extent.0 as int;
            if file.size >= c.len() && at + c.len() <= s.data.len() {
                let d = overwritten(s.data, at, c);
                assert(d.subrange(at, at + c.len()) =~= c);
                assert(d.subrange(0, at) =~= s.data.subrange(0, at));
                assert(d.skip(at + c.len()) =~= s.data.skip(at + c.len()));
            }
        }
    }
}

/// A section takes 32 bytes for its header and as many for each of its entries.
pub proof fn sections_take_their_entries(sections: Seq<SectionView>, section: SectionView)
    ensures
        sections_size(Seq::empty()) == 0,
        sections_size(sections.push(section)) == sections_size(sections) + 32 + 32
            * section.entries.len(),
{
    assert(sections.push(section).drop_last() =~= sections);
}

} // verus!
