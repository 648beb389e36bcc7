//! The El Torito boot catalog and boot information tables.

use crate::bytes::{copy_range, get_le16, get_le32, push_all, push_le16, push_le32, push_zeros};
#[allow(unused_imports)]
use crate::bytes::{from_le16, le16, le16_round_trip, le32, le32_of_from_le32};
#[allow(unused_imports)]
use crate::iso::tree::{entries_view, no_metadata, EntryView, KindView};
use crate::iso::tree::{InputEntry, InputEntryKind, InputTree};
use vstd::prelude::*;

verus! {

/// What is wrong with a boot catalog.
#[derive(Debug, Clone, Copy, PartialEq, Eq, Structural)]
pub enum BootError {
    /// The data ends too early.
    Io,
    /// The checksum of the validation entry is wrong.
    InvalidValidationChecksum,
    /// The header of the validation entry is not 1.
    InvalidValidationHeader,
    /// The key of the validation entry is not 55 AA.
    InvalidValidationKey,
    /// The default entry is not bootable.
    InvalidDefaultEntry,
    /// An entry stands where a section header is due; its first byte is given.
    ExpectedSectionHeader(u8),
    /// The catalog ends where more sections are due.
    UnexpectedEndOfCatalog,
}

/// The platform that a section is for.
#[derive(Debug, Clone, Copy, PartialEq, Eq, Structural)]
pub enum PlatformId {
    /// x86.
    X80X86,
    /// PowerPC.
    PowerPC,
    /// Macintosh.
    Macintosh,
    /// UEFI.
    UEFI,
    /// Any other.
    Unknown(u8),
}

impl PlatformId {
    /// The platform of a byte.
    pub open spec fn spec_from_u8(value: u8) -> Self {
        if value == 0x00 {
            PlatformId::X80X86
        } else if value == 0x01 {
            PlatformId::PowerPC
        } else if value == 0x02 {
            PlatformId::Macintosh
        } else if value == 0xEF {
            PlatformId::UEFI
        } else {
            PlatformId::Unknown(value)
        }
    }

    /// The byte of a platform.
    pub open spec fn spec_to_u8(self) -> u8 {
        match self {
            PlatformId::X80X86 => 0x00,
            PlatformId::PowerPC => 0x01,
            PlatformId::Macintosh => 0x02,
            PlatformId::UEFI => 0xEF,
            PlatformId::Unknown(value) => value,
        }
    }

    /// The platform of a byte.
    pub fn from_u8(value: u8) -> (r: Self)
        ensures
            r == Self::spec_from_u8(value),
            r.spec_to_u8() == value,
    {
        match value {
            0x00 => PlatformId::X80X86,
            0x01 => PlatformId::PowerPC,
            0x02 => PlatformId::Macintosh,
            0xEF => PlatformId::UEFI,
            value => PlatformId::Unknown(value),
        }
    }

    /// The byte of a platform.
    pub fn to_u8(self) -> (r: u8)
        ensures
            r == self.spec_to_u8(),
    {
        match self {
            PlatformId::X80X86 => 0x00,
            PlatformId::PowerPC => 0x01,
            PlatformId::Macintosh => 0x02,
            PlatformId::UEFI => 0xEF,
            PlatformId::Unknown(value) => value,
        }
    }
}

/// The medium that the firmware emulates.
#[derive(Debug, Clone, Copy, PartialEq, Eq, Structural)]
pub enum EmulationType {
    /// None.
    NoEmulation,
    /// A 1.2 MB diskette.
    Floppy1_2,
    /// A 1.44 MB diskette.
    Floppy1_44,
    /// A 2.88 MB diskette.
    Floppy2_88,
    /// A hard disk.
    HardDisk,
    /// Any other byte, or one with flags.
    Unknown(u8),
}

impl EmulationType {
    /// The emulation of a byte.
    pub open spec fn spec_from_u8(value: u8) -> Self {
        if value == 0x00 {
            EmulationType::NoEmulation
        } else if value == 0x01 {
            EmulationType::Floppy1_2
        } else if value == 0x02 {
            EmulationType::Floppy1_44
        } else if value == 0x03 {
            EmulationType::Floppy2_88
        } else if value == 0x04 {
            EmulationType::HardDisk
        } else {
            EmulationType::Unknown(value)
        }
    }

    /// The byte of an emulation.
    pub open spec fn spec_to_u8(self) -> u8 {
        match self {
            EmulationType::NoEmulation => 0x00,
            EmulationType::Floppy1_2 => 0x01,
            EmulationType::Floppy1_44 => 0x02,
            EmulationType::Floppy2_88 => 0x03,
            EmulationType::HardDisk => 0x04,
            EmulationType::Unknown(value) => value,
        }
    }

    /// Whether a medium is emulated: the low four bits say so, the others are flags.
    pub open spec fn emulates(self) -> bool {
        self.spec_to_u8() % 16 != 0
    }

    /// The emulation of a byte.
    pub fn from_u8(value: u8) -> (r: Self)
        ensures
            r == Self::spec_from_u8(value),
            r.spec_to_u8() == value,
    {
        match value {
            0x00 => EmulationType::NoEmulation,
            0x01 => EmulationType::Floppy1_2,
            0x02 => EmulationType::Floppy1_44,
            0x03 => EmulationType::Floppy2_88,
            0x04 => EmulationType::HardDisk,
            value => EmulationType::Unknown(value),
        }
    }

    /// The byte of an emulation.
    pub fn to_u8(self) -> (r: u8)
        ensures
            r == self.spec_to_u8(),
    {
        match self {
            EmulationType::NoEmulation => 0x00,
            EmulationType::Floppy1_2 => 0x01,
            EmulationType::Floppy1_44 => 0x02,
            EmulationType::Floppy2_88 => 0x03,
            EmulationType::HardDisk => 0x04,
            EmulationType::Unknown(value) => value,
        }
    }

    /// Whether a medium is emulated: the low four bits say so, the others are flags.
    pub fn is_emulated(self) -> (r: bool)
        ensures
            r == self.emulates(),
    {
        self.to_u8() % 16 != 0
    }
}

/// A byte stands for one platform and one emulation, which give the byte back.
pub proof fn boot_codes_round_trip(value: u8)
    ensures
        PlatformId::spec_from_u8(value).spec_to_u8() == value,
        EmulationType::spec_from_u8(value).spec_to_u8() == value,
{
}

/// The sum of little-endian 16-bit words, without what exceeds 16 bits.
pub open spec fn word_sum(s: Seq<u8>) -> int
    decreases s.len(),
{
    if s.len() < 2 {
        0
    } else {
        (word_sum(s.take(s.len() - 2)) + s[s.len() - 2] + 256 * s[s.len() - 1]) % 65536
    }
}

/// The validation entry, the first of a boot catalog.
#[derive(Debug, Clone, Copy)]
pub struct BootValidationEntry {
    /// 1.
    pub header_id: u8,
    /// Platform.
    pub platform_id: u8,
    /// Not used.
    pub reserved: [u8; 2],
    /// Manufacturer.
    pub manufacturer: [u8; 24],
    /// Makes the sum of all words zero.
    pub checksum: u16,
    /// 55 AA.
    pub key: [u8; 2],
}

fn array2(data: &[u8], at: usize) -> (r: [u8; 2])
    requires
        at + 2 <= data.len(),
    ensures
        r@ == data@.subrange(at as int, at + 2),
{
    let r: [u8; 2] = [data[at], data[at + 1]];
    assert(r@ =~= data@.subrange(at as int, at + 2));
    r
}

fn array19(data: &[u8], at: usize) -> (r: [u8; 19])
    requires
        at + 19 <= data.len(),
    ensures
        r@ == data@.subrange(at as int, at + 19),
{
    let mut r: [u8; 19] = [0; 19];
    let mut i: usize = 0;
    while i < 19
        invariant
            i <= 19,
            at + 19 <= data.len(),
            forall|k: int| 0 <= k < i ==> r@[k] == data@[at + k],
        decreases 19 - i,
    {
        r[i] = data[at + i];
        i += 1;
    }
    assert(r@ =~= data@.subrange(at as int, at + 19));
    r
}

fn array24(data: &[u8], at: usize) -> (r: [u8; 24])
    requires
        at + 24 <= data.len(),
    ensures
        r@ == data@.subrange(at as int, at + 24),
{
    let mut r: [u8; 24] = [0; 24];
    let mut i: usize = 0;
    while i < 24
        invariant
            i <= 24,
            at + 24 <= data.len(),
            forall|k: int| 0 <= k < i ==> r@[k] == data@[at + k],
        decreases 24 - i,
    {
        r[i] = data[at + i];
        i += 1;
    }
    assert(r@ =~= data@.subrange(at as int, at + 24));
    r
}

fn array28(data: &[u8], at: usize) -> (r: [u8; 28])
    requires
        at + 28 <= data.len(),
    ensures
        r@ == data@.subrange(at as int, at + 28),
{
    let mut r: [u8; 28] = [0; 28];
    let mut i: usize = 0;
    while i < 28
        invariant
            i <= 28,
            at + 28 <= data.len(),
            forall|k: int| 0 <= k < i ==> r@[k] == data@[at + k],
        decreases 28 - i,
    {
        r[i] = data[at + i];
        i += 1;
    }
    assert(r@ =~= data@.subrange(at as int, at + 28));
    r
}

proof fn word_sum_push(s: Seq<u8>, a: u8, b: u8)
    ensures
        word_sum(s + seq![a, b]) == (word_sum(s) + a + 256 * b) % 65536,
{
    let t = s + seq![a, b];
    assert(t.take(t.len() - 2) =~= s);
}

proof fn word_sum_bounds(s: Seq<u8>)
    ensures
        0 <= word_sum(s) < 65536,
{
}

/// The number that a word holds.
spec fn word_at(s: Seq<u8>) -> int {
    s[0] + 256 * s[1]
}

/// Replacing the word behind `s` by another changes the sum by the difference.
proof fn word_sum_replace(s: Seq<u8>, x: Seq<u8>, y: Seq<u8>, t: Seq<u8>)
    requires
        x.len() == 2,
        y.len() == 2,
        t.len() % 2 == 0,
    ensures
        (word_sum(s + x + t) + word_at(y)) % 65536 == (word_sum(s + y + t) + word_at(x)) % 65536,
    decreases t.len(),
{
    if t.len() == 0 {
        assert(s + x + t =~= s + seq![x[0], x[1]]);
        assert(s + y + t =~= s + seq![y[0], y[1]]);
        word_sum_push(s, x[0], x[1]);
        word_sum_push(s, y[0], y[1]);
        sum_swap(word_sum(s), word_at(x), word_at(y));
    } else {
        let u = t.take(t.len() - 2);
        let (a, b) = (t[t.len() - 2], t[t.len() - 1]);
        word_sum_replace(s, x, y, u);
        let (p, q) = (word_sum(s + x + u), word_sum(s + y + u));
        assert(word_sum(s + x + t) == (p + (a + 256 * b)) % 65536) by {
            assert(s + x + t =~= (s + x + u) + seq![a, b]);
            word_sum_push(s + x + u, a, b);
        }
        assert(word_sum(s + y + t) == (q + (a + 256 * b)) % 65536) by {
            assert(s + y + t =~= (s + y + u) + seq![a, b]);
            word_sum_push(s + y + u, a, b);
        }
        sum_step(p, q, word_at(x), word_at(y), a + 256 * b);
    }
}

proof fn sum_swap(w: int, x: int, y: int)
    ensures
        ((w + x) % 65536 + y) % 65536 == ((w + y) % 65536 + x) % 65536,
{
    assert(((w + x) % 65536 + y) % 65536 == (w + x + y) % 65536);
    assert(((w + y) % 65536 + x) % 65536 == (w + x + y) % 65536);
}

proof fn sum_step(p: int, q: int, x: int, y: int, c: int)
    requires
        (p + y) % 65536 == (q + x) % 65536,
    ensures
        ((p + c) % 65536 + y) % 65536 == ((q + c) % 65536 + x) % 65536,
{
    assert(((p + c) % 65536 + y) % 65536 == (p + c + y) % 65536);
    assert(((q + c) % 65536 + x) % 65536 == (q + c + x) % 65536);
    assert((p + c + y) % 65536 == ((p + y) % 65536 + c) % 65536);
    assert((q + c + x) % 65536 == ((q + x) % 65536 + c) % 65536);
}

/// The checksum of the validation entry for x86.
pub open spec fn x86_checksum() -> u16 {
    ((65536 - word_sum(
        seq![1u8, 0u8] + seq![0u8, 0u8] + Seq::new(24, |i: int| 0u8) + seq![0u8, 0u8] + seq![
            0x55u8,
            0xAAu8,
        ],
    )) % 65536) as u16
}

/// The validation entry for x86.
pub open spec fn x86_validation() -> Seq<u8> {
    seq![1u8, 0u8] + seq![0u8, 0u8] + Seq::new(24, |i: int| 0u8) + le16(x86_checksum()) + seq![
        0x55u8,
        0xAAu8,
    ]
}

/// What is wrong with the 32 bytes of a validation entry, if anything: header, then key, then
/// checksum.
pub open spec fn validation_flaw(b: Seq<u8>) -> Option<BootError> {
    let words = b.take(28) + seq![0u8, 0u8] + b.subrange(30, 32);
    if b[0] != 0x01 {
        Some(BootError::InvalidValidationHeader)
    } else if b.subrange(30, 32) != seq![0x55u8, 0xAAu8] {
        Some(BootError::InvalidValidationKey)
    } else if from_le16(b.subrange(28, 30)) != ((65536 - word_sum(words)) % 65536) as u16 {
        Some(BootError::InvalidValidationChecksum)
    } else {
        None
    }
}

/// What is wrong with the first two entries of a catalog, if anything: each must be there, and
/// a flaw of the first comes before what is wrong with the second.
pub open spec fn base_flaw(data: Seq<u8>) -> Option<BootError> {
    if data.len() < 32 {
        Some(BootError::Io)
    } else if validation_flaw(data.take(32)) is Some {
        validation_flaw(data.take(32))
    } else if data.len() < 64 {
        Some(BootError::Io)
    } else if data[32] != 0x88 {
        Some(BootError::InvalidDefaultEntry)
    } else {
        None
    }
}

impl BootValidationEntry {
    /// The 32 bytes of the entry.
    pub open spec fn bytes(&self) -> Seq<u8> {
        seq![self.header_id, self.platform_id] + self.reserved@ + self.manufacturer@ + le16(
            self.checksum,
        ) + self.key@
    }

    /// The checksum that makes the sum of all words zero.
    pub open spec fn right_checksum(&self) -> u16 {
        ((65536 - word_sum(
            seq![self.header_id, self.platform_id] + self.reserved@ + self.manufacturer@ + seq![
                0u8,
                0u8,
            ] + self.key@,
        )) % 65536) as u16
    }

    /// What is wrong with the entry, if anything: header, then key, then checksum.
    pub open spec fn flaw(&self) -> Option<BootError> {
        if self.header_id != 0x01 {
            Some(BootError::InvalidValidationHeader)
        } else if self.key@ != seq![0x55u8, 0xAAu8] {
            Some(BootError::InvalidValidationKey)
        } else if self.checksum != self.right_checksum() {
            Some(BootError::InvalidValidationChecksum)
        } else {
            None
        }
    }

    /// What is wrong with an entry can be told from its bytes.
    pub proof fn flaw_by_bytes(&self)
        ensures
            self.flaw() == validation_flaw(self.bytes()),
    {
        let b = self.bytes();
        le16_round_trip(self.checksum);
        assert(b.subrange(30, 32) =~= self.key@);
        assert(b.subrange(28, 30) =~= le16(self.checksum));
        assert(b.take(28) + seq![0u8, 0u8] + b.subrange(30, 32) =~= seq![
            self.header_id,
            self.platform_id,
        ] + self.reserved@ + self.manufacturer@ + seq![0u8, 0u8] + self.key@);
    }

    /// A valid entry for x86.
    pub fn new() -> (r: Self)
        ensures
            r.header_id == 1,
            r.platform_id == 0,
            r.reserved@ == seq![0u8, 0u8],
            r.manufacturer@ == Seq::new(24, |i: int| 0u8),
            r.key@ == seq![0x55u8, 0xAAu8],
            r.checksum == r.right_checksum(),
            r.flaw() is None,
            r.bytes() == x86_validation(),
    {
        let mut entry: BootValidationEntry = BootValidationEntry {
            header_id: 1,
            platform_id: 0,
            reserved: [0; 2],
            manufacturer: [0; 24],
            checksum: 0,
            key: [0x55, 0xAA],
        };
        let sum: u16 = entry.calculate_checksum();
        entry.checksum = sum;
        assert(entry.reserved@ =~= seq![0u8, 0u8]);
        assert(entry.manufacturer@ =~= Seq::new(24, |i: int| 0u8));
        assert(entry.key@ =~= seq![0x55u8, 0xAAu8]);
        entry
    }

    /// Whether the entry is valid.
    pub fn is_valid(&self) -> (r: bool)
        ensures
            r == (self.flaw() is None),
    {
        self.validate().is_ok()
    }

    /// Checks header, key and checksum, in this order.
    pub fn validate(&self) -> (r: Result<(), BootError>)
        ensures
            r == match self.flaw() {
                Some(e) => Err::<(), BootError>(e),
                None => Ok(()),
            },
    {
        if self.header_id != 0x01 {
            return Err(BootError::InvalidValidationHeader);
        }
        if self.key[0] != 0x55 || self.key[1] != 0xAA {
            assert(self.key@ != seq![0x55u8, 0xAAu8]);
            return Err(BootError::InvalidValidationKey);
        }
        assert(self.key@ =~= seq![0x55u8, 0xAAu8]);
        if self.checksum != self.calculate_checksum() {
            return Err(BootError::InvalidValidationChecksum);
        }
        Ok(())
    }

    /// The checksum that makes the sum of all words zero: the two's complement of the sum
    /// of the others.
    pub fn calculate_checksum(&self) -> (r: u16)
        ensures
            r == self.right_checksum(),
    {
        let mut data: Vec<u8> = Vec::new();
        data.push(self.header_id);
        data.push(self.platform_id);
        push_all(&mut data, &self.reserved);
        push_all(&mut data, &self.manufacturer);
        data.push(0);
        data.push(0);
        push_all(&mut data, &self.key);
        let ghost all = seq![self.header_id, self.platform_id] + self.reserved@
            + self.manufacturer@ + seq![0u8, 0u8] + self.key@;
        assert(data@ =~= all);
        let mut sum: u16 = 0;
        let mut i: usize = 0;
        while i < 32
            invariant
                i <= 32,
                i % 2 == 0,
                data@.len() == 32,
                sum == word_sum(data@.take(i as int)),
            decreases 32 - i,
        {
            let value: u16 = get_le16(data.as_slice(), i);
            proof {
                assert(data@.take(i + 2) =~= data@.take(i as int) + seq![
                    data@[i as int],
                    data@[i + 1],
                ]);
                word_sum_push(data@.take(i as int), data@[i as int], data@[i + 1]);
                let pair = data@.subrange(i as int, i + 2);
                assert(pair[0] == data@[i as int] && pair[1] == data@[i + 1]);
            }
            sum = sum.wrapping_add(value);
            i += 2;
        }
        assert(data@.take(32) =~= all);
        if sum == 0 {
            0
        } else {
            (65535 - sum) + 1
        }
    }

    /// The bytes of the entry.
    pub fn to_bytes(&self) -> (r: Vec<u8>)
        ensures
            r@ == self.bytes(),
            r@.len() == 32,
    {
        let mut data: Vec<u8> = Vec::new();
        data.push(self.header_id);
        data.push(self.platform_id);
        push_all(&mut data, &self.reserved);
        push_all(&mut data, &self.manufacturer);
        push_le16(&mut data, self.checksum);
        push_all(&mut data, &self.key);
        assert(data@ =~= self.bytes());
        data
    }

    /// The entry of 32 bytes; nothing where there are fewer.
    pub fn parse(data: &[u8]) -> (r: Result<Self, BootError>)
        ensures
            data@.len() < 32 ==> r == Err::<Self, BootError>(BootError::Io),
            data@.len() >= 32 ==> (r matches Ok(e) && e.bytes() == data@.take(32)),
    {
        if data.len() < 32 {
            return Err(BootError::Io);
        }
        let e: BootValidationEntry = BootValidationEntry {
            header_id: data[0],
            platform_id: data[1],
            reserved: array2(data, 2),
            manufacturer: array24(data, 4),
            checksum: get_le16(data, 28),
            key: array2(data, 30),
        };
        proof {
            let pair = data@.subrange(28, 30);
            assert(le16(e.checksum) =~= pair);
            assert(e.bytes() =~= data@.take(32));
        }
        Ok(e)
    }
}

impl Default for BootValidationEntry {
    fn default() -> (r: Self)
        ensures
            r.flaw() is None,
            r.platform_id == 0,
    {
        Self::new()
    }
}

/// In a valid validation entry the words sum to zero.
pub proof fn valid_entry_sums_to_zero(e: BootValidationEntry)
    requires
        e.checksum == e.right_checksum(),
    ensures
        word_sum(e.bytes()) == 0,
{
    let s = seq![e.header_id, e.platform_id] + e.reserved@ + e.manufacturer@;
    let zero = seq![0u8, 0u8];
    let c = le16(e.checksum);
    le16_round_trip(e.checksum);
    word_sum_replace(s, c, zero, e.key@);
    word_sum_bounds(s + zero + e.key@);
    word_sum_bounds(s + c + e.key@);
    assert(c[0] + 256 * c[1] == e.checksum);
}

/// A section header.
#[derive(Debug, Clone, Copy)]
pub struct BootSectionHeaderEntry {
    /// 0x90, or 0x91 for the last section.
    pub header_type: u8,
    /// Platform.
    pub platform_id: u8,
    /// Number of entries. A header that is built for a new section says 1, however many entries
    /// the section has.
    pub section_count: u16,
    /// Identifier.
    pub section_ident: [u8; 28],
}

impl BootSectionHeaderEntry {
    /// The 32 bytes of the header.
    pub open spec fn bytes(&self) -> Seq<u8> {
        seq![self.header_type, self.platform_id] + le16(self.section_count) + self.section_ident@
    }

    /// The bytes of the header.
    pub fn to_bytes(&self) -> (r: Vec<u8>)
        ensures
            r@ == self.bytes(),
            r@.len() == 32,
    {
        let mut data: Vec<u8> = Vec::new();
        data.push(self.header_type);
        data.push(self.platform_id);
        push_le16(&mut data, self.section_count);
        push_all(&mut data, &self.section_ident);
        assert(data@ =~= self.bytes());
        data
    }

    fn from_bytes(data: &[u8]) -> (r: Self)
        requires
            data@.len() == 32,
        ensures
            r.bytes() == data@,
    {
        let e: BootSectionHeaderEntry = BootSectionHeaderEntry {
            header_type: data[0],
            platform_id: data[1],
            section_count: get_le16(data, 2),
            section_ident: array28(data, 4),
        };
        proof {
            assert(le16(e.section_count) =~= data@.subrange(2, 4));
            assert(e.bytes() =~= data@);
        }
        e
    }
}

/// An entry that names a boot image.
#[derive(Debug, Clone, Copy)]
pub struct BootSectionEntry {
    /// 0x88 where the image is bootable.
    pub boot_indicator: u8,
    /// Emulation.
    pub boot_media_type: u8,
    /// Segment that the image is loaded to.
    pub load_segment: u16,
    /// System type.
    pub system_type: u8,
    /// Not used.
    pub reserved0: u8,
    /// Number of 512-byte sectors that are loaded.
    pub sector_count: u16,
    /// Sector where the image lies.
    pub load_rba: u32,
    /// Selection criteria.
    pub selection_criteria: u8,
    /// Selection criteria of the vendor.
    pub vendor_unique: [u8; 19],
}

/// The entry of a bootable image.
pub open spec fn boot_entry_bytes(
    media_type: EmulationType,
    load_segment: u16,
    sector_count: u16,
    load_rba: u32,
) -> Seq<u8> {
    seq![0x88u8, media_type.spec_to_u8()] + le16(load_segment) + seq![0u8, 0u8] + le16(
        sector_count,
    ) + le32(load_rba) + seq![0u8] + Seq::new(19, |i: int| 0u8)
}

impl BootSectionEntry {
    /// The 32 bytes of the entry.
    pub open spec fn bytes(&self) -> Seq<u8> {
        seq![self.boot_indicator, self.boot_media_type] + le16(self.load_segment) + seq![
            self.system_type,
            self.reserved0,
        ] + le16(self.sector_count) + le32(self.load_rba) + seq![self.selection_criteria]
            + self.vendor_unique@
    }

    /// A bootable entry.
    pub fn new(
        media_type: EmulationType,
        load_segment: u16,
        sector_count: u16,
        load_rba: u32,
    ) -> (r: Self)
        ensures
            r.boot_indicator == 0x88,
            r.boot_media_type == media_type.spec_to_u8(),
            r.load_segment == load_segment,
            r.system_type == 0,
            r.reserved0 == 0,
            r.sector_count == sector_count,
            r.load_rba == load_rba,
            r.selection_criteria == 0,
            r.vendor_unique@ == Seq::new(19, |i: int| 0u8),
            r.bytes() == boot_entry_bytes(media_type, load_segment, sector_count, load_rba),
    {
        let r: BootSectionEntry = BootSectionEntry {
            boot_indicator: 0x88,
            boot_media_type: media_type.to_u8(),
            load_segment,
            system_type: 0,
            reserved0: 0,
            sector_count,
            load_rba,
            selection_criteria: 0,
            vendor_unique: [0; 19],
        };
        assert(r.vendor_unique@ =~= Seq::new(19, |i: int| 0u8));
        r
    }

    /// Whether the image is bootable.
    pub fn is_bootable(&self) -> (r: bool)
        ensures
            r == (self.boot_indicator == 0x88),
    {
        self.boot_indicator == 0x88
    }

    /// Whether the image is bootable.
    pub fn is_valid(&self) -> (r: bool)
        ensures
            r == (self.boot_indicator == 0x88),
    {
        self.is_bootable()
    }

    /// The bytes of the entry.
    pub fn to_bytes(&self) -> (r: Vec<u8>)
        ensures
            r@ == self.bytes(),
            r@.len() == 32,
    {
        let mut data: Vec<u8> = Vec::new();
        data.push(self.boot_indicator);
        data.push(self.boot_media_type);
        push_le16(&mut data, self.load_segment);
        data.push(self.system_type);
        data.push(self.reserved0);
        push_le16(&mut data, self.sector_count);
        push_le32(&mut data, self.load_rba);
        data.push(self.selection_criteria);
        push_all(&mut data, &self.vendor_unique);
        assert(data@ =~= self.bytes());
        data
    }

    fn from_bytes(data: &[u8]) -> (r: Self)
        requires
            data@.len() == 32,
        ensures
            r.bytes() == data@,
            r.boot_indicator == data@[0],
    {
        let e: BootSectionEntry = BootSectionEntry {
            boot_indicator: data[0],
            boot_media_type: data[1],
            load_segment: get_le16(data, 2),
            system_type: data[4],
            reserved0: data[5],
            sector_count: get_le16(data, 6),
            load_rba: get_le32(data, 8),
            selection_criteria: data[12],
            vendor_unique: array19(data, 13),
        };
        proof {
            assert(le16(e.load_segment) =~= data@.subrange(2, 4));
            assert(le16(e.sector_count) =~= data@.subrange(6, 8));
            le32_of_from_le32(data@.subrange(8, 12));
            assert(e.bytes() =~= data@);
        }
        e
    }

    /// The entry of 32 bytes; nothing where there are fewer.
    pub fn parse(data: &[u8]) -> (r: Result<Self, BootError>)
        ensures
            data@.len() < 32 ==> r == Err::<Self, BootError>(BootError::Io),
            data@.len() >= 32 ==> (r matches Ok(e) && e.bytes() == data@.take(32)
                && e.boot_indicator == data@[0]),
    {
        if data.len() < 32 {
            return Err(BootError::Io);
        }
        let own: Vec<u8> = copy_range(data, 0, 32);
        assert(own@ =~= data@.take(32));
        Ok(Self::from_bytes(own.as_slice()))
    }
}

/// More selection criteria of an entry.
#[derive(Debug, Clone, Copy)]
pub struct BootSectionEntryExtension {
    /// 0x44.
    pub extension_indicator: u8,
    /// Whether more extensions follow.
    pub flags: u8,
    /// Selection criteria of the vendor.
    pub vendor_unique: [u8; 30],
}

/// Any entry of a boot catalog.
#[derive(Debug, Clone, Copy)]
pub enum BootCatalogEntry {
    /// The validation entry.
    Validation(BootValidationEntry),
    /// A section header.
    SectionHeader(BootSectionHeaderEntry),
    /// An entry that names a boot image.
    SectionEntry(BootSectionEntry),
    /// More selection criteria.
    SectionEntryExtension(BootSectionEntryExtension),
}

impl BootCatalogEntry {
    /// The 32 bytes of the entry.
    pub open spec fn bytes(&self) -> Seq<u8> {
        match self {
            BootCatalogEntry::Validation(e) => e.bytes(),
            BootCatalogEntry::SectionHeader(e) => e.bytes(),
            BootCatalogEntry::SectionEntry(e) => e.bytes(),
            BootCatalogEntry::SectionEntryExtension(e) => seq![e.extension_indicator, e.flags]
                + e.vendor_unique@,
        }
    }

    /// The bytes of the entry.
    pub fn as_bytes(&self) -> (r: Vec<u8>)
        ensures
            r@ == self.bytes(),
            r@.len() == 32,
    {
        match self {
            BootCatalogEntry::Validation(e) => e.to_bytes(),
            BootCatalogEntry::SectionHeader(e) => e.to_bytes(),
            BootCatalogEntry::SectionEntry(e) => e.to_bytes(),
            BootCatalogEntry::SectionEntryExtension(e) => {
                let mut data: Vec<u8> = Vec::new();
                data.push(e.extension_indicator);
                data.push(e.flags);
                push_all(&mut data, &e.vendor_unique);
                assert(data@ =~= self.bytes());
                data
            },
        }
    }

    /// Bytes of every entry.
    pub fn size(&self) -> (r: usize)
        ensures
            r == 32,
            r == self.bytes().len(),
    {
        32
    }
}

/// The part of a boot catalog that is always there.
#[derive(Debug, Clone, Copy)]
pub struct BaseBootCatalog {
    /// The validation entry.
    pub validation: BootValidationEntry,
    /// The default entry.
    pub default_entry: BootSectionEntry,
}

impl BaseBootCatalog {
    /// The bytes of both entries.
    pub open spec fn bytes(&self) -> Seq<u8> {
        self.validation.bytes() + self.default_entry.bytes()
    }

    /// Whether both entries are as they have to be.
    pub open spec fn is_sound(&self) -> bool {
        self.validation.flaw() is None && self.default_entry.boot_indicator == 0x88
    }

    /// A catalog with one boot image.
    pub fn new(
        media_type: EmulationType,
        load_segment: u16,
        sector_count: u16,
        load_rba: u32,
    ) -> (r: Self)
        ensures
            r.is_sound(),
            r.validation.bytes() == x86_validation(),
            r.default_entry.boot_media_type == media_type.spec_to_u8(),
            r.default_entry.load_segment == load_segment,
            r.default_entry.sector_count == sector_count,
            r.default_entry.load_rba == load_rba,
            r.default_entry.bytes() == boot_entry_bytes(
                media_type,
                load_segment,
                sector_count,
                load_rba,
            ),
    {
        BaseBootCatalog {
            validation: BootValidationEntry::new(),
            default_entry: BootSectionEntry::new(media_type, load_segment, sector_count, load_rba),
        }
    }

    /// Reads both entries and checks them.
    pub fn parse(data: &[u8]) -> (r: Result<Self, BootError>)
        ensures
            match base_flaw(data@) {
                Some(e) => r == Err::<Self, BootError>(e),
                None => r matches Ok(base) && base.bytes() == data@.take(64) && base.is_sound(),
            },
    {
        let validation: BootValidationEntry = match BootValidationEntry::parse(data) {
            Ok(v) => v,
            Err(e) => {
                return Err(e);
            },
        };
        proof {
            validation.flaw_by_bytes();
        }
        match validation.validate() {
            Ok(_) => {},
            Err(e) => {
                return Err(e);
            },
        }
        let rest: Vec<u8> = copy_range(data, 32, data.len());
        let default_entry: BootSectionEntry = match BootSectionEntry::parse(rest.as_slice()) {
            Ok(e) => e,
            Err(e) => {
                return Err(e);
            },
        };
        assert(rest@.take(32) =~= data@.subrange(32, 64));
        if !default_entry.is_bootable() {
            return Err(BootError::InvalidDefaultEntry);
        }
        let base: BaseBootCatalog = BaseBootCatalog { validation, default_entry };
        assert(base.bytes() =~= data@.take(64));
        Ok(base)
    }

    /// Appends both entries.
    pub fn write(&self, writer: &mut Vec<u8>)
        ensures
            final(writer)@ == old(writer)@ + self.bytes(),
    {
        push_all(writer, self.validation.to_bytes().as_slice());
        push_all(writer, self.default_entry.to_bytes().as_slice());
        assert(writer@ =~= old(writer)@ + self.bytes());
    }
}

impl Default for BaseBootCatalog {
    fn default() -> (r: Self)
        ensures
            r.is_sound(),
            r.validation.bytes() == x86_validation(),
            r.default_entry.load_rba == 0,
            r.default_entry.sector_count == 0,
    {
        Self::new(EmulationType::NoEmulation, 0, 0, 0)
    }
}

/// A section of a boot catalog.
#[derive(Debug)]
pub struct BootSection {
    /// The header.
    pub header: BootSectionHeaderEntry,
    /// The entries.
    pub entries: Vec<BootSectionEntry>,
}

/// The mathematical value of a [`BootSection`]: the bytes of header and entries.
pub struct SectionView {
    /// The header.
    pub header: Seq<u8>,
    /// The entries.
    pub entries: Seq<Seq<u8>>,
}

impl BootSection {
    /// The mathematical value.
    pub open spec fn view(&self) -> SectionView {
        SectionView {
            header: self.header.bytes(),
            entries: Seq::new(self.entries@.len(), |i: int| self.entries@[i].bytes()),
        }
    }
}

/// The values of sections.
pub open spec fn section_views(sections: Seq<BootSection>) -> Seq<SectionView> {
    Seq::new(sections.len(), |i: int| sections[i].view())
}

/// Entries one after the other.
pub open spec fn entries_bytes(entries: Seq<Seq<u8>>) -> Seq<u8>
    decreases entries.len(),
{
    if entries.len() == 0 {
        Seq::empty()
    } else {
        entries_bytes(entries.drop_last()) + entries.last()
    }
}

/// Sections one after the other, each with its header first.
pub open spec fn sections_bytes(sections: Seq<SectionView>) -> Seq<u8>
    decreases sections.len(),
{
    if sections.len() == 0 {
        Seq::empty()
    } else {
        sections_bytes(sections.drop_last()) + sections.last().header + entries_bytes(
            sections.last().entries,
        )
    }
}

/// Bytes of sections.
pub open spec fn sections_size(sections: Seq<SectionView>) -> int
    decreases sections.len(),
{
    if sections.len() == 0 {
        0
    } else {
        sections_size(sections.drop_last()) + (sections.last().entries.len() + 1) * 32
    }
}

/// What the parser has read of the sections so far.
pub struct ParseState {
    /// Complete sections.
    pub done: Seq<SectionView>,
    /// Header of the open section.
    pub header: Option<Seq<u8>>,
    /// Entries of the open section.
    pub entries: Seq<Seq<u8>>,
    /// Whether another section has to follow.
    pub has_more: bool,
}

/// All sections, with the open one closed.
pub open spec fn closed_sections(st: ParseState) -> Seq<SectionView> {
    match st.header {
        Some(header) => st.done.push(SectionView { header, entries: st.entries }),
        None => st.done,
    }
}

/// The sections that follow in `data`. A header closes the section before it; an entry
/// needs a header before it; a zero byte ends the catalog unless another section has to
/// follow.
pub open spec fn parse_sections(data: Seq<u8>, st: ParseState) -> Result<
    Seq<SectionView>,
    BootError,
>
    decreases data.len(),
{
    if data.len() < 32 {
        Err(BootError::Io)
    } else {
        let entry = data.take(32);
        let rest = data.skip(32);
        if entry[0] == 0x00 && !st.has_more {
            Ok(closed_sections(st))
        } else if entry[0] == 0x90 || entry[0] == 0x91 {
            parse_sections(
                rest,
                ParseState {
                    done: closed_sections(st),
                    header: Some(entry),
                    entries: if st.header is Some {
                        Seq::empty()
                    } else {
                        st.entries
                    },
                    has_more: entry[0] == 0x90,
                },
            )
        } else if st.header is None {
            Err(BootError::ExpectedSectionHeader(entry[0]))
        } else {
            parse_sections(rest, ParseState { entries: st.entries.push(entry), ..st })
        }
    }
}

/// Nothing read yet.
pub open spec fn parse_start() -> ParseState {
    ParseState { done: Seq::empty(), header: None, entries: Seq::empty(), has_more: false }
}

/// A boot catalog.
#[derive(Debug)]
pub struct BootCatalog {
    /// Validation entry and default entry.
    pub base: BaseBootCatalog,
    /// Sections.
    pub sections: Vec<BootSection>,
}

/// 32 zero bytes.
pub open spec fn terminator() -> Seq<u8> {
    Seq::new(32, |i: int| 0u8)
}


impl BootCatalog {
    /// The sections' values.
    pub open spec fn sections_view(&self) -> Seq<SectionView> {
        section_views(self.sections@)
    }

    /// The bytes of the catalog: base, sections, terminator.
    pub open spec fn bytes(&self) -> Seq<u8> {
        self.base.bytes() + sections_bytes(self.sections_view()) + terminator()
    }

    /// A catalog with one boot image.
    pub fn new(
        media_type: EmulationType,
        load_segment: u16,
        sector_count: u16,
        load_rba: u32,
    ) -> (r: Self)
        ensures
            r.base.is_sound(),
            r.base.validation.bytes() == x86_validation(),
            r.base.default_entry.boot_media_type == media_type.spec_to_u8(),
            r.base.default_entry.load_segment == load_segment,
            r.base.default_entry.sector_count == sector_count,
            r.base.default_entry.load_rba == load_rba,
            r.base.default_entry.bytes() == boot_entry_bytes(
                media_type,
                load_segment,
                sector_count,
                load_rba,
            ),
            r.sections@.len() == 0,
            well_formed(r.sections_view()),
    {
        BootCatalog {
            base: BaseBootCatalog::new(media_type, load_segment, sector_count, load_rba),
            sections: Vec::new(),
        }
    }

    /// Replaces the default entry.
    pub fn set_default_entry(&mut self, entry: BootSectionEntry)
        ensures
            final(self).base.default_entry == entry,
            final(self).base.validation == old(self).base.validation,
            final(self).sections == old(self).sections,
    {
        self.base.default_entry = entry;
    }

    /// Adds a section, which becomes the last.
    pub fn add_section(&mut self, platform_id: PlatformId, entries: Vec<BootSectionEntry>)
        ensures
            final(self).base == old(self).base,
            final(self).sections_view() == with_section(
                old(self).sections_view(),
                SectionView {
                    header: header_bytes(0x91, platform_id.spec_to_u8()),
                    entries: Seq::new(entries@.len(), |i: int| entries@[i].bytes()),
                },
            ),
    {
        let ghost before = self.sections_view();
        let n: usize = self.sections.len();
        if n > 0 {
            let mut last: BootSection = match self.sections.pop() {
                Some(s) => s,
                None => {
                    return ;
                },
            };
            let ghost was = last.view();
            last.header.header_type = 0x90;
            proof {
                assert(last.view().header =~= was.header.update(0, 0x90));
                assert(last.view().entries =~= was.entries);
                assert(was == before.last());
            }
            self.sections.push(last);
            assert(self.sections_view() =~= before.update(
                n - 1,
                SectionView { header: before.last().header.update(0, 0x90), ..before.last() },
            ));
        } else {
            assert(self.sections_view() =~= before);
        }
        let ghost marked = self.sections_view();
        let header: BootSectionHeaderEntry = BootSectionHeaderEntry {
            header_type: 0x91,
            platform_id: platform_id.to_u8(),
            section_count: 1,
            section_ident: [0; 28],
        };
        let section: BootSection = BootSection { header, entries };
        proof {
            assert(header.section_ident@ =~= Seq::new(28, |i: int| 0u8));
            assert(section.view().header =~= header_bytes(0x91, platform_id.spec_to_u8()));
        }
        self.sections.push(section);
        assert(self.sections_view() =~= marked.push(section.view()));
    }

    /// Bytes of the catalog.
    pub fn size(&self) -> (r: usize)
        requires
            96 + sections_size(self.sections_view()) <= usize::MAX,
        ensures
            r == 96 + sections_size(self.sections_view()),
            r == self.bytes().len(),
    {
        let ghost all = self.sections_view();
        let mut total: usize = 0;
        let mut i: usize = 0;
        while i < self.sections.len()
            invariant
                i <= self.sections@.len(),
                all == self.sections_view(),
                96 + sections_size(all) <= usize::MAX,
                total == sections_size(all.take(i as int)),
            decreases self.sections.len() - i,
        {
            proof {
                assert(all[i as int] == self.sections@[i as int].view());
                assert(all.take(i + 1).drop_last() =~= all.take(i as int));
                sections_size_prefix(all, i + 1);
            }
            total = total + (self.sections[i].entries.len() + 1) * 32;
            i += 1;
        }
        proof {
            assert(all.take(i as int) =~= all);
            self.sections_sized();
            sections_bytes_len(all);
        }
        64 + total + 32
    }

    proof fn sections_sized(&self)
        ensures
            entries_sized(self.sections_view()),
    {
        let all = self.sections_view();
        assert forall|i: int| 0 <= i < all.len() implies (#[trigger] all[i]).header.len() == 32
            && forall|j: int|
            0 <= j < all[i].entries.len() ==> (#[trigger] all[i].entries[j]).len() == 32 by {
            let s = self.sections@[i];
            assert(all[i] == s.view());
            assert forall|j: int| 0 <= j < all[i].entries.len() implies (
            #[trigger] all[i].entries[j]).len() == 32 by {
                assert(all[i].entries[j] == s.entries@[j].bytes());
            }
        }
    }

    /// Appends the catalog: base, sections, terminator.
    pub fn write(&self, writer: &mut Vec<u8>)
        ensures
            final(writer)@ == old(writer)@ + self.bytes(),
    {
        let ghost start = writer@;
        self.base.write(writer);
        let ghost all = self.sections_view();
        let ghost head = writer@;
        let mut i: usize = 0;
        assert(writer@ =~= head + sections_bytes(all.take(0)));
        while i < self.sections.len()
            invariant
                i <= self.sections@.len(),
                all == self.sections_view(),
                writer@ == head + sections_bytes(all.take(i as int)),
            decreases self.sections.len() - i,
        {
            let section: &BootSection = &self.sections[i];
            let ghost view = section.view();
            let ghost before = writer@;
            assert(all[i as int] == view);
            assert(all.take(i + 1).drop_last() =~= all.take(i as int));
            push_all(writer, section.header.to_bytes().as_slice());
            let mut k: usize = 0;
            assert(writer@ =~= before + view.header + entries_bytes(view.entries.take(0)));
            while k < section.entries.len()
                invariant
                    k <= section.entries@.len(),
                    view == section.view(),
                    writer@ == before + view.header + entries_bytes(view.entries.take(k as int)),
                decreases section.entries.len() - k,
            {
                push_all(writer, section.entries[k].to_bytes().as_slice());
                assert(view.entries.take(k + 1).drop_last() =~= view.entries.take(k as int));
                k += 1;
                assert(writer@ =~= before + view.header + entries_bytes(
                    view.entries.take(k as int),
                ));
            }
            assert(view.entries.take(k as int) =~= view.entries);
            i += 1;
            assert(writer@ =~= head + sections_bytes(all.take(i as int)));
        }
        assert(all.take(i as int) =~= all);
        push_zeros(writer, 32);
        assert(writer@ =~= start + self.bytes());
    }

    /// Reads a catalog.
    pub fn parse(data: &[u8]) -> (r: Result<Self, BootError>)
        ensures
            match base_flaw(data@) {
                Some(e) => r == Err::<Self, BootError>(e),
                None => match parse_sections(data@.skip(64), parse_start()) {
                    Ok(sections) => {
                        &&& r matches Ok(catalog)
                        &&& catalog.base.bytes() == data@.take(64)
                        &&& catalog.base.is_sound()
                        &&& catalog.sections_view() == sections
                    },
                    Err(e) => r == Err::<Self, BootError>(e),
                },
            },
    {
        let base: BaseBootCatalog = match BaseBootCatalog::parse(data) {
            Ok(base) => base,
            Err(e) => {
                return Err(e);
            },
        };
        let ghost goal = parse_sections(data@.skip(64), parse_start());
        let mut sections: Vec<BootSection> = Vec::new();
        let mut has_more: bool = false;
        let mut header: Option<BootSectionHeaderEntry> = None;
        let mut entries: Vec<BootSectionEntry> = Vec::new();
        let mut pos: usize = 64;
        let ghost st = parse_start();
        proof {
            assert(section_views(sections@) =~= st.done);
            assert(Seq::new(entries@.len(), |i: int| entries@[i].bytes()) =~= st.entries);
        }
        loop
            invariant
                64 <= pos <= data@.len(),
                goal == parse_sections(data@.skip(64), parse_start()),
                parse_sections(data@.skip(pos as int), st) == goal,
                st.done == section_views(sections@),
                st.entries == Seq::new(entries@.len(), |i: int| entries@[i].bytes()),
                st.has_more == has_more,
                st.header is Some <==> header is Some,
                header matches Some(h) ==> st.header == Some(h.bytes()),
                base_flaw(data@) is None,
                base.bytes() == data@.take(64),
                base.is_sound(),
            decreases data@.len() - pos,
        {
            let ghost rest = data@.skip(pos as int);
            if data.len() - pos < 32 {
                return Err(BootError::Io);
            }
            let buffer: Vec<u8> = copy_range(data, pos, pos + 32);
            proof {
                assert(buffer@ =~= rest.take(32));
                assert(rest.skip(32) =~= data@.skip(pos + 32));
            }
            let id: u8 = buffer[0];
            if id == 0x00 && !has_more {
                let ghost before = section_views(sections@);
                match header {
                    Some(h) => {
                        let section: BootSection = BootSection { header: h, entries };
                        sections.push(section);
                        assert(section_views(sections@) =~= before.push(section.view()));
                    },
                    None => {},
                }
                assert(section_views(sections@) == closed_sections(st));
                return Ok(BootCatalog { base, sections });
            } else if id == 0x90 || id == 0x91 {
                has_more = id == 0x90;
                let ghost before = section_views(sections@);
                match header {
                    Some(h) => {
                        let section: BootSection = BootSection { header: h, entries };
                        sections.push(section);
                        entries = Vec::new();
                        assert(section_views(sections@) =~= before.push(section.view()));
                        assert(Seq::new(entries@.len(), |i: int| entries@[i].bytes())
                            =~= Seq::empty());
                    },
                    None => {},
                }
                header = Some(BootSectionHeaderEntry::from_bytes(buffer.as_slice()));
                proof {
                    st = ParseState {
                        done: closed_sections(st),
                        header: Some(buffer@),
                        entries: if st.header is Some {
                            Seq::empty()
                        } else {
                            st.entries
                        },
                        has_more,
                    };
                }
            } else {
                if header.is_none() {
                    return Err(BootError::ExpectedSectionHeader(id));
                }
                let ghost before = st.entries;
                entries.push(BootSectionEntry::from_bytes(buffer.as_slice()));
                proof {
                    st = ParseState { entries: st.entries.push(buffer@), ..st };
                    assert(Seq::new(entries@.len(), |i: int| entries@[i].bytes()) =~= before.push(
                        buffer@,
                    ));
                }
            }
            pos += 32;
        }
    }
}

impl Default for BootCatalog {
    fn default() -> (r: Self)
        ensures
            r.base.is_sound(),
            r.base.validation.bytes() == x86_validation(),
            r.base.default_entry.bytes() == boot_entry_bytes(EmulationType::NoEmulation, 0, 0, 0),
            r.sections@.len() == 0,
            well_formed(r.sections_view()),
    {
        Self::new(EmulationType::NoEmulation, 0, 0, 0)
    }
}

/// The header of a new section, which says 1 for the number of its entries, however many it
/// has.
pub open spec fn header_bytes(header_type: u8, platform: u8) -> Seq<u8> {
    seq![header_type, platform, 1u8, 0u8] + Seq::new(28, |i: int| 0u8)
}

/// The sections with another one at the end. What was the last header is marked as one
/// that others follow.
pub open spec fn with_section(sections: Seq<SectionView>, section: SectionView) -> Seq<
    SectionView,
> {
    (if sections.len() > 0 {
        sections.update(
            sections.len() - 1,
            SectionView { header: sections.last().header.update(0, 0x90), ..sections.last() },
        )
    } else {
        sections
    }).push(section)
}

/// A section that is added makes a catalog longer by its header and its entries, 32 bytes
/// each.
pub proof fn section_adds_its_size(sections: Seq<SectionView>, section: SectionView)
    ensures
        sections_size(with_section(sections, section)) == sections_size(sections) + 32 * (1
            + section.entries.len()),
{
    let all = with_section(sections, section);
    assert(all.last() == section);
    if sections.len() > 0 {
        let init = all.drop_last();
        assert(init.drop_last() =~= sections.drop_last());
        assert(init.last().entries == sections.last().entries);
        assert(sections_size(init) == sections_size(init.drop_last()) + (init.last().entries.len()
            + 1) * 32);
    } else {
        assert(all.drop_last() =~= sections);
    }
}

/// Whether all headers and entries have 32 bytes.
pub open spec fn entries_sized(sections: Seq<SectionView>) -> bool {
    forall|i: int|
        0 <= i < sections.len() ==> {
            &&& (#[trigger] sections[i]).header.len() == 32
            &&& forall|j: int|
                0 <= j < sections[i].entries.len() ==> (#[trigger] sections[i].entries[j]).len()
                    == 32
        }
}

/// Whether every header but the last is marked as one that others follow, the last as the
/// last, and every entry is bootable.
pub open spec fn well_formed(sections: Seq<SectionView>) -> bool {
    &&& entries_sized(sections)
    &&& forall|i: int|
        0 <= i < sections.len() ==> {
            &&& (#[trigger] sections[i]).header[0] == (if i + 1 < sections.len() {
                0x90u8
            } else {
                0x91u8
            })
            &&& forall|j: int|
                0 <= j < sections[i].entries.len() ==> (#[trigger] sections[i].entries[j])[0]
                    == 0x88
        }
}

/// Adding a section of bootable entries keeps a catalog well-formed.
pub proof fn sections_stay_well_formed(sections: Seq<SectionView>, section: SectionView)
    requires
        well_formed(sections),
        section.header.len() == 32,
        section.header[0] == 0x91,
        forall|j: int|
            0 <= j < section.entries.len() ==> (#[trigger] section.entries[j]).len() == 32
                && section.entries[j][0] == 0x88,
    ensures
        well_formed(with_section(sections, section)),
{
    let all = with_section(sections, section);
    assert forall|i: int| 0 <= i < all.len() implies {
        &&& (#[trigger] all[i]).header.len() == 32
        &&& all[i].header[0] == (if i + 1 < all.len() {
            0x90u8
        } else {
            0x91u8
        })
        &&& forall|j: int|
            0 <= j < all[i].entries.len() ==> (#[trigger] all[i].entries[j]).len() == 32
                && all[i].entries[j][0] == 0x88
    } by {
        if i < sections.len() {
            assert(sections[i].header.len() == 32);
        }
    }
}

proof fn sections_size_prefix(sections: Seq<SectionView>, k: int)
    requires
        0 <= k <= sections.len(),
    ensures
        0 <= sections_size(sections.take(k)) <= sections_size(sections),
    decreases sections.len(),
{
    if sections.len() > 0 {
        if k == sections.len() {
            assert(sections.take(k) =~= sections);
            sections_size_prefix(sections.drop_last(), k - 1);
            assert(sections.drop_last().take(k - 1) =~= sections.drop_last());
        } else {
            assert(sections.drop_last().take(k) =~= sections.take(k));
            sections_size_prefix(sections.drop_last(), k);
        }
    } else {
        assert(sections.take(k) =~= sections);
    }
}

proof fn entries_bytes_len(entries: Seq<Seq<u8>>)
    requires
        forall|j: int| 0 <= j < entries.len() ==> (#[trigger] entries[j]).len() == 32,
    ensures
        entries_bytes(entries).len() == 32 * entries.len(),
    decreases entries.len(),
{
    if entries.len() > 0 {
        entries_bytes_len(entries.drop_last());
    }
}

/// The bytes of sections are as many as their size says.
pub proof fn sections_bytes_len(sections: Seq<SectionView>)
    requires
        entries_sized(sections),
    ensures
        sections_bytes(sections).len() == sections_size(sections),
    decreases sections.len(),
{
    if sections.len() > 0 {
        assert(entries_sized(sections.drop_last())) by {
            assert forall|i: int| 0 <= i < sections.drop_last().len() implies {
                &&& (#[trigger] sections.drop_last()[i]).header.len() == 32
                &&& forall|j: int|
                    0 <= j < sections.drop_last()[i].entries.len() ==> (
                    #[trigger] sections.drop_last()[i].entries[j]).len() == 32
            } by {
                assert(sections[i] == sections.drop_last()[i]);
            }
        }
        sections_bytes_len(sections.drop_last());
        assert(sections[sections.len() - 1].header.len() == 32);
        entries_bytes_len(sections.last().entries);
    }
}

proof fn parse_entries(entries: Seq<Seq<u8>>, tail: Seq<u8>, st: ParseState, k: int)
    requires
        st.header is Some,
        0 <= k <= entries.len(),
        forall|j: int|
            0 <= j < entries.len() ==> (#[trigger] entries[j]).len() == 32 && entries[j][0] == 0x88,
    ensures
        parse_sections(entries_bytes(entries.take(k)) + tail, st) == parse_sections(
            tail,
            ParseState { entries: st.entries + entries.take(k), ..st },
        ),
    decreases k,
{
    if k == 0 {
        assert(entries.take(0) =~= Seq::empty());
        assert(entries_bytes(entries.take(0)) + tail =~= tail);
        assert(st.entries + entries.take(0) =~= st.entries);
    } else {
        let last = entries[k - 1];
        assert(entries.take(k).drop_last() =~= entries.take(k - 1));
        parse_entries(entries, last + tail, st, k - 1);
        assert(entries_bytes(entries.take(k)) + tail =~= entries_bytes(entries.take(k - 1)) + (last
            + tail));
        let st1 = ParseState { entries: st.entries + entries.take(k - 1), ..st };
        let data = last + tail;
        assert(data.take(32) =~= last);
        assert(data.skip(32) =~= tail);
        assert(st1.entries.push(last) =~= st.entries + entries.take(k));
    }
}

spec fn state_after(sections: Seq<SectionView>) -> ParseState {
    if sections.len() == 0 {
        parse_start()
    } else {
        ParseState {
            done: sections.drop_last(),
            header: Some(sections.last().header),
            entries: sections.last().entries,
            has_more: sections.last().header[0] == 0x90,
        }
    }
}

proof fn parse_all_sections(sections: Seq<SectionView>, tail: Seq<u8>)
    requires
        entries_sized(sections),
        forall|i: int|
            0 <= i < sections.len() ==> {
                &&& (#[trigger] sections[i]).header[0] == 0x90 || sections[i].header[0] == 0x91
                &&& forall|j: int|
                    0 <= j < sections[i].entries.len() ==> (#[trigger] sections[i].entries[j])[0]
                        == 0x88
            },
    ensures
        parse_sections(sections_bytes(sections) + tail, parse_start()) == parse_sections(
            tail,
            state_after(sections),
        ),
    decreases sections.len(),
{
    if sections.len() == 0 {
        assert(sections_bytes(sections) + tail =~= tail);
    } else {
        let init = sections.drop_last();
        let s = sections.last();
        assert(s == sections[sections.len() - 1]);
        assert forall|i: int| 0 <= i < init.len() implies {
            &&& (#[trigger] init[i]).header.len() == 32
            &&& init[i].header[0] == 0x90 || init[i].header[0] == 0x91
            &&& forall|j: int|
                0 <= j < init[i].entries.len() ==> (#[trigger] init[i].entries[j])[0] == 0x88
                    && init[i].entries[j].len() == 32
        } by {
            assert(init[i] == sections[i]);
        }
        let own = entries_bytes(s.entries) + tail;
        parse_all_sections(init, s.header + own);
        assert(sections_bytes(sections) + tail =~= sections_bytes(init) + (s.header + own));
        let st = state_after(init);
        let data = s.header + own;
        assert(data.take(32) =~= s.header);
        assert(data.skip(32) =~= own);
        let st1 = ParseState {
            done: closed_sections(st),
            header: Some(s.header),
            entries: if st.header is Some {
                Seq::empty()
            } else {
                st.entries
            },
            has_more: s.header[0] == 0x90,
        };
        assert(parse_sections(data, st) == parse_sections(own, st1));
        assert(closed_sections(st) =~= init) by {
            if init.len() > 0 {
                assert(init.drop_last().push(
                    SectionView { header: init.last().header, entries: init.last().entries },
                ) =~= init);
            }
        }
        parse_entries(s.entries, tail, st1, s.entries.len() as int);
        assert(s.entries.take(s.entries.len() as int) =~= s.entries);
        assert(st1.entries + s.entries =~= s.entries);
    }
}

/// A catalog that is sound and well-formed is read back as it was written.
pub proof fn catalog_round_trip(sections: Seq<SectionView>, base: Seq<u8>, rest: Seq<u8>)
    requires
        well_formed(sections),
        base.len() == 64,
    ensures
        parse_sections(
            (base + sections_bytes(sections) + terminator() + rest).skip(64),
            parse_start(),
        ) == Ok::<Seq<SectionView>, BootError>(sections),
{
    let tail = terminator() + rest;
    assert((base + sections_bytes(sections) + terminator() + rest).skip(64) =~= sections_bytes(
        sections,
    ) + tail);
    parse_all_sections(sections, tail);
    let st = state_after(sections);
    assert(tail.take(32) =~= terminator());
    assert(tail[0] == 0);
    if sections.len() == 0 {
        assert(closed_sections(st) =~= sections);
    } else {
        assert(sections[sections.len() - 1].header[0] == 0x91);
        assert(closed_sections(st) =~= sections) by {
            let s = sections.last();
            assert(sections.drop_last().push(
                SectionView { header: s.header, entries: s.entries },
            ) =~= sections);
        }
    }
}

/// A boot information table.
#[derive(Debug, Clone, Copy)]
pub struct BootInfoTable {
    /// Sector of the volume descriptors.
    pub iso_start: u32,
    /// Sector of the boot image.
    pub file_lba: u32,
    /// Bytes of the boot image.
    pub file_len: u32,
    /// Checksum of the boot image.
    pub checksum: u32,
}

impl BootInfoTable {
    /// A table for a boot image.
    pub fn new(file_lba: u32, file_len: u32, checksum: u32) -> (r: Self)
        ensures
            r == (BootInfoTable { iso_start: 16, file_lba, file_len, checksum }),
    {
        BootInfoTable { iso_start: 16, file_lba, file_len, checksum }
    }

    /// The 16 bytes of the table.
    pub fn to_bytes(&self) -> (r: Vec<u8>)
        ensures
            r@ == le32(self.iso_start) + le32(self.file_lba) + le32(self.file_len) + le32(
                self.checksum,
            ),
    {
        let mut r: Vec<u8> = Vec::new();
        push_le32(&mut r, self.iso_start);
        push_le32(&mut r, self.file_lba);
        push_le32(&mut r, self.file_len);
        push_le32(&mut r, self.checksum);
        assert(r@ =~= le32(self.iso_start) + le32(self.file_lba) + le32(self.file_len) + le32(
            self.checksum,
        ));
        r
    }
}

/// A boot information table with room for 40 more bytes.
#[derive(Debug, Clone, Copy)]
pub struct Grub2BootInfoTable {
    /// Sector of the primary volume descriptor.
    pub pvd_lba: u32,
    /// Sector of the boot image.
    pub file_lba: u32,
    /// Bytes of the boot image.
    pub file_len: u32,
    /// Checksum of the boot image.
    pub checksum: u32,
}

impl Grub2BootInfoTable {
    /// A table for a boot image.
    pub fn new(file_lba: u32, file_len: u32, checksum: u32) -> (r: Self)
        ensures
            r == (Grub2BootInfoTable { pvd_lba: 16, file_lba, file_len, checksum }),
    {
        Grub2BootInfoTable { pvd_lba: 16, file_lba, file_len, checksum }
    }

    /// The 56 bytes of the table: four numbers and zeros.
    pub fn to_bytes(&self) -> (r: Vec<u8>)
        ensures
            r@ == le32(self.pvd_lba) + le32(self.file_lba) + le32(self.file_len) + le32(
                self.checksum,
            ) + Seq::new(40, |i: int| 0u8),
    {
        let mut r: Vec<u8> = Vec::new();
        push_le32(&mut r, self.pvd_lba);
        push_le32(&mut r, self.file_lba);
        push_le32(&mut r, self.file_len);
        push_le32(&mut r, self.checksum);
        push_zeros(&mut r, 40);
        assert(r@ =~= le32(self.pvd_lba) + le32(self.file_lba) + le32(self.file_len) + le32(
            self.checksum,
        ) + Seq::new(40, |i: int| 0u8));
        r
    }
}

/// What one boot image needs.
#[derive(Debug)]
pub struct BootEntryOptions {
    /// Number of 512-byte sectors that the firmware loads; never zero.
    pub load_size: Option<u16>,
    /// Path of the boot image.
    pub boot_image_path: String,
    /// Whether the image gets a boot information table.
    pub boot_info_table: bool,
    /// Whether the image gets the longer table.
    pub grub2_boot_info: bool,
    /// Emulation.
    pub emulation: EmulationType,
}

impl BootEntryOptions {
    /// Whether two values ask for the same.
    pub open spec fn same(&self, other: &Self) -> bool {
        &&& self.load_size == other.load_size
        &&& self.boot_image_path@ == other.boot_image_path@
        &&& self.boot_info_table == other.boot_info_table
        &&& self.grub2_boot_info == other.grub2_boot_info
        &&& self.emulation == other.emulation
    }

    /// A copy.
    pub fn duplicate(&self) -> (r: Self)
        ensures
            r.same(self),
    {
        BootEntryOptions {
            load_size: self.load_size,
            boot_image_path: self.boot_image_path.clone(),
            boot_info_table: self.boot_info_table,
            grub2_boot_info: self.grub2_boot_info,
            emulation: self.emulation,
        }
    }
}

impl Default for BootEntryOptions {
    fn default() -> (r: Self)
        ensures
            r.load_size is None,
            r.boot_image_path@ == Seq::<char>::empty(),
            !r.boot_info_table,
            !r.grub2_boot_info,
            r.emulation == EmulationType::NoEmulation,
    {
        BootEntryOptions {
            load_size: None,
            boot_image_path: String::new(),
            boot_info_table: false,
            grub2_boot_info: false,
            emulation: EmulationType::NoEmulation,
        }
    }
}

/// What a section needs.
#[derive(Debug, Clone, Copy, PartialEq, Eq, Structural)]
pub struct BootSectionOptions {
    /// Platform.
    pub platform: PlatformId,
}

/// What an image needs to boot.
#[derive(Debug)]
pub struct BootOptions {
    /// Whether the catalog is a file of the image.
    pub write_boot_catalog: bool,
    /// The default entry.
    pub default: BootEntryOptions,
    /// Further sections with one entry each.
    pub entries: Vec<(BootSectionOptions, BootEntryOptions)>,
}

impl Default for BootOptions {
    fn default() -> (r: Self)
        ensures
            !r.write_boot_catalog,
            r.default.load_size is None,
            r.default.boot_image_path@ == Seq::<char>::empty(),
            r.entries@.len() == 0,
    {
        BootOptions {
            write_boot_catalog: false,
            default: BootEntryOptions::default(),
            entries: Vec::new(),
        }
    }
}

impl BootOptions {
    /// The default entry without a section, then the others with theirs.
    pub fn sections(&self) -> (r: Vec<(Option<BootSectionOptions>, BootEntryOptions)>)
        ensures
            r@.len() == self.entries@.len() + 1,
            r@[0].0 is None,
            r@[0].1.same(&self.default),
            forall|i: int|
                0 <= i < self.entries@.len() ==> (#[trigger] r@[i + 1]).0 == Some(
                    self.entries@[i].0,
                ) && r@[i + 1].1.same(&self.entries@[i].1),
    {
        let mut sections: Vec<(Option<BootSectionOptions>, BootEntryOptions)> = Vec::new();
        sections.push((None, self.default.duplicate()));
        let mut i: usize = 0;
        while i < self.entries.len()
            invariant
                i <= self.entries@.len(),
                sections@.len() == i + 1,
                sections@[0].0 is None,
                sections@[0].1.same(&self.default),
                forall|k: int|
                    0 <= k < i ==> (#[trigger] sections@[k + 1]).0 == Some(self.entries@[k].0)
                        && sections@[k + 1].1.same(&self.entries@[k].1),
            decreases self.entries.len() - i,
        {
            let section: BootSectionOptions = self.entries[i].0;
            let entry: BootEntryOptions = self.entries[i].1.duplicate();
            sections.push((Some(section), entry));
            i += 1;
        }
        sections
    }
}

/// `boot.catalog`
pub open spec fn catalog_file_name() -> Seq<char> {
    "boot.catalog"@
}

/// Position of the first directory, or 0 where there is none.
pub open spec fn first_directory(entries: Seq<EntryView>) -> int
    decreases entries.len(),
{
    if exists|i: int| 0 <= i < entries.len() && (#[trigger] entries[i]).kind is Directory {
        if entries[0].kind is Directory {
            0
        } else {
            1 + first_directory(entries.drop_first())
        }
    } else {
        0
    }
}

/// Bytes of the catalog's file: 96 and 64 for each section, in whole sectors.
pub open spec fn catalog_file_size(sections: int) -> int {
    (96 + sections * 64 + 2047) / 2048 * 2048
}

/// Creates the boot record of an image.
pub struct ElToritoWriter;

impl ElToritoWriter {
    /// The boot record's bytes. Where the catalog is to be a file of the image, an empty
    /// one of sufficient size is added to the root, before the entry that precedes the
    /// first directory.
    pub fn create_descriptor(opts: &BootOptions, files: &mut InputTree) -> (r: Vec<u8>)
        requires
            catalog_file_size(opts.entries@.len() as int) + 2048 <= usize::MAX,
        ensures
            r@ == boot_record_bytes(0),
            final(files).path_separator == old(files).path_separator,
            !opts.write_boot_catalog ==> final(files)@ == old(files)@,
            opts.write_boot_catalog ==> final(files)@ == old(files)@.insert(
                crate::iso::dedup::minus(first_directory(old(files)@), 1),
                EntryView {
                    name: catalog_file_name(),
                    kind: KindView::File(
                        Seq::new(
                            catalog_file_size(opts.entries@.len() as int) as nat,
                            |i: int| 0u8,
                        ),
                    ),
                    metadata: no_metadata(),
                },
            ),
    {
        if opts.write_boot_catalog {
            let raw: usize = 96 + opts.entries.len() * 64;
            let size: usize = (raw + 2047) / 2048 * 2048;
            let ghost all = files@;
            let at: usize = Self::position_of_directory(&files.entries);
            proof {
                first_directory_bounds(all);
            }
            let mut contents: Vec<u8> = Vec::new();
            push_zeros(&mut contents, size);
            assert(contents@ =~= Seq::new(size as nat, |i: int| 0u8));
            let entry: InputEntry = InputEntry::file("boot.catalog", contents);
            let index: usize = at.saturating_sub(1);
            files.entries.insert(index, entry);
            assert(files@ =~= all.insert(index as int, entry.view()));
        }
        make_boot_record(0)
    }

    fn position_of_directory(entries: &Vec<InputEntry>) -> (r: usize)
        ensures
            r == first_directory(entries_view(entries@)),
    {
        let ghost all = entries_view(entries@);
        let mut i: usize = 0;
        assert(all.skip(0) =~= all);
        let ghost some = exists|k: int| 0 <= k < all.len() && (#[trigger] all[k]).kind is Directory;
        while i < entries.len()
            invariant
                i <= entries@.len(),
                all == entries_view(entries@),
                some == (exists|k: int|
                    0 <= k < all.len() && (#[trigger] all[k]).kind is Directory),
                forall|k: int| 0 <= k < i ==> !((#[trigger] all[k]).kind is Directory),
                some ==> first_directory(all) == i + first_directory(all.skip(i as int)),
            decreases entries.len() - i,
        {
            let ghost rest = all.skip(i as int);
            assert(all[i as int] == entries@[i as int].view());
            assert(rest[0] == all[i as int]);
            match &entries[i].kind {
                InputEntryKind::Directory(_) => {
                    assert(all[i as int].kind is Directory);
                    assert(rest[0].kind is Directory);
                    return i;
                },
                _ => {},
            }
            proof {
                if some {
                    let k = choose|k: int| 0 <= k < all.len() && (#[trigger] all[k]).kind is Directory;
                    assert(rest[k - i].kind is Directory);
                    assert(rest.drop_first() =~= all.skip(i + 1));
                }
            }
            i += 1;
        }
        0
    }
}

proof fn first_directory_bounds(entries: Seq<EntryView>)
    ensures
        0 <= first_directory(entries) <= entries.len(),
        entries.len() > 0 ==> first_directory(entries) < entries.len(),
    decreases entries.len(),
{
    if exists|i: int| 0 <= i < entries.len() && (#[trigger] entries[i]).kind is Directory {
        if !(entries[0].kind is Directory) {
            let i = choose|i: int| 0 <= i < entries.len() && (#[trigger] entries[i]).kind is Directory;
            assert(entries.drop_first()[i - 1].kind is Directory);
            first_directory_bounds(entries.drop_first());
        }
    }
}

/// A boot record that points at a catalog: type 0, `CD001`, version 1, the system's name
/// filled up to 32 bytes, 32 unused bytes, the catalog's sector, zeros.
pub open spec fn boot_record_bytes(catalog: u32) -> Seq<u8> {
    seq![0u8, 0x43u8, 0x44u8, 0x30u8, 0x30u8, 0x31u8, 1u8] + vstd::utf8::encode_utf8(
        "EL TORITO SPECIFICATION"@,
    ) + Seq::new(41, |i: int| 0u8) + le32(catalog) + Seq::new(1973, |i: int| 0u8)
}

/// The bytes of a boot record.
pub fn make_boot_record(catalog: u32) -> (r: Vec<u8>)
    ensures
        r@ == boot_record_bytes(catalog),
        r@.len() == 2048,
{
    let mut r: Vec<u8> = Vec::new();
    r.push(0);
    r.push(0x43);
    r.push(0x44);
    r.push(0x30);
    r.push(0x30);
    r.push(0x31);
    r.push(1);
    let name: &str = "EL TORITO SPECIFICATION";
    proof {
        reveal_strlit("EL TORITO SPECIFICATION");
        vstd::utf8::is_ascii_chars_encode_utf8(name@);
    }
    push_all(&mut r, name.as_bytes());
    push_zeros(&mut r, 41);
    push_le32(&mut r, catalog);
    push_zeros(&mut r, 1973);
    assert(r@ =~= boot_record_bytes(catalog));
    r
}

} // verus!
