//! Directory entries and entry sets.

use crate::bytes::{get_le16, get_le32, get_le64, push_all};
#[allow(unused_imports)]
use crate::bytes::{from_le16, from_le32, from_le64};
use crate::exfat::time::ExFatTimestamp;
use crate::exfat::upcase::roll16_step;
#[allow(unused_imports)]
use crate::exfat::upcase::hash_step;
#[allow(unused_imports)]
use crate::text::{utf16, utf16_char};
use vstd::prelude::*;

verus! {

/// Entry type of the end of a directory.
pub const END_OF_DIRECTORY: u8 = 0x00;

/// Entry type of the allocation bitmap.
pub const ALLOCATION_BITMAP: u8 = 0x81;

/// Entry type of the up-case table.
pub const UPCASE_TABLE: u8 = 0x82;

/// Entry type of a file or directory.
pub const FILE_DIRECTORY: u8 = 0x85;

/// Entry type of a stream extension.
pub const STREAM_EXTENSION: u8 = 0xC0;

/// Entry type of a part of a name.
pub const FILE_NAME: u8 = 0xC1;

/// Entry type of a deleted file or directory.
pub const DELETED_FILE: u8 = 0x05;

/// Code units of a name in one entry.
pub const CHARS_PER_NAME_ENTRY: usize = 15;

/// Attributes of a file or directory.
#[derive(Debug, Clone, Copy, PartialEq, Eq, Structural)]
pub struct FileAttributes {
    /// The attribute bits.
    pub bits: u16,
}

impl FileAttributes {
    /// A file that was not backed up.
    pub fn archive() -> (r: Self)
        ensures
            r.bits == 0x20,
    {
        FileAttributes { bits: 0x20 }
    }

    /// A directory.
    pub fn directory() -> (r: Self)
        ensures
            r.bits == 0x10,
    {
        FileAttributes { bits: 0x10 }
    }

    /// Whether the bit for directories is set.
    pub open spec fn is_dir(self) -> bool {
        self.bits / 16 % 2 == 1
    }

    /// Whether the bit for directories is set.
    pub fn is_directory(self) -> (r: bool)
        ensures
            r == self.is_dir(),
    {
        self.bits / 16 % 2 == 1
    }
}

/// An entry of a directory.
#[derive(Debug, Clone, Copy)]
pub struct RawDirectoryEntry {
    /// Its bytes.
    pub bytes: [u8; 32],
}

impl RawDirectoryEntry {
    /// The entry's type.
    pub fn entry_type(&self) -> (r: u8)
        ensures
            r == self.bytes@[0],
    {
        self.bytes[0]
    }

    /// The entry of 32 bytes.
    pub fn from_slice(data: &[u8], at: usize) -> (r: Self)
        requires
            at + 32 <= data.len(),
        ensures
            r.bytes@ == data@.subrange(at as int, at + 32),
    {
        let mut bytes: [u8; 32] = [0; 32];
        let mut i: usize = 0;
        while i < 32
            invariant
                i <= 32,
                at + 32 <= data.len(),
                forall|k: int| 0 <= k < i ==> bytes@[k] == data@[at + k],
            decreases 32 - i,
        {
            bytes[i] = data[at + i];
            i += 1;
        }
        assert(bytes@ =~= data@.subrange(at as int, at + 32));
        RawDirectoryEntry { bytes }
    }
}

/// The bytes of entries, one after the other.
pub open spec fn set_bytes(entries: Seq<RawDirectoryEntry>) -> Seq<u8>
    decreases entries.len(),
{
    if entries.len() == 0 {
        Seq::empty()
    } else {
        set_bytes(entries.drop_last()) + entries.last().bytes@
    }
}

/// The bytes of entries are 32 for each, and each entry is found at its place.
pub proof fn set_bytes_at(entries: Seq<RawDirectoryEntry>, i: int)
    requires
        0 <= i < entries.len(),
    ensures
        set_bytes(entries).len() == 32 * entries.len(),
        set_bytes(entries).subrange(32 * i, 32 * i + 32) == entries[i].bytes@,
    decreases entries.len(),
{
    let init = entries.drop_last();
    if i < init.len() {
        set_bytes_at(init, i);
        assert(set_bytes(entries).subrange(32 * i, 32 * i + 32) =~= set_bytes(init).subrange(
            32 * i,
            32 * i + 32,
        ));
    } else {
        if init.len() > 0 {
            set_bytes_at(init, 0);
        }
        assert(set_bytes(entries).subrange(32 * i, 32 * i + 32) =~= entries.last().bytes@);
    }
}

/// Entries cut from bytes.
pub fn entries_of(data: &[u8]) -> (r: Vec<RawDirectoryEntry>)
    requires
        data@.len() % 32 == 0,
    ensures
        set_bytes(r@) == data@,
        r@.len() == data@.len() / 32,
{
    let mut r: Vec<RawDirectoryEntry> = Vec::new();
    let mut at: usize = 0;
    while at < data.len()
        invariant
            at <= data.len(),
            at % 32 == 0,
            data.len() % 32 == 0,
            r@.len() == at / 32,
            set_bytes(r@) == data@.take(at as int),
        decreases data.len() - at,
    {
        let ghost before = r@;
        let e: RawDirectoryEntry = RawDirectoryEntry::from_slice(data, at);
        r.push(e);
        assert(r@.drop_last() =~= before);
        at += 32;
        assert(set_bytes(r@) =~= data@.take(at as int));
    }
    assert(data@.take(at as int) =~= data@);
    r
}

/// The bytes of entries, one after the other.
pub fn flatten_entries(entries: &Vec<RawDirectoryEntry>) -> (r: Vec<u8>)
    ensures
        r@ == set_bytes(entries@),
{
    let mut r: Vec<u8> = Vec::new();
    let mut i: usize = 0;
    while i < entries.len()
        invariant
            i <= entries@.len(),
            r@ == set_bytes(entries@.take(i as int)),
        decreases entries.len() - i,
    {
        assert(entries@.take(i + 1).drop_last() =~= entries@.take(i as int));
        push_all(&mut r, &entries[i].bytes);
        i += 1;
    }
    assert(entries@.take(i as int) =~= entries@);
    r
}

/// The rolling checksum of bytes in 16 bits: rotate right, add the byte.
pub open spec fn roll16(s: Seq<u8>) -> u16
    decreases s.len(),
{
    if s.len() == 0 {
        0
    } else {
        hash_step(roll16(s.drop_last()), s.last() as int)
    }
}

/// The checksum of an entry set. It does not cover its own bytes.
pub open spec fn set_checksum(set: Seq<u8>) -> u16 {
    roll16(set.take(2) + set.skip(4))
}

/// The checksum of an entry set.
pub fn compute_entry_set_checksum(entries: &Vec<RawDirectoryEntry>) -> (r: u16)
    requires
        entries@.len() > 0,
    ensures
        r == set_checksum(set_bytes(entries@)),
{
    let all: Vec<u8> = flatten_entries(entries);
    proof {
        set_bytes_at(entries@, 0);
    }
    let ghost covered = all@.take(2) + all@.skip(4);
    let mut sum: u16 = 0;
    let mut i: usize = 0;
    while i < all.len()
        invariant
            i <= all@.len(),
            all@.len() >= 32,
            covered == all@.take(2) + all@.skip(4),
            sum == roll16(
                covered.take(
                    if i <= 2 {
                        i as int
                    } else if i <= 4 {
                        2
                    } else {
                        i - 2
                    },
                ),
            ),
        decreases all.len() - i,
    {
        if i != 2 && i != 3 {
            proof {
                let k = if i <= 2 {
                    i as int
                } else {
                    i - 2
                };
                assert(covered[k] == all@[i as int]);
                assert(covered.take(k + 1).drop_last() =~= covered.take(k));
            }
            sum = roll16_step(sum, all[i] as u16);
        }
        i += 1;
    }
    assert(covered.take(all@.len() - 2) =~= covered);
    sum
}

/// `char::from_u32`: the character with the given code point; nothing where the number is
/// a surrogate or beyond the last code point.
pub assume_specification[ char::from_u32 ](i: u32) -> (r: Option<char>)
    ensures
        r is Some <==> (i < 0xD800 || 0xE000 <= i <= 0x10FFFF),
        r matches Some(c) ==> c as u32 == i,
;

/// The character that stands for a code unit without its partner.
pub open spec fn replacement() -> char {
    '\u{FFFD}'
}

/// Whether a high surrogate and a low one follow each other.
pub open spec fn is_pair(s: Seq<u16>) -> bool {
    s.len() >= 2 && 0xD800 <= s[0] < 0xDC00 && 0xDC00 <= s[1] < 0xE000
}

/// The code point of a pair of surrogates.
pub open spec fn pair_value(high: u16, low: u16) -> u32 {
    (0x10000 + (high - 0xD800) * 0x400 + (low - 0xDC00)) as u32
}

/// Whether `c` is the character with the given code point.
pub open spec fn has_code(c: char, v: u32) -> bool {
    c as u32 == v
}

/// The character with the given code point.
pub open spec fn char_of(v: u32) -> char {
    choose|c: char| has_code(c, v)
}

/// The characters of code units. A surrogate without its partner becomes the replacement
/// character.
pub open spec fn decode_units(s: Seq<u16>) -> Seq<char>
    decreases s.len(),
{
    if s.len() == 0 {
        Seq::empty()
    } else if is_pair(s) {
        seq![char_of(pair_value(s[0], s[1]))] + decode_units(s.skip(2))
    } else if 0xD800 <= s[0] < 0xE000 {
        seq![replacement()] + decode_units(s.skip(1))
    } else {
        seq![char_of(s[0] as u32)] + decode_units(s.skip(1))
    }
}

/// The string of code units.
pub fn decode_utf16(s: &Vec<u16>) -> (r: String)
    ensures
        r@ == decode_units(s@),
{
    let mut r: String = String::new();
    let mut i: usize = 0;
    assert(s@.skip(0) =~= s@);
    assert(r@ + decode_units(s@) =~= decode_units(s@));
    while i < s.len()
        invariant
            i <= s@.len(),
            r@ + decode_units(s@.skip(i as int)) == decode_units(s@),
        decreases s.len() - i,
    {
        let ghost rest = s@.skip(i as int);
        let ghost before = r@;
        let u: u16 = s[i];
        if 0xD800 <= u && u < 0xDC00 && i + 1 < s.len() && 0xDC00 <= s[i + 1] && s[i + 1] < 0xE000 {
            assert(is_pair(rest));
            let v: u32 = 0x10000 + (u as u32 - 0xD800) * 0x400 + (s[i + 1] as u32 - 0xDC00);
            match char::from_u32(v) {
                Some(c) => {
                    proof {
                        same_char(c, v);
                    }
                    r.push(c);
                },
                None => {},
            }
            assert(rest.skip(2) =~= s@.skip(i + 2));
            i += 2;
            assert(r@ + decode_units(s@.skip(i as int)) =~= before + decode_units(rest));
        } else if 0xD800 <= u && u < 0xE000 {
            assert(!is_pair(rest));
            r.push('\u{FFFD}');
            assert(rest.skip(1) =~= s@.skip(i + 1));
            i += 1;
            assert(r@ + decode_units(s@.skip(i as int)) =~= before + decode_units(rest));
        } else {
            assert(!is_pair(rest));
            match char::from_u32(u as u32) {
                Some(c) => {
                    proof {
                        same_char(c, u as u32);
                    }
                    r.push(c);
                },
                None => {},
            }
            assert(rest.skip(1) =~= s@.skip(i + 1));
            i += 1;
            assert(r@ + decode_units(s@.skip(i as int)) =~= before + decode_units(rest));
        }
    }
    assert(r@ =~= decode_units(s@));
    r
}

proof fn same_char(c: char, v: u32)
    requires
        c as u32 == v,
    ensures
        char_of(v) == c,
{
    assert(has_code(c, v));
    let d = char_of(v);
    assert(has_code(d, v));
}

proof fn decode_front(c: char, rest: Seq<u16>)
    ensures
        decode_units(utf16_char(c) + rest) == seq![c] + decode_units(rest),
{
    vstd::utf8::char_is_scalar(c);
    let s = utf16_char(c) + rest;
    let v = c as u32;
    if v < 0x10000 {
        assert(s.skip(1) =~= rest);
        assert(s[0] == v);
        assert(!(0xD800 <= v < 0xE000));
        same_char(c, v);
    } else {
        let w = (v - 0x10000) as u32;
        assert(s.skip(2) =~= rest);
        assert(s[0] == 0xD800 + w / 0x400 && s[1] == 0xDC00 + w % 0x400);
        assert(is_pair(s));
        assert(pair_value(s[0], s[1]) == v);
        same_char(c, v);
    }
}

proof fn utf16_front(s: Seq<char>)
    requires
        s.len() > 0,
    ensures
        utf16(s) == utf16_char(s[0]) + utf16(s.drop_first()),
    decreases s.len(),
{
    let t = s.drop_first();
    if t.len() == 0 {
        assert(s.drop_last() =~= Seq::empty());
        assert(utf16(s.drop_last()) =~= Seq::empty());
        assert(utf16(t) =~= Seq::empty());
        assert(utf16(s) =~= utf16_char(s[0]) + utf16(t));
    } else {
        utf16_front(s.drop_last());
        assert(s.drop_last().drop_first() =~= t.drop_last());
        assert(t.last() == s.last());
        assert(utf16(s) =~= utf16_char(s[0]) + utf16(t));
    }
}

/// A name is read back from its code units as it was.
pub proof fn utf16_round_trip(s: Seq<char>)
    ensures
        decode_units(utf16(s)) == s,
    decreases s.len(),
{
    if s.len() > 0 {
        utf16_front(s);
        decode_front(s[0], utf16(s.drop_first()));
        utf16_round_trip(s.drop_first());
        assert(seq![s[0]] + s.drop_first() =~= s);
    } else {
        assert(decode_units(utf16(s)) =~= s);
    }
}

/// What an entry set says of a file or directory.
#[derive(Debug)]
pub struct ParsedEntrySet {
    /// Name.
    pub name: Vec<u16>,
    /// Attributes.
    pub attributes: FileAttributes,
    /// First cluster.
    pub first_cluster: u32,
    /// Size.
    pub data_length: u64,
    /// How much of it was written.
    pub valid_data_length: u64,
    /// Whether the clusters follow each other without the FAT.
    pub no_fat_chain: bool,
    /// Hash of the name.
    pub name_hash: u16,
    /// Creation time.
    pub created: ExFatTimestamp,
    /// Modification time.
    pub modified: ExFatTimestamp,
    /// Access time.
    pub accessed: ExFatTimestamp,
}

/// The code units in name entries: fifteen in each, from its third byte on.
pub open spec fn name_units(set: Seq<u8>, count: int) -> Seq<u16> {
    Seq::new(
        count as nat,
        |i: int|
            {
                let at = 64 + 32 * (i / 15) + 2 + 2 * (i % 15);
                (set[at] + 256 * set[at + 1]) as u16
            },
    )
}

/// Whether bytes are an entry set: a file entry, a stream extension and as many name entries
/// as the name needs, as many in all as the file entry says, with the right checksum.
pub open spec fn is_entry_set(set: Seq<u8>) -> bool {
    &&& set.len() >= 96
    &&& set.len() == 32 * (1 + set[1])
    &&& set[0] == FILE_DIRECTORY
    &&& set[32] == STREAM_EXTENSION
    &&& set[35] > 0
    &&& set.len() == 64 + 32 * ((set[35] + 14) / 15)
    &&& forall|i: int| 2 <= i < set.len() / 32 ==> #[trigger] set[32 * i] == FILE_NAME
    &&& from_le16(set.subrange(2, 4)) == set_checksum(set)
}

/// Whether the parsed values are those of the entry set.
pub open spec fn parsed_from(p: ParsedEntrySet, set: Seq<u8>) -> bool {
    &&& p.name@ == name_units(set, set[35] as int)
    &&& p.attributes.bits == from_le16(set.subrange(4, 6))
    &&& p.no_fat_chain == (set[33] / 2 % 2 == 1)
    &&& p.name_hash == from_le16(set.subrange(36, 38))
    &&& p.valid_data_length == from_le64(set.subrange(40, 48))
    &&& p.first_cluster == from_le32(set.subrange(52, 56))
    &&& p.data_length == from_le64(set.subrange(56, 64))
    &&& p.created == ExFatTimestamp::unpacked(from_le32(set.subrange(8, 12)), set[20], set[22])
    &&& p.modified == ExFatTimestamp::unpacked(from_le32(set.subrange(12, 16)), set[21], set[23])
    &&& p.accessed == ExFatTimestamp::unpacked(from_le32(set.subrange(16, 20)), 0, set[24])
}

/// Reads an entry set; nothing where the entries are none.
pub fn parse_entry_set(entries: &Vec<RawDirectoryEntry>) -> (r: Option<ParsedEntrySet>)
    ensures
        r is Some <==> is_entry_set(set_bytes(entries@)),
        r matches Some(p) ==> parsed_from(p, set_bytes(entries@)),
{
    let set: Vec<u8> = flatten_entries(entries);
    let ghost all = set@;
    let n: usize = entries.len();
    proof {
        if entries@.len() > 0 {
            set_bytes_at(entries@, 0);
        } else {
            assert(all =~= Seq::empty());
        }
    }
    if n < 3 || n != 1 + set[1] as usize {
        return None;
    }
    if set[0] != FILE_DIRECTORY || set[32] != STREAM_EXTENSION || set[35] == 0 {
        return None;
    }
    let count: usize = set[35] as usize;
    if n != 2 + (count + 14) / 15 {
        return None;
    }
    let mut i: usize = 2;
    while i < n
        invariant
            2 <= i <= n,
            n <= 256,
            all == set@,
            all == set_bytes(entries@),
            all.len() == 32 * n,
            forall|k: int| 2 <= k < i ==> #[trigger] all[32 * k] == FILE_NAME,
        decreases n - i,
    {
        if set[32 * i] != FILE_NAME {
            assert(all[32 * i as int] != FILE_NAME);
            return None;
        }
        i += 1;
    }
    if get_le16(set.as_slice(), 2) != compute_entry_set_checksum(entries) {
        return None;
    }
    let mut name: Vec<u16> = Vec::new();
    let mut k: usize = 0;
    while k < count
        invariant
            k <= count,
            count <= 255,
            all == set@,
            all.len() == 32 * n,
            n == 2 + (count + 14) / 15,
            name@ == name_units(all, k as int),
        decreases count - k,
    {
        let at: usize = 64 + 32 * (k / 15) + 2 + 2 * (k % 15);
        name.push(set[at] as u16 + 256 * set[at + 1] as u16);
        k += 1;
        assert(name@ =~= name_units(all, k as int));
    }
    let s: &[u8] = set.as_slice();
    Some(
        ParsedEntrySet {
            name,
            attributes: FileAttributes { bits: get_le16(s, 4) },
            first_cluster: get_le32(s, 52),
            data_length: get_le64(s, 56),
            valid_data_length: get_le64(s, 40),
            no_fat_chain: s[33] / 2 % 2 == 1,
            name_hash: get_le16(s, 36),
            created: ExFatTimestamp::from_raw(get_le32(s, 8), s[20], s[22]),
            modified: ExFatTimestamp::from_raw(get_le32(s, 12), s[21], s[23]),
            accessed: ExFatTimestamp::from_raw(get_le32(s, 16), 0, s[24]),
        },
    )
}

/// A file or directory as it was found in a directory.
#[derive(Debug)]
pub struct ExFatFileEntry {
    /// Name.
    pub name: String,
    /// Attributes.
    pub attributes: FileAttributes,
    /// First cluster; 0 where nothing is allocated.
    pub first_cluster: u32,
    /// Size.
    pub data_length: u64,
    /// How much of it was written.
    pub valid_data_length: u64,
    /// Whether the clusters follow each other without the FAT.
    pub no_fat_chain: bool,
    /// Hash of the name.
    pub name_hash: u16,
    /// Creation time.
    pub created: ExFatTimestamp,
    /// Modification time.
    pub modified: ExFatTimestamp,
    /// Access time.
    pub accessed: ExFatTimestamp,
    /// Cluster of the directory in which the entry set stands.
    pub parent_cluster: u32,
    /// Byte of the device where the entry set starts.
    pub entry_offset: u64,
}

impl ExFatFileEntry {
    /// Whether this is a directory.
    pub fn is_directory(&self) -> (r: bool)
        ensures
            r == self.attributes.is_dir(),
    {
        self.attributes.is_directory()
    }

    /// Whether two values say the same.
    pub open spec fn same(&self, other: &Self) -> bool {
        &&& self.name@ == other.name@
        &&& *self == (ExFatFileEntry { name: self.name, ..*other })
    }

    /// A copy.
    pub fn duplicate(&self) -> (r: Self)
        ensures
            r.same(self),
    {
        ExFatFileEntry {
            name: self.name.clone(),
            attributes: self.attributes,
            first_cluster: self.first_cluster,
            data_length: self.data_length,
            valid_data_length: self.valid_data_length,
            no_fat_chain: self.no_fat_chain,
            name_hash: self.name_hash,
            created: self.created,
            modified: self.modified,
            accessed: self.accessed,
            parent_cluster: self.parent_cluster,
            entry_offset: self.entry_offset,
        }
    }
}

} // verus!
