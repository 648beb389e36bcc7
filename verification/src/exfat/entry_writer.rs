//! Building entry sets.

use crate::bytes::{push_le16, push_le32, push_le64, push_zeros};
#[allow(unused_imports)]
use crate::bytes::{
    from_le16, from_le32, from_le64, le16, le16_round_trip, le32, le32_round_trip, le64,
    le64_round_trip,
};
use crate::exfat::entry::{
    compute_entry_set_checksum, CHARS_PER_NAME_ENTRY, FILE_DIRECTORY, FILE_NAME, FileAttributes,
    RawDirectoryEntry, STREAM_EXTENSION,
};
#[allow(unused_imports)]
use crate::exfat::entry::{
    decode_units, is_entry_set, name_units, parsed_from, set_bytes, set_bytes_at, set_checksum,
    utf16_round_trip, ParsedEntrySet,
};
use crate::exfat::error::ExFatError;
use crate::exfat::time::ExFatTimestamp;
#[allow(unused_imports)]
use crate::exfat::time::timestamp_round_trip;
use crate::exfat::upcase::UpcaseTable;
use crate::text::{chars_of, encode_utf16};
#[allow(unused_imports)]
use crate::text::{units_of_the_basic_plane, utf16};
use vstd::prelude::*;

verus! {

/// The longest name in code units.
pub const MAX_NAME_LENGTH: usize = 255;

/// Builds the entry set of a file or directory.
#[derive(Debug)]
pub struct EntrySetBuilder {
    /// Name.
    pub name: String,
    /// Attributes.
    pub attributes: FileAttributes,
    /// First cluster; 0 where nothing is allocated.
    pub first_cluster: u32,
    /// How much was written.
    pub valid_data_length: u64,
    /// Size.
    pub data_length: u64,
    /// Whether the clusters follow each other without the FAT.
    pub is_contiguous: bool,
    /// Creation time.
    pub created: ExFatTimestamp,
    /// Modification time.
    pub modified: ExFatTimestamp,
    /// Access time.
    pub accessed: ExFatTimestamp,
}

/// Whether a character is not allowed in names: a control character or one of
/// `" * / : < > ? \ |`.
pub open spec fn invalid_char(c: char) -> bool {
    let v = c as u32;
    v < 0x20 || v == 0x22 || v == 0x2A || v == 0x2F || v == 0x3A || v == 0x3C || v == 0x3E || v
        == 0x3F || v == 0x5C || v == 0x7C
}

/// Whether a name is allowed: 1 to 255 code units, none of its characters forbidden.
pub open spec fn valid_name(name: Seq<char>) -> bool {
    &&& 1 <= utf16(name).len() <= 255
    &&& forall|i: int| 0 <= i < name.len() ==> !invalid_char(#[trigger] name[i])
}

fn is_invalid_char(c: char) -> (r: bool)
    ensures
        r == invalid_char(c),
{
    let v: u32 = c as u32;
    v < 0x20 || v == 0x22 || v == 0x2A || v == 0x2F || v == 0x3A || v == 0x3C || v == 0x3E || v
        == 0x3F || v == 0x5C || v == 0x7C
}

/// A name of 1 to 255 code units is refused where one of its characters is a control character
/// below U+0020 or one of `" * / : < > ? \ |`, and only there. Any other length is refused.
pub proof fn refused_names(name: Seq<char>)
    ensures
        utf16(name).len() == 0 || utf16(name).len() > 255 ==> !valid_name(name),
        1 <= utf16(name).len() <= 255 ==> (!valid_name(name) <==> exists|i: int|
            0 <= i < name.len() && ((#[trigger] name[i] as u32) < 32 || name[i] == '"' || name[i]
                == '*' || name[i] == '/' || name[i] == ':' || name[i] == '<' || name[i] == '>'
                || name[i] == '?' || name[i] == '\\' || name[i] == '|')),
{
    assert forall|i: int| 0 <= i < name.len() implies (invalid_char(#[trigger] name[i]) <==> ((
    name[i] as u32) < 32 || name[i] == '"' || name[i] == '*' || name[i] == '/' || name[i] == ':'
        || name[i] == '<' || name[i] == '>' || name[i] == '?' || name[i] == '\\' || name[i]
        == '|')) by {
        invalid_characters(name[i]);
    }
}

proof fn invalid_characters(c: char)
    ensures
        invalid_char(c) <==> ((c as u32) < 32 || c == '"' || c == '*' || c == '/' || c == ':' || c
            == '<' || c == '>' || c == '?' || c == '\\' || c == '|'),
{
}

/// A name of letters, digits, spaces and the signs that no path or pattern gives a meaning is
/// allowed where it has 1 to 255 characters.
pub proof fn ordinary_names_are_allowed(name: Seq<char>)
    requires
        1 <= name.len() <= 255,
        forall|i: int|
            0 <= i < name.len() ==> {
                let c = #[trigger] name[i] as u32;
                ||| 'a' as u32 <= c <= 'z' as u32
                ||| 'A' as u32 <= c <= 'Z' as u32
                ||| '0' as u32 <= c <= '9' as u32
                ||| 0x80 <= c < 0x10000
                ||| name[i] == ' ' || name[i] == '.' || name[i] == '(' || name[i] == ')' || name[i]
                    == '+' || name[i] == '-' || name[i] == '&' || name[i] == '_' || name[i] == '!'
                    || name[i] == '#' || name[i] == '$' || name[i] == '%' || name[i] == '\''
                    || name[i] == ',' || name[i] == ';' || name[i] == '=' || name[i] == '@'
                    || name[i] == '[' || name[i] == ']' || name[i] == '^' || name[i] == '`'
                    || name[i] == '{' || name[i] == '}' || name[i] == '~'
            },
    ensures
        valid_name(name),
{
    units_of_the_basic_plane(name);
    refused_names(name);
}

/// Whether a name is allowed.
pub fn is_valid_name(name: &str) -> (r: bool)
    ensures
        r == valid_name(name@),
        r <==> 1 <= utf16(name@).len() <= 255 && forall|i: int|
            0 <= i < name@.len() ==> (#[trigger] name@[i] as u32) >= 32 && name@[i] != '"'
                && name@[i] != '*' && name@[i] != '/' && name@[i] != ':' && name@[i] != '<'
                && name@[i] != '>' && name@[i] != '?' && name@[i] != '\\' && name@[i] != '|',
{
    proof {
        refused_names(name@);
    }
    let len: usize = encode_utf16(name).len();
    if len == 0 || len > MAX_NAME_LENGTH {
        return false;
    }
    let chars: Vec<char> = chars_of(name);
    let mut i: usize = 0;
    while i < chars.len()
        invariant
            i <= chars@.len(),
            chars@ == name@,
            forall|k: int| 0 <= k < i ==> !invalid_char(#[trigger] chars@[k]),
        decreases chars.len() - i,
    {
        if is_invalid_char(chars[i]) {
            proof {
                invalid_characters(name@[i as int]);
            }
            assert(invalid_char(name@[i as int]));
            return false;
        }
        i += 1;
    }
    true
}

/// How many name entries a name of `units` code units takes.
pub open spec fn name_entry_count(units: int) -> int {
    (units + 14) / 15
}

impl EntrySetBuilder {
    /// Whether the set can be built.
    pub open spec fn wf(&self) -> bool {
        &&& valid_name(self.name@)
        &&& self.created.wf()
        &&& self.modified.wf()
        &&& self.accessed.wf()
    }

    /// The file entry, its checksum left zero.
    #[verifier::opaque]
    pub open spec fn file_entry(&self) -> Seq<u8> {
        seq![FILE_DIRECTORY, (1 + name_entry_count(utf16(self.name@).len() as int)) as u8, 0u8, 0u8]
            + le16(self.attributes.bits) + seq![0u8, 0u8] + le32(self.created.packed()) + le32(
            self.modified.packed(),
        ) + le32(self.accessed.packed()) + seq![
            self.created.increment(),
            self.modified.increment(),
            self.created.utc_offset,
            self.modified.utc_offset,
            self.accessed.utc_offset,
        ] + Seq::new(7, |i: int| 0u8)
    }

    /// The flags of the stream extension: allocation is always possible, and there is no
    /// chain in the FAT where the clusters follow each other or there are none.
    pub open spec fn stream_flags(&self) -> u8 {
        stream_flags_of(self.first_cluster, self.data_length, self.is_contiguous)
    }

    /// The stream extension.
    #[verifier::opaque]
    pub open spec fn stream_entry(&self, hash: u16) -> Seq<u8> {
        seq![STREAM_EXTENSION, self.stream_flags(), 0u8, utf16(self.name@).len() as u8] + le16(hash)
            + seq![0u8, 0u8] + le64(self.valid_data_length) + seq![0u8, 0u8, 0u8, 0u8] + le32(
            self.first_cluster,
        ) + le64(self.data_length)
    }

    /// A builder for a file.
    pub fn file(name: &str) -> (r: Result<Self, ExFatError>)
        ensures
            r is Ok <==> valid_name(name@),
            r matches Ok(b) ==> b.wf() && b.name@ == name@ && b.attributes.bits == 0x20 && b.fresh(),
            r matches Err(e) ==> e == ExFatError::InvalidFilename,
    {
        Self::new(name, FileAttributes::archive(), ExFatTimestamp::now())
    }

    /// A builder for a directory.
    pub fn directory(name: &str) -> (r: Result<Self, ExFatError>)
        ensures
            r is Ok <==> valid_name(name@),
            r matches Ok(b) ==> b.wf() && b.name@ == name@ && b.attributes.bits == 0x10 && b.fresh(),
            r matches Err(e) ==> e == ExFatError::InvalidFilename,
    {
        Self::new(name, FileAttributes::directory(), ExFatTimestamp::now())
    }

    /// Whether nothing is allocated and all times are the same.
    pub open spec fn fresh(&self) -> bool {
        &&& self.first_cluster == 0
        &&& self.valid_data_length == 0
        &&& self.data_length == 0
        &&& self.is_contiguous
        &&& self.created == self.modified
        &&& self.created == self.accessed
    }

    /// A builder for an entry of the given time.
    pub fn new(name: &str, attributes: FileAttributes, now: ExFatTimestamp) -> (r: Result<
        Self,
        ExFatError,
    >)
        requires
            now.wf(),
        ensures
            r is Ok <==> valid_name(name@),
            r matches Ok(b) ==> {
                &&& b.wf()
                &&& b.name@ == name@
                &&& b.attributes == attributes
                &&& b.fresh()
                &&& b.created == now
            },
            r matches Err(e) ==> e == ExFatError::InvalidFilename,
    {
        if !is_valid_name(name) {
            return Err(ExFatError::InvalidFilename);
        }
        Ok(
            EntrySetBuilder {
                name: name.to_owned(),
                attributes,
                first_cluster: 0,
                valid_data_length: 0,
                data_length: 0,
                is_contiguous: true,
                created: now,
                modified: now,
                accessed: now,
            },
        )
    }

    /// With a first cluster.
    pub fn with_cluster(self, cluster: u32) -> (r: Self)
        ensures
            r == (EntrySetBuilder { first_cluster: cluster, ..self }),
    {
        let mut b: EntrySetBuilder = self;
        b.first_cluster = cluster;
        b
    }

    /// With sizes.
    pub fn with_size(self, valid_length: u64, allocated_length: u64) -> (r: Self)
        ensures
            r == (EntrySetBuilder {
                valid_data_length: valid_length,
                data_length: allocated_length,
                ..self
            }),
    {
        let mut b: EntrySetBuilder = self;
        b.valid_data_length = valid_length;
        b.data_length = allocated_length;
        b
    }

    /// With or without a chain in the FAT.
    pub fn with_contiguous(self, contiguous: bool) -> (r: Self)
        ensures
            r == (EntrySetBuilder { is_contiguous: contiguous, ..self }),
    {
        let mut b: EntrySetBuilder = self;
        b.is_contiguous = contiguous;
        b
    }

    /// The entry set with its checksum.
    pub fn build(&self, upcase: &UpcaseTable) -> (r: Vec<RawDirectoryEntry>)
        requires
            self.wf(),
        ensures
            set_bytes(r@) == built_set(*self, upcase.hash_of(self.name@)),
            r@.len() == 2 + name_entry_count(utf16(self.name@).len() as int),
    {
        let units: Vec<u16> = encode_utf16(self.name.as_str());
        let count: usize = (units.len() + CHARS_PER_NAME_ENTRY - 1) / CHARS_PER_NAME_ENTRY;
        let hash: u16 = upcase.name_hash(self.name.as_str());
        let file: RawDirectoryEntry = self.build_file_entry((1 + count) as u8);
        let mut entries: Vec<RawDirectoryEntry> = Vec::new();
        entries.push(file);
        assert(entries@.drop_last() =~= Seq::empty());
        assert(set_bytes(entries@.drop_last()) =~= Seq::empty());
        assert(set_bytes(entries@) =~= self.file_entry());
        let stream: RawDirectoryEntry = self.build_stream_entry(units.len() as u8, hash);
        entries.push(stream);
        assert(entries@.drop_last() =~= seq![file]);
        assert(set_bytes(entries@) =~= self.file_entry() + self.stream_entry(hash));
        let ghost head = set_bytes(entries@);
        let mut i: usize = 0;
        assert(head + names_bytes(units@, 0) =~= head);
        while i < count
            invariant
                i <= count,
                count == name_entry_count(units@.len() as int),
                units@.len() <= 255,
                entries@.len() == 2 + i,
                set_bytes(entries@) == head + names_bytes(units@, i as int),
            decreases count - i,
        {
            let from: usize = i * 15;
            let to: usize = if units.len() - from < 15 {
                units.len()
            } else {
                from + 15
            };
            let ghost before = entries@;
            let e: RawDirectoryEntry = build_name_entry(&units, from, to);
            entries.push(e);
            assert(entries@.drop_last() =~= before);
            i += 1;
            assert(set_bytes(entries@) =~= head + names_bytes(units@, i as int));
        }
        fill_checksum(&mut entries);
        entries
    }

    fn build_file_entry(&self, secondary_count: u8) -> (r: RawDirectoryEntry)
        requires
            self.wf(),
            secondary_count == 1 + name_entry_count(utf16(self.name@).len() as int),
        ensures
            r.bytes@ == self.file_entry(),
    {
        let (create_ts, create_10ms, create_utc): (u32, u8, u8) = self.created.to_raw();
        let (modify_ts, modify_10ms, modify_utc): (u32, u8, u8) = self.modified.to_raw();
        let (access_ts, _, access_utc): (u32, u8, u8) = self.accessed.to_raw();
        let mut s: Vec<u8> = Vec::new();
        s.push(FILE_DIRECTORY);
        s.push(secondary_count);
        s.push(0);
        s.push(0);
        push_le16(&mut s, self.attributes.bits);
        s.push(0);
        s.push(0);
        push_le32(&mut s, create_ts);
        push_le32(&mut s, modify_ts);
        push_le32(&mut s, access_ts);
        s.push(create_10ms);
        s.push(modify_10ms);
        s.push(create_utc);
        s.push(modify_utc);
        s.push(access_utc);
        push_zeros(&mut s, 7);
        reveal(EntrySetBuilder::file_entry);
        assert(s@ =~= self.file_entry());
        let e: RawDirectoryEntry = RawDirectoryEntry::from_slice(s.as_slice(), 0);
        assert(e.bytes@ =~= s@);
        e
    }

    fn build_stream_entry(&self, name_length: u8, name_hash: u16) -> (r: RawDirectoryEntry)
        requires
            self.wf(),
            name_length == utf16(self.name@).len(),
        ensures
            r.bytes@ == self.stream_entry(name_hash),
    {
        let has_allocation: bool = self.data_length > 0 || self.first_cluster != 0;
        let flags: u8 = if !has_allocation || self.is_contiguous {
            0x03
        } else {
            0x01
        };
        let mut s: Vec<u8> = Vec::new();
        s.push(STREAM_EXTENSION);
        s.push(flags);
        s.push(0);
        s.push(name_length);
        push_le16(&mut s, name_hash);
        s.push(0);
        s.push(0);
        push_le64(&mut s, self.valid_data_length);
        push_zeros(&mut s, 4);
        push_le32(&mut s, self.first_cluster);
        push_le64(&mut s, self.data_length);
        reveal(EntrySetBuilder::stream_entry);
        assert(s@ =~= self.stream_entry(name_hash));
        let e: RawDirectoryEntry = RawDirectoryEntry::from_slice(s.as_slice(), 0);
        assert(e.bytes@ =~= s@);
        e
    }
}

/// The flags of a stream extension.
pub open spec fn stream_flags_of(first_cluster: u32, data_length: u64, contiguous: bool) -> u8 {
    if (data_length == 0 && first_cluster == 0) || contiguous {
        0x03
    } else {
        0x01
    }
}

/// A name entry with the code units from `from` to `to`: its type, no flags, the units, zeros.
pub open spec fn name_entry(units: Seq<u16>, from: int, to: int) -> Seq<u8> {
    Seq::new(
        32,
        |i: int|
            if i == 0 {
                FILE_NAME
            } else if i < 2 || (i - 2) / 2 >= to - from {
                0u8
            } else if i % 2 == 0 {
                (units[from + (i - 2) / 2] % 256) as u8
            } else {
                (units[from + (i - 2) / 2] / 256) as u8
            },
    )
}

/// The first `n` name entries of a name.
pub open spec fn names_bytes(units: Seq<u16>, n: int) -> Seq<u8>
    decreases n,
{
    if n <= 0 {
        Seq::empty()
    } else {
        let from = 15 * (n - 1);
        let to = if units.len() - from < 15 {
            units.len() as int
        } else {
            from + 15
        };
        names_bytes(units, n - 1) + name_entry(units, from, to)
    }
}

/// The set with its checksum filled in.
pub open spec fn with_checksum(set: Seq<u8>) -> Seq<u8> {
    set.take(2) + le16(set_checksum(set)) + set.skip(4)
}

/// The entry set of a builder: file entry, stream extension, name entries, checksum.
pub open spec fn built_set(b: EntrySetBuilder, hash: u16) -> Seq<u8> {
    let units = utf16(b.name@);
    with_checksum(
        b.file_entry() + b.stream_entry(hash) + names_bytes(
            units,
            name_entry_count(units.len() as int),
        ),
    )
}

/// Fills in the checksum of an entry set.
pub fn fill_checksum(entries: &mut Vec<RawDirectoryEntry>)
    requires
        old(entries)@.len() > 0,
    ensures
        set_bytes(final(entries)@) == with_checksum(set_bytes(old(entries)@)),
        final(entries)@.len() == old(entries)@.len(),
{
    let ghost plain = set_bytes(entries@);
    let checksum: u16 = compute_entry_set_checksum(entries);
    let ghost before = entries@;
    let mut first: RawDirectoryEntry = entries[0];
    first.bytes[2] = (checksum % 256) as u8;
    first.bytes[3] = (checksum / 256) as u8;
    proof {
        set_bytes_at(before, 0);
        assert(first.bytes@ =~= before[0].bytes@.update(2, (checksum % 256) as u8).update(
            3,
            (checksum / 256) as u8,
        ));
    }
    entries[0] = first;
    proof {
        set_bytes_update_first(before, first);
        assert(entries@ =~= before.update(0, first));
        assert(plain.subrange(0, 32) == before[0].bytes@);
        assert(set_bytes(entries@) =~= with_checksum(plain));
    }
}

fn build_name_entry(units: &Vec<u16>, from: usize, to: usize) -> (r: RawDirectoryEntry)
    requires
        from <= to <= units@.len(),
        to - from <= 15,
    ensures
        r.bytes@ == name_entry(units@, from as int, to as int),
{
    let mut bytes: [u8; 32] = [0; 32];
    bytes[0] = FILE_NAME;
    let mut i: usize = 0;
    while i < to - from
        invariant
            from <= to <= units@.len(),
            i <= to - from <= 15,
            forall|k: int|
                0 <= k < 32 ==> #[trigger] bytes@[k] == name_entry(units@, from as int, from + i)[k],
        decreases to - from - i,
    {
        let unit: u16 = units[from + i];
        bytes[2 + 2 * i] = (unit % 256) as u8;
        bytes[3 + 2 * i] = (unit / 256) as u8;
        i += 1;
    }
    assert(bytes@ =~= name_entry(units@, from as int, to as int));
    RawDirectoryEntry { bytes }
}

proof fn set_bytes_update_first(entries: Seq<RawDirectoryEntry>, first: RawDirectoryEntry)
    requires
        entries.len() > 0,
    ensures
        set_bytes(entries.update(0, first)) == first.bytes@ + set_bytes(entries).skip(32),
        set_bytes(entries).len() >= 32,
    decreases entries.len(),
{
    let new = entries.update(0, first);
    let init = entries.drop_last();
    if entries.len() == 1 {
        assert(new.drop_last() =~= Seq::empty());
        assert(init =~= Seq::empty());
        assert(set_bytes(new.drop_last()) =~= Seq::empty());
        assert(set_bytes(init) =~= Seq::empty());
        assert(set_bytes(new) =~= first.bytes@ + set_bytes(entries).skip(32));
    } else {
        set_bytes_update_first(init, first);
        assert(new.drop_last() =~= init.update(0, first));
        assert(new.last() == entries.last());
        assert(set_bytes(new) =~= first.bytes@ + set_bytes(entries).skip(32));
    }
}

/// Filling in the checksum makes it match, and changes nothing else.
pub proof fn checksum_matches(set: Seq<u8>)
    requires
        set.len() >= 4,
    ensures
        with_checksum(set).len() == set.len(),
        from_le16(with_checksum(set).subrange(2, 4)) == set_checksum(with_checksum(set)),
        forall|i: int|
            0 <= i < set.len() && i != 2 && i != 3 ==> #[trigger] with_checksum(set)[i] == set[i],
{
    let t = with_checksum(set);
    assert(t.take(2) =~= set.take(2));
    assert(t.skip(4) =~= set.skip(4));
    assert(t.subrange(2, 4) =~= le16(set_checksum(set)));
    le16_round_trip(set_checksum(set));
}

/// Whether code unit `k` of name entry `j` stands at its place.
spec fn unit_stands_at(names: Seq<u8>, units: Seq<u16>, j: int, k: int) -> bool {
    let at = 32 * j + 2 + 2 * k;
    &&& names[at] == (units[15 * j + k] % 256) as u8
    &&& names[at + 1] == (units[15 * j + k] / 256) as u8
}

proof fn names_bytes_at(units: Seq<u16>, n: int, j: int)
    requires
        0 <= j < n,
        15 * (n - 1) < units.len(),
    ensures
        names_bytes(units, n).len() == 32 * n,
        names_bytes(units, n)[32 * j] == FILE_NAME,
        forall|k: int|
            0 <= k < 15 && 15 * j + k < units.len() ==> #[trigger] unit_stands_at(
                names_bytes(units, n),
                units,
                j,
                k,
            ),
    decreases n,
{
    let from = 15 * (n - 1);
    let to = if units.len() - from < 15 {
        units.len() as int
    } else {
        from + 15
    };
    let init = names_bytes(units, n - 1);
    let last = name_entry(units, from, to);
    if n > 1 {
        names_bytes_at(
            units,
            n - 1,
            if j < n - 1 {
                j
            } else {
                0
            },
        );
    }
    assert(init.len() == 32 * (n - 1));
    if j == n - 1 {
        assert forall|k: int| 0 <= k < 15 && 15 * j + k < units.len() implies
            #[trigger] unit_stands_at(names_bytes(units, n), units, j, k) by {
            let at = 32 * j + 2 + 2 * k;
            assert(names_bytes(units, n)[at] == last[2 + 2 * k]);
            assert(names_bytes(units, n)[at + 1] == last[3 + 2 * k]);
            assert((2 + 2 * k - 2) / 2 == k && (3 + 2 * k - 2) / 2 == k);
            assert((2 + 2 * k) % 2 == 0 && (3 + 2 * k) % 2 == 1);
        }
    } else {
        assert forall|k: int| 0 <= k < 15 && 15 * j + k < units.len() implies
            #[trigger] unit_stands_at(names_bytes(units, n), units, j, k) by {
            let at = 32 * j + 2 + 2 * k;
            assert(unit_stands_at(init, units, j, k));
            assert(names_bytes(units, n)[at] == init[at]);
            assert(names_bytes(units, n)[at + 1] == init[at + 1]);
        }
    }
}

/// The set that a builder makes is an entry set, and its fields are what the builder holds.
#[verifier::rlimit(60)]
pub proof fn built_set_is_an_entry_set(b: EntrySetBuilder, hash: u16)
    requires
        b.wf(),
    ensures
        ({
            let set = built_set(b, hash);
            &&& is_entry_set(set)
            &&& set.len() == 64 + 32 * name_entry_count(utf16(b.name@).len() as int)
            &&& name_units(set, set[35] as int) == utf16(b.name@)
            &&& from_le16(set.subrange(4, 6)) == b.attributes.bits
            &&& (set[33] / 2 % 2 == 1) == (b.stream_flags() == 0x03)
            &&& from_le16(set.subrange(36, 38)) == hash
            &&& from_le64(set.subrange(40, 48)) == b.valid_data_length
            &&& from_le32(set.subrange(52, 56)) == b.first_cluster
            &&& from_le64(set.subrange(56, 64)) == b.data_length
            &&& ExFatTimestamp::unpacked(from_le32(set.subrange(8, 12)), set[20], set[22])
                == b.created
            &&& ExFatTimestamp::unpacked(from_le32(set.subrange(12, 16)), set[21], set[23])
                == b.modified
        }),
{
    let units = utf16(b.name@);
    let n = name_entry_count(units.len() as int);
    let file = b.file_entry();
    let stream = b.stream_entry(hash);
    let names = names_bytes(units, n);
    let plain = file + stream + names;
    let set = built_set(b, hash);
    names_bytes_at(units, n, 0);
    file_entry_fields(b);
    stream_entry_fields(b, hash);
    checksum_matches(plain);
    assert(set == with_checksum(plain));
    assert(set.len() == 64 + 32 * n);
    assert forall|i: int| 4 <= i < 32 || 0 <= i < 2 implies #[trigger] set[i] == file[i] by {
        assert(set[i] == plain[i]);
    }
    assert forall|i: int| 32 <= i < 64 implies #[trigger] set[i] == stream[i - 32] by {
        assert(set[i] == plain[i]);
    }
    assert forall|i: int| 64 <= i < set.len() implies #[trigger] set[i] == names[i - 64] by {
        assert(set[i] == plain[i]);
    }
    assert forall|i: int| 2 <= i < set.len() / 32 implies #[trigger] set[32 * i] == FILE_NAME by {
        names_bytes_at(units, n, i - 2);
        assert(set[32 * i] == names[32 * (i - 2)]);
    }
    assert(is_entry_set(set));
    assert(name_units(set, set[35] as int) =~= units) by {
        read_back_name(set, units, n);
    }
    assert(set.subrange(4, 6) =~= file.subrange(4, 6));
    assert(set.subrange(8, 12) =~= file.subrange(8, 12));
    assert(set.subrange(12, 16) =~= file.subrange(12, 16));
    assert(set.subrange(36, 38) =~= stream.subrange(4, 6));
    assert(set.subrange(40, 48) =~= stream.subrange(8, 16));
    assert(set.subrange(52, 56) =~= stream.subrange(20, 24));
    assert(set.subrange(56, 64) =~= stream.subrange(24, 32));
    le16_round_trip(b.attributes.bits);
    le16_round_trip(hash);
    le32_round_trip(b.created.packed());
    le32_round_trip(b.modified.packed());
    le32_round_trip(b.first_cluster);
    le64_round_trip(b.valid_data_length);
    le64_round_trip(b.data_length);
    timestamp_round_trip(b.created);
    timestamp_round_trip(b.modified);
}

/// What is read from the set that a builder makes is what the builder holds: name, sizes,
/// first cluster, attributes, hash, times of creation and modification.
pub proof fn built_set_is_read_back(b: EntrySetBuilder, hash: u16, p: ParsedEntrySet)
    requires
        b.wf(),
        parsed_from(p, built_set(b, hash)),
    ensures
        is_entry_set(built_set(b, hash)),
        p.name@ == utf16(b.name@),
        decode_units(p.name@) == b.name@,
        p.attributes == b.attributes,
        p.first_cluster == b.first_cluster,
        p.data_length == b.data_length,
        p.valid_data_length == b.valid_data_length,
        p.no_fat_chain == (b.stream_flags() == 0x03),
        p.name_hash == hash,
        p.created == b.created,
        p.modified == b.modified,
{
    built_set_is_an_entry_set(b, hash);
    utf16_round_trip(b.name@);
}

proof fn read_back_name(set: Seq<u8>, units: Seq<u16>, n: int)
    requires
        n == name_entry_count(units.len() as int),
        set.len() == 64 + 32 * n,
        forall|i: int| 64 <= i < set.len() ==> #[trigger] set[i] == names_bytes(units, n)[i - 64],
    ensures
        name_units(set, units.len() as int) == units,
{
    assert forall|i: int| 0 <= i < units.len() implies name_units(set, units.len() as int)[i]
        == units[i] by {
        let j = i / 15;
        let k = i % 15;
        names_bytes_at(units, n, j);
        let at = 64 + 32 * j + 2 + 2 * k;
        assert(15 * j + k == i);
        assert(unit_stands_at(names_bytes(units, n), units, j, k));
        assert(set[at] == names_bytes(units, n)[32 * j + 2 + 2 * k]);
        assert(set[at + 1] == names_bytes(units, n)[32 * j + 2 + 2 * k + 1]);
    }
    assert(name_units(set, units.len() as int) =~= units);
}

#[verifier::spinoff_prover]
#[verifier::rlimit(60)]
proof fn file_entry_fields(b: EntrySetBuilder)
    ensures
        ({
            let f = b.file_entry();
            &&& f.len() == 32
            &&& f[0] == FILE_DIRECTORY
            &&& f[1] == (1 + name_entry_count(utf16(b.name@).len() as int)) as u8
            &&& f.subrange(4, 6) == le16(b.attributes.bits)
            &&& f.subrange(8, 12) == le32(b.created.packed())
            &&& f.subrange(12, 16) == le32(b.modified.packed())
            &&& f[20] == b.created.increment()
            &&& f[21] == b.modified.increment()
            &&& f[22] == b.created.utc_offset
            &&& f[23] == b.modified.utc_offset
        }),
{
    reveal(EntrySetBuilder::file_entry);
    le16_round_trip(b.attributes.bits);
    le32_round_trip(b.created.packed());
    le32_round_trip(b.modified.packed());
    le32_round_trip(b.accessed.packed());
    file_layout(
        seq![
            FILE_DIRECTORY,
            (1 + name_entry_count(utf16(b.name@).len() as int)) as u8,
            0u8,
            0u8,
        ],
        le16(b.attributes.bits),
        seq![0u8, 0u8],
        le32(b.created.packed()),
        le32(b.modified.packed()),
        le32(b.accessed.packed()),
        seq![
            b.created.increment(),
            b.modified.increment(),
            b.created.utc_offset,
            b.modified.utc_offset,
            b.accessed.utc_offset,
        ],
        Seq::new(7, |i: int| 0u8),
    );
}

proof fn file_layout(
    a: Seq<u8>,
    b: Seq<u8>,
    c: Seq<u8>,
    d: Seq<u8>,
    e: Seq<u8>,
    f: Seq<u8>,
    g: Seq<u8>,
    h: Seq<u8>,
)
    requires
        a.len() == 4,
        b.len() == 2,
        c.len() == 2,
        d.len() == 4,
        e.len() == 4,
        f.len() == 4,
        g.len() == 5,
        h.len() == 7,
    ensures
        ({
            let s = a + b + c + d + e + f + g + h;
            &&& s.len() == 32
            &&& s[0] == a[0]
            &&& s[1] == a[1]
            &&& s.subrange(4, 6) == b
            &&& s.subrange(8, 12) == d
            &&& s.subrange(12, 16) == e
            &&& s[20] == g[0]
            &&& s[21] == g[1]
            &&& s[22] == g[2]
            &&& s[23] == g[3]
        }),
{
    let s = a + b + c + d + e + f + g + h;
    assert(s.subrange(4, 6) =~= b);
    assert(s.subrange(8, 12) =~= d);
    assert(s.subrange(12, 16) =~= e);
}

#[verifier::spinoff_prover]
#[verifier::rlimit(60)]
proof fn stream_entry_fields(b: EntrySetBuilder, hash: u16)
    ensures
        ({
            let s = b.stream_entry(hash);
            &&& s.len() == 32
            &&& s[0] == STREAM_EXTENSION
            &&& s[1] == b.stream_flags()
            &&& s[3] == utf16(b.name@).len() as u8
            &&& s.subrange(4, 6) == le16(hash)
            &&& s.subrange(8, 16) == le64(b.valid_data_length)
            &&& s.subrange(20, 24) == le32(b.first_cluster)
            &&& s.subrange(24, 32) == le64(b.data_length)
        }),
{
    reveal(EntrySetBuilder::stream_entry);
    le16_round_trip(hash);
    le64_round_trip(b.valid_data_length);
    le32_round_trip(b.first_cluster);
    le64_round_trip(b.data_length);
    stream_layout(
        seq![STREAM_EXTENSION, b.stream_flags(), 0u8, utf16(b.name@).len() as u8],
        le16(hash),
        seq![0u8, 0u8],
        le64(b.valid_data_length),
        seq![0u8, 0u8, 0u8, 0u8],
        le32(b.first_cluster),
        le64(b.data_length),
    );
}

proof fn stream_layout(
    a: Seq<u8>,
    b: Seq<u8>,
    c: Seq<u8>,
    d: Seq<u8>,
    e: Seq<u8>,
    f: Seq<u8>,
    g: Seq<u8>,
)
    requires
        a.len() == 4,
        b.len() == 2,
        c.len() == 2,
        d.len() == 8,
        e.len() == 4,
        f.len() == 4,
        g.len() == 8,
    ensures
        ({
            let s = a + b + c + d + e + f + g;
            &&& s.len() == 32
            &&& s[0] == a[0]
            &&& s[1] == a[1]
            &&& s[3] == a[3]
            &&& s.subrange(4, 6) == b
            &&& s.subrange(8, 16) == d
            &&& s.subrange(20, 24) == f
            &&& s.subrange(24, 32) == g
        }),
{
    let s = a + b + c + d + e + f + g;
    assert(s.subrange(4, 6) =~= b);
    assert(s.subrange(8, 16) =~= d);
    assert(s.subrange(20, 24) =~= f);
    assert(s.subrange(24, 32) =~= g);
}

} // verus!
