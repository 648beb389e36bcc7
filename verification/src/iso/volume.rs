//! Volume descriptors.

use crate::bytes::{push_all, push_be16, push_be32, push_le16, push_le32, push_zeros};
#[allow(unused_imports)]
use crate::bytes::{be16, be32, le16, le32};
#[allow(unused_imports)]
use crate::iso::emit::zeros;
use crate::iso::error::{IdentifierField, IsoCreationError};
use crate::iso::layout::encode_directory_record;
#[allow(unused_imports)]
use crate::iso::layout::record_bytes;
use crate::iso::name::to_d_char;
#[allow(unused_imports)]
use crate::iso::name::d_char;
use crate::iso::options::IsoFormatOptions;
use crate::iso::records::PendingRecord;
#[allow(unused_imports)]
use crate::iso::records::{special_record, RecordView};
#[allow(unused_imports)]
use crate::iso::susp::both32;
use crate::iso::susp::{push_both32, SplitSu};
use crate::iso::time::RripTime;
use crate::iso::types::{DirectoryRef, EntryType};
use crate::text::encode_utf16;
#[allow(unused_imports)]
use crate::text::utf16;
use vstd::prelude::*;
#[allow(unused_imports)]
use vstd::utf8::encode_utf8;

verus! {

/// The a-character that stands for `c`: the letters, digits and marks of the set stay,
/// lowercase letters become uppercase, and anything else becomes `_`.
pub open spec fn a_char(c: u8) -> u8 {
    if c == 0x20 || c == 0x21 || c == 0x22 || 0x25 <= c <= 0x2F || 0x3A <= c <= 0x3F {
        c
    } else {
        d_char(c, false)
    }
}

/// An identifier as it is stored: as it is, or brought into the character set of its
/// field.
pub open spec fn stored(s: Seq<char>, strict: bool, a_set: bool) -> Seq<u8> {
    let utf8 = encode_utf8(s);
    if !strict {
        utf8
    } else {
        Seq::new(
            utf8.len(),
            |i: int|
                if a_set {
                    a_char(utf8[i])
                } else {
                    d_char(utf8[i], false)
                },
        )
    }
}

/// Bytes filled up with spaces.
pub open spec fn spaced(s: Seq<u8>, n: int) -> Seq<u8> {
    s + Seq::new((n - s.len()) as nat, |i: int| 0x20u8)
}

/// Code units, most significant byte first.
pub open spec fn be_units(units: Seq<u16>) -> Seq<u8>
    decreases units.len(),
{
    if units.len() == 0 {
        Seq::empty()
    } else {
        be_units(units.drop_last()) + be16(units.last())
    }
}

/// The first `n` UTF-16 code units of a string, filled up with spaces.
pub open spec fn joliet_units(s: Seq<char>, n: int) -> Seq<u16> {
    let units = utf16(s);
    Seq::new(
        n as nat,
        |i: int|
            if i < units.len() {
                units[i]
            } else {
                0x20u16
            },
    )
}

/// A string in a Joliet field of `2 * n` bytes.
pub open spec fn joliet_text(s: Seq<char>, n: int) -> Seq<u8> {
    be_units(joliet_units(s, n))
}

/// The number in both byte orders, least significant byte first, then the other.
pub open spec fn both16(x: u16) -> Seq<u8> {
    le16(x) + be16(x)
}

fn push_both16(out: &mut Vec<u8>, x: u16)
    ensures
        final(out)@ == old(out)@ + both16(x),
{
    push_le16(out, x);
    push_be16(out, x);
    assert(out@ =~= old(out)@ + both16(x));
}

/// The strings of a descriptor, each of its full length.
pub struct Labels {
    /// System identifier.
    pub system: Vec<u8>,
    /// Volume identifier.
    pub volume: Vec<u8>,
    /// Volume set identifier.
    pub volume_set: Vec<u8>,
    /// Publisher identifier.
    pub publisher: Vec<u8>,
    /// Preparer identifier.
    pub preparer: Vec<u8>,
    /// Application identifier.
    pub application: Vec<u8>,
    /// Copyright, abstract and bibliography file identifiers.
    pub files: Vec<u8>,
}

/// The mathematical value of [`Labels`].
pub struct LabelsView {
    /// System identifier.
    pub system: Seq<u8>,
    /// Volume identifier.
    pub volume: Seq<u8>,
    /// Volume set identifier.
    pub volume_set: Seq<u8>,
    /// Publisher identifier.
    pub publisher: Seq<u8>,
    /// Preparer identifier.
    pub preparer: Seq<u8>,
    /// Application identifier.
    pub application: Seq<u8>,
    /// Copyright, abstract and bibliography file identifiers.
    pub files: Seq<u8>,
}

impl LabelsView {
    /// Whether every string has the length of its field.
    pub open spec fn wf(self) -> bool {
        &&& self.system.len() == 32
        &&& self.volume.len() == 32
        &&& self.volume_set.len() == 128
        &&& self.publisher.len() == 128
        &&& self.preparer.len() == 128
        &&& self.application.len() == 128
        &&& self.files.len() == 111
    }
}

impl Labels {
    /// The mathematical value.
    pub open spec fn view(&self) -> LabelsView {
        LabelsView {
            system: self.system@,
            volume: self.volume@,
            volume_set: self.volume_set@,
            publisher: self.publisher@,
            preparer: self.preparer@,
            application: self.application@,
            files: self.files@,
        }
    }
}

/// What a descriptor says of a namespace.
#[derive(Debug, Clone, Copy, PartialEq, Eq, Structural)]
pub struct Location {
    /// The root directory.
    pub root: DirectoryRef,
    /// Bytes of the path table.
    pub path_table_size: u32,
    /// Sector of the path table with the least significant bytes first.
    pub lpt: u32,
    /// Sector of the path table with the most significant bytes first.
    pub mpt: u32,
    /// Sectors of the volume.
    pub volume_space: u32,
}

/// `CD001`
pub open spec fn standard_id() -> Seq<u8> {
    seq![0x43u8, 0x44u8, 0x30u8, 0x30u8, 0x31u8]
}

/// The record of the root directory in a descriptor.
pub open spec fn root_record(root: DirectoryRef) -> Seq<u8> {
    record_bytes(
        RecordView { dir_ref: root, ..special_record(0, Seq::empty(), Seq::empty()) },
        zeros(7),
    )
}

/// A date and time that is not given: sixteen digits zero and a zero.
pub open spec fn no_date() -> Seq<u8> {
    Seq::new(16, |i: int| 0x30u8).push(0)
}

/// A descriptor of a volume: type, `CD001`, version, flags, system and volume, size of the
/// volume, escape sequences, one volume of one, the sector size, path tables, root
/// directory, further strings, four dates, the file structure's version.
#[verifier::opaque]
pub open spec fn volume_bytes(
    kind: u8,
    version: u8,
    escapes: Seq<u8>,
    labels: LabelsView,
    at: Location,
) -> Seq<u8> {
    seq![kind, 0x43u8, 0x44u8, 0x30u8, 0x30u8, 0x31u8, version, 0u8] + labels.system
        + labels.volume + zeros(8) + both32(at.volume_space) + escapes + both16(1) + both16(1)
        + both16(2048) + both32(at.path_table_size) + le32(at.lpt) + zeros(4) + be32(at.mpt)
        + zeros(4) + root_record(at.root) + labels.volume_set + labels.publisher
        + labels.preparer + labels.application + labels.files + no_date() + no_date() + no_date()
        + no_date() + seq![version, 0u8] + zeros(1165)
}

/// The end of the descriptors.
pub open spec fn terminator_bytes() -> Seq<u8> {
    seq![255u8, 0x43u8, 0x44u8, 0x30u8, 0x30u8, 0x31u8, 1u8] + zeros(2041)
}

/// A descriptor fills a sector and starts with its type and `CD001`.
pub proof fn descriptors_fill_sectors(
    kind: u8,
    version: u8,
    escapes: Seq<u8>,
    labels: LabelsView,
    at: Location,
)
    requires
        labels.wf(),
        escapes.len() == 32,
    ensures
        volume_bytes(kind, version, escapes, labels, at).len() == 2048,
        volume_bytes(kind, version, escapes, labels, at)[0] == kind,
        volume_bytes(kind, version, escapes, labels, at).subrange(1, 6) == standard_id(),
{
    reveal(volume_bytes);
    assert(root_record(at.root).len() == 34);
    assert(no_date().len() == 17);
    assert(volume_bytes(kind, version, escapes, labels, at).subrange(1, 6) =~= standard_id());
}

/// Appends the end of the descriptors.
pub fn push_terminator(out: &mut Vec<u8>)
    ensures
        final(out)@ == old(out)@ + terminator_bytes(),
{
    out.push(255);
    out.push(0x43);
    out.push(0x44);
    out.push(0x30);
    out.push(0x30);
    out.push(0x31);
    out.push(1);
    push_zeros(out, 2041);
    assert(out@ =~= old(out)@ + terminator_bytes());
}

fn push_no_date(out: &mut Vec<u8>)
    ensures
        final(out)@ == old(out)@ + no_date(),
{
    let mut i: usize = 0;
    while i < 16
        invariant
            i <= 16,
            out@ == old(out)@ + Seq::new(i as nat, |k: int| 0x30u8),
        decreases 16 - i,
    {
        out.push(0x30);
        i += 1;
        assert(out@ =~= old(out)@ + Seq::new(i as nat, |k: int| 0x30u8));
    }
    out.push(0);
    assert(out@ =~= old(out)@ + no_date());
}

fn encode_root_record(root: DirectoryRef) -> (r: Vec<u8>)
    ensures
        r@ == root_record(root),
{
    let mut record: PendingRecord = PendingRecord::current_dir(SplitSu::empty());
    record.dir_ref = root;
    let time: RripTime = [0, 0, 0, 0, 0, 0, 0];
    assert(time@ =~= zeros(7));
    encode_directory_record(&record, &time)
}

/// The bytes of a descriptor.
pub fn encode_volume(kind: u8, version: u8, escapes: &[u8], labels: &Labels, at: &Location) -> (r:
    Vec<u8>)
    ensures
        r@ == volume_bytes(kind, version, escapes@, labels@, *at),
{
    reveal(volume_bytes);
    let mut out: Vec<u8> = Vec::new();
    out.push(kind);
    out.push(0x43);
    out.push(0x44);
    out.push(0x30);
    out.push(0x30);
    out.push(0x31);
    out.push(version);
    out.push(0);
    assert(out@ =~= seq![kind, 0x43u8, 0x44u8, 0x30u8, 0x30u8, 0x31u8, version, 0u8]);
    push_all(&mut out, labels.system.as_slice());
    push_all(&mut out, labels.volume.as_slice());
    push_zeros(&mut out, 8);
    push_both32(&mut out, at.volume_space);
    push_all(&mut out, escapes);
    push_both16(&mut out, 1);
    push_both16(&mut out, 1);
    push_both16(&mut out, 2048);
    push_both32(&mut out, at.path_table_size);
    push_le32(&mut out, at.lpt);
    push_zeros(&mut out, 4);
    push_be32(&mut out, at.mpt);
    push_zeros(&mut out, 4);
    let root: Vec<u8> = encode_root_record(at.root);
    push_all(&mut out, root.as_slice());
    push_all(&mut out, labels.volume_set.as_slice());
    push_all(&mut out, labels.publisher.as_slice());
    push_all(&mut out, labels.preparer.as_slice());
    push_all(&mut out, labels.application.as_slice());
    push_all(&mut out, labels.files.as_slice());
    push_no_date(&mut out);
    push_no_date(&mut out);
    push_no_date(&mut out);
    push_no_date(&mut out);
    let ghost body = out@;
    out.push(version);
    out.push(0);
    assert(out@ =~= body + seq![version, 0u8]);
    push_zeros(&mut out, 1165);
    out
}

fn to_a_char(c: u8) -> (r: u8)
    ensures
        r == a_char(c),
{
    if c == 0x20 || c == 0x21 || c == 0x22 || (0x25 <= c && c <= 0x2F) || (0x3A <= c && c <= 0x3F) {
        c
    } else {
        to_d_char(c, false)
    }
}

/// An identifier in its field of `n` bytes, or an error where it is longer.
pub open spec fn parsed_text(
    s: Seq<char>,
    strict: bool,
    a_set: bool,
    n: int,
    field: IdentifierField,
) -> Result<Seq<u8>, IsoCreationError> {
    let bytes = stored(s, strict, a_set);
    if bytes.len() > n {
        Err(IsoCreationError::Identifier(field))
    } else {
        Ok(spaced(bytes, n))
    }
}

/// An identifier in its field of `n` bytes, or an error where it is longer.
pub fn parse_iso_str(s: &str, strict: bool, a_set: bool, n: usize, field: IdentifierField) -> (r:
    Result<Vec<u8>, IsoCreationError>)
    ensures
        match parsed_text(s@, strict, a_set, n as int, field) {
            Ok(text) => r matches Ok(v) && v@ == text,
            Err(e) => r == Err::<Vec<u8>, IsoCreationError>(e),
        },
{
    let bytes: &[u8] = s.as_bytes();
    if bytes.len() > n {
        return Err(IsoCreationError::Identifier(field));
    }
    let ghost all = stored(s@, strict, a_set);
    let mut out: Vec<u8> = Vec::new();
    let mut i: usize = 0;
    while i < bytes.len()
        invariant
            i <= bytes@.len(),
            bytes@ == encode_utf8(s@),
            all == stored(s@, strict, a_set),
            out@ == all.take(i as int),
        decreases bytes.len() - i,
    {
        let c: u8 = if !strict {
            bytes[i]
        } else if a_set {
            to_a_char(bytes[i])
        } else {
            to_d_char(bytes[i], false)
        };
        out.push(c);
        i += 1;
        assert(out@ =~= all.take(i as int));
    }
    assert(out@ =~= all);
    fill_spaces(&mut out, n);
    Ok(out)
}

fn fill_spaces(out: &mut Vec<u8>, n: usize)
    requires
        old(out)@.len() <= n,
    ensures
        final(out)@ == spaced(old(out)@, n as int),
{
    let ghost start = out@;
    while out.len() < n
        invariant
            start.len() <= out@.len() <= n,
            out@ == start + Seq::new((out@.len() - start.len()) as nat, |i: int| 0x20u8),
        decreases n - out.len(),
    {
        out.push(0x20);
        assert(out@ =~= start + Seq::new((out@.len() - start.len()) as nat, |i: int| 0x20u8));
    }
}

/// A string in a Joliet field of `2 * n` bytes: its first code units, most significant
/// byte first, filled up with spaces.
pub fn utf16be_str(s: &str, n: usize) -> (r: Vec<u8>)
    ensures
        r@ == joliet_text(s@, n as int),
{
    let units: Vec<u16> = encode_utf16(s);
    let ghost all = joliet_units(s@, n as int);
    let mut out: Vec<u8> = Vec::new();
    let mut i: usize = 0;
    assert(all.take(0) =~= Seq::empty());
    while i < n
        invariant
            i <= n,
            units@ == utf16(s@),
            all == joliet_units(s@, n as int),
            out@ == be_units(all.take(i as int)),
        decreases n - i,
    {
        assert(all.take(i + 1).drop_last() =~= all.take(i as int));
        let unit: u16 = if i < units.len() {
            units[i]
        } else {
            0x20
        };
        push_be16(&mut out, unit);
        i += 1;
    }
    assert(all.take(i as int) =~= all);
    out
}

/// `HADRIS-ISO`, the application where none is given.
pub open spec fn default_application() -> Seq<char> {
    "HADRIS-ISO"@
}

/// What an optional string holds, and otherwise a given text.
pub open spec fn text_or(s: Option<String>, other: Seq<char>) -> Seq<char> {
    match s {
        Some(t) => t@,
        None => other,
    }
}

/// An optional identifier in its field; where it is not given, another text.
pub open spec fn optional_text(
    s: Option<String>,
    other: Seq<char>,
    strict: bool,
    a_set: bool,
    n: int,
    field: IdentifierField,
) -> Result<Seq<u8>, IsoCreationError> {
    match s {
        Some(t) => parsed_text(t@, strict, a_set, n, field),
        None => Ok(spaced(encode_utf8(other), n)),
    }
}

fn parse_optional(
    s: &Option<String>,
    other: &str,
    strict: bool,
    a_set: bool,
    n: usize,
    field: IdentifierField,
) -> (r: Result<Vec<u8>, IsoCreationError>)
    requires
        encode_utf8(other@).len() <= n,
    ensures
        match optional_text(*s, other@, strict, a_set, n as int, field) {
            Ok(text) => r matches Ok(v) && v@ == text,
            Err(e) => r == Err::<Vec<u8>, IsoCreationError>(e),
        },
{
    match s {
        Some(t) => parse_iso_str(t.as_str(), strict, a_set, n, field),
        None => {
            let mut out: Vec<u8> = Vec::new();
            push_all(&mut out, other.as_bytes());
            assert(out@ =~= encode_utf8(other@));
            fill_spaces(&mut out, n);
            Ok(out)
        },
    }
}

/// The strings of the primary descriptor, or the first that does not fit.
pub open spec fn primary_labels(ops: IsoFormatOptions) -> Result<LabelsView, IsoCreationError> {
    let strict = ops.strict_charset;
    match parsed_text(ops.volume_name@, strict, false, 32, IdentifierField::VolumeName) {
        Err(e) => Err(e),
        Ok(volume) => match optional_text(
            ops.system_id,
            Seq::empty(),
            strict,
            true,
            32,
            IdentifierField::System,
        ) {
            Err(e) => Err(e),
            Ok(system) => match optional_text(
                ops.volume_set_id,
                Seq::empty(),
                strict,
                false,
                128,
                IdentifierField::VolumeSet,
            ) {
                Err(e) => Err(e),
                Ok(volume_set) => match optional_text(
                    ops.publisher_id,
                    Seq::empty(),
                    strict,
                    true,
                    128,
                    IdentifierField::Publisher,
                ) {
                    Err(e) => Err(e),
                    Ok(publisher) => match optional_text(
                        ops.preparer_id,
                        Seq::empty(),
                        strict,
                        true,
                        128,
                        IdentifierField::Preparer,
                    ) {
                        Err(e) => Err(e),
                        Ok(preparer) => match optional_text(
                            ops.application_id,
                            default_application(),
                            strict,
                            true,
                            128,
                            IdentifierField::Application,
                        ) {
                            Err(e) => Err(e),
                            Ok(application) => Ok(
                                LabelsView {
                                    system,
                                    volume,
                                    volume_set,
                                    publisher,
                                    preparer,
                                    application,
                                    files: spaced(Seq::empty(), 111),
                                },
                            ),
                        },
                    },
                },
            },
        },
    }
}

/// The strings of the descriptor of the namespace with long names: only the volume's name
/// comes from the options.
pub open spec fn enhanced_labels(ops: IsoFormatOptions) -> Result<LabelsView, IsoCreationError> {
    match parsed_text(ops.volume_name@, ops.strict_charset, false, 32, IdentifierField::VolumeName) {
        Err(e) => Err(e),
        Ok(volume) => Ok(
            LabelsView {
                system: spaced(Seq::empty(), 32),
                volume,
                volume_set: spaced(Seq::empty(), 128),
                publisher: spaced(Seq::empty(), 128),
                preparer: spaced(Seq::empty(), 128),
                application: spaced(encode_utf8(default_application()), 128),
                files: spaced(Seq::empty(), 111),
            },
        ),
    }
}

/// The strings of the Joliet descriptor.
pub open spec fn joliet_labels(ops: IsoFormatOptions) -> LabelsView {
    LabelsView {
        system: joliet_text(text_or(ops.system_id, Seq::empty()), 16),
        volume: joliet_text(ops.volume_name@, 16),
        volume_set: joliet_text(text_or(ops.volume_set_id, Seq::empty()), 64),
        publisher: joliet_text(text_or(ops.publisher_id, Seq::empty()), 64),
        preparer: joliet_text(text_or(ops.preparer_id, Seq::empty()), 64),
        application: joliet_text(text_or(ops.application_id, default_application()), 64),
        files: joliet_text(Seq::empty(), 55).push(0),
    }
}

fn empty_text(n: usize) -> (r: Vec<u8>)
    ensures
        r@ == spaced(Seq::empty(), n as int),
{
    let mut out: Vec<u8> = Vec::new();
    fill_spaces(&mut out, n);
    assert(out@ =~= spaced(Seq::empty(), n as int));
    out
}

proof fn default_text_fits()
    ensures
        encode_utf8(""@) == Seq::<u8>::empty(),
        ""@ == Seq::<char>::empty(),
        encode_utf8(default_application()).len() == 10,
{
    reveal_strlit("");
    reveal_strlit("HADRIS-ISO");
    assert(""@ =~= Seq::<char>::empty());
    vstd::utf8::is_ascii_chars_encode_utf8(""@);
    vstd::utf8::is_ascii_chars_encode_utf8("HADRIS-ISO"@);
    assert(encode_utf8(""@) =~= Seq::<u8>::empty());
}

/// The strings of the primary descriptor.
pub fn make_primary_labels(ops: &IsoFormatOptions) -> (r: Result<Labels, IsoCreationError>)
    ensures
        match primary_labels(*ops) {
            Ok(labels) => r matches Ok(v) && v@ == labels,
            Err(e) => r == Err::<Labels, IsoCreationError>(e),
        },
{
    proof {
        default_text_fits();
    }
    let strict: bool = ops.strict_charset;
    let volume: Vec<u8> = match parse_iso_str(
        ops.volume_name.as_str(),
        strict,
        false,
        32,
        IdentifierField::VolumeName,
    ) {
        Ok(v) => v,
        Err(e) => {
            return Err(e);
        },
    };
    let system: Vec<u8> = match parse_optional(
        &ops.system_id,
        "",
        strict,
        true,
        32,
        IdentifierField::System,
    ) {
        Ok(v) => v,
        Err(e) => {
            return Err(e);
        },
    };
    let volume_set: Vec<u8> = match parse_optional(
        &ops.volume_set_id,
        "",
        strict,
        false,
        128,
        IdentifierField::VolumeSet,
    ) {
        Ok(v) => v,
        Err(e) => {
            return Err(e);
        },
    };
    let publisher: Vec<u8> = match parse_optional(
        &ops.publisher_id,
        "",
        strict,
        true,
        128,
        IdentifierField::Publisher,
    ) {
        Ok(v) => v,
        Err(e) => {
            return Err(e);
        },
    };
    let preparer: Vec<u8> = match parse_optional(
        &ops.preparer_id,
        "",
        strict,
        true,
        128,
        IdentifierField::Preparer,
    ) {
        Ok(v) => v,
        Err(e) => {
            return Err(e);
        },
    };
    let application: Vec<u8> = match parse_optional(
        &ops.application_id,
        "HADRIS-ISO",
        strict,
        true,
        128,
        IdentifierField::Application,
    ) {
        Ok(v) => v,
        Err(e) => {
            return Err(e);
        },
    };
    Ok(
        Labels {
            system,
            volume,
            volume_set,
            publisher,
            preparer,
            application,
            files: empty_text(111),
        },
    )
}

/// The strings of the descriptor of the namespace with long names.
pub fn make_enhanced_labels(ops: &IsoFormatOptions) -> (r: Result<Labels, IsoCreationError>)
    ensures
        match enhanced_labels(*ops) {
            Ok(labels) => r matches Ok(v) && v@ == labels,
            Err(e) => r == Err::<Labels, IsoCreationError>(e),
        },
{
    proof {
        default_text_fits();
    }
    match parse_iso_str(
        ops.volume_name.as_str(),
        ops.strict_charset,
        false,
        32,
        IdentifierField::VolumeName,
    ) {
        Err(e) => Err(e),
        Ok(volume) => {
            let mut application: Vec<u8> = Vec::new();
            push_all(&mut application, "HADRIS-ISO".as_bytes());
            assert(application@ =~= encode_utf8(default_application()));
            fill_spaces(&mut application, 128);
            Ok(
                Labels {
                    system: empty_text(32),
                    volume,
                    volume_set: empty_text(128),
                    publisher: empty_text(128),
                    preparer: empty_text(128),
                    application,
                    files: empty_text(111),
                },
            )
        },
    }
}

fn joliet_optional(s: &Option<String>, other: &str, n: usize) -> (r: Vec<u8>)
    ensures
        r@ == joliet_text(text_or(*s, other@), n as int),
{
    match s {
        Some(t) => utf16be_str(t.as_str(), n),
        None => utf16be_str(other, n),
    }
}

/// The strings of the Joliet descriptor.
pub fn make_joliet_labels(ops: &IsoFormatOptions) -> (r: Labels)
    ensures
        r@ == joliet_labels(*ops),
{
    proof {
        default_text_fits();
    }
    let mut files: Vec<u8> = utf16be_str("", 55);
    files.push(0);
    Labels {
        system: joliet_optional(&ops.system_id, "", 16),
        volume: utf16be_str(ops.volume_name.as_str(), 16),
        volume_set: joliet_optional(&ops.volume_set_id, "", 64),
        publisher: joliet_optional(&ops.publisher_id, "", 64),
        preparer: joliet_optional(&ops.preparer_id, "", 64),
        application: joliet_optional(&ops.application_id, "HADRIS-ISO", 64),
        files,
    }
}

/// The descriptor of a namespace.
pub open spec fn namespace_descriptor(ops: IsoFormatOptions, ty: EntryType, at: Location) -> Result<
    Seq<u8>,
    IsoCreationError,
> {
    match ty {
        EntryType::Level3 { .. } => match enhanced_labels(ops) {
            Err(e) => Err(e),
            Ok(labels) => Ok(volume_bytes(2, 2, spaced(Seq::empty(), 32), labels, at)),
        },
        EntryType::Joliet { level, .. } => Ok(
            volume_bytes(2, 1, level.escape_seq(), joliet_labels(ops), at),
        ),
        _ => match primary_labels(ops) {
            Err(e) => Err(e),
            Ok(labels) => Ok(volume_bytes(1, 1, zeros(32), labels, at)),
        },
    }
}

/// The descriptor of a namespace.
pub fn create_volume_descriptor(ops: &IsoFormatOptions, ty: EntryType, at: &Location) -> (r: Result<
    Vec<u8>,
    IsoCreationError,
>)
    ensures
        match namespace_descriptor(*ops, ty, *at) {
            Ok(bytes) => r matches Ok(v) && v@ == bytes,
            Err(e) => r == Err::<Vec<u8>, IsoCreationError>(e),
        },
{
    match ty {
        EntryType::Level3 { .. } => match make_enhanced_labels(ops) {
            Err(e) => Err(e),
            Ok(labels) => {
                let escapes: Vec<u8> = empty_text(32);
                Ok(encode_volume(2, 2, escapes.as_slice(), &labels, at))
            },
        },
        EntryType::Joliet { level, .. } => {
            let labels: Labels = make_joliet_labels(ops);
            let escapes: Vec<u8> = level.escape_sequence();
            Ok(encode_volume(2, 1, escapes.as_slice(), &labels, at))
        },
        _ => match make_primary_labels(ops) {
            Err(e) => Err(e),
            Ok(labels) => {
                let mut escapes: Vec<u8> = Vec::new();
                push_zeros(&mut escapes, 32);
                assert(escapes@ =~= zeros(32));
                Ok(encode_volume(1, 1, escapes.as_slice(), &labels, at))
            },
        },
    }
}

proof fn be_units_len(units: Seq<u16>)
    ensures
        be_units(units).len() == 2 * units.len(),
    decreases units.len(),
{
    if units.len() > 0 {
        be_units_len(units.drop_last());
    }
}

/// The descriptor of every namespace fills a sector, and starts with its type and
/// `CD001`.
pub proof fn namespace_descriptors_fill_sectors(ops: IsoFormatOptions, ty: EntryType, at: Location)
    requires
        namespace_descriptor(ops, ty, at) is Ok,
    ensures
        ({
            let d = namespace_descriptor(ops, ty, at)->Ok_0;
            &&& d.len() == 2048
            &&& d[0] == (if ty is Level1 || ty is Level2 {
                1u8
            } else {
                2u8
            })
            &&& d.subrange(1, 6) == standard_id()
        }),
{
    let labels = match ty {
        EntryType::Level3 { .. } => enhanced_labels(ops)->Ok_0,
        EntryType::Joliet { .. } => joliet_labels(ops),
        _ => primary_labels(ops)->Ok_0,
    };
    let (kind, version, escapes) = match ty {
        EntryType::Level3 { .. } => (2u8, 2u8, spaced(Seq::empty(), 32)),
        EntryType::Joliet { level, .. } => (2u8, 1u8, level.escape_seq()),
        _ => (1u8, 1u8, zeros(32)),
    };
    match ty {
        EntryType::Level3 { .. } => {
            default_text_fits();
        },
        EntryType::Joliet { .. } => {
            joliet_labels_fit(ops);
        },
        _ => {
            default_text_fits();
        },
    }
    assert(labels.wf());
    descriptors_fill_sectors(kind, version, escapes, labels, at);
}

proof fn joliet_labels_fit(ops: IsoFormatOptions)
    ensures
        joliet_labels(ops).wf(),
{
    be_units_len(joliet_units(text_or(ops.system_id, Seq::empty()), 16));
    be_units_len(joliet_units(ops.volume_name@, 16));
    be_units_len(joliet_units(text_or(ops.volume_set_id, Seq::empty()), 64));
    be_units_len(joliet_units(text_or(ops.publisher_id, Seq::empty()), 64));
    be_units_len(joliet_units(text_or(ops.preparer_id, Seq::empty()), 64));
    be_units_len(joliet_units(text_or(ops.application_id, default_application()), 64));
    be_units_len(joliet_units(Seq::empty(), 55));
}

} // verus!
