//! Reading System Use fields.

use crate::bytes::{copy_range, get_le32};
#[allow(unused_imports)]
use crate::bytes::from_le32;
use vstd::prelude::*;

verus! {

/// Whether the flag of the given weight is set.
pub open spec fn has_bit(bits: u8, weight: int) -> bool {
    (bits as int / weight) % 2 == 1
}

/// Flags of a part of an alternate name.
#[derive(Debug, Clone, Copy, PartialEq, Eq, Structural)]
pub struct NmFlags {
    /// The flags byte.
    pub bits: u8,
}

impl NmFlags {
    /// No flag.
    pub fn empty() -> (r: Self)
        ensures
            r.bits == 0,
    {
        NmFlags { bits: 0 }
    }

    /// The name goes on in the next field.
    pub fn continued() -> (r: Self)
        ensures
            r.bits == 1,
    {
        NmFlags { bits: 1 }
    }

    /// The name is that of the directory itself.
    pub fn current() -> (r: Self)
        ensures
            r.bits == 2,
    {
        NmFlags { bits: 2 }
    }

    /// The name is that of the parent.
    pub fn parent() -> (r: Self)
        ensures
            r.bits == 4,
    {
        NmFlags { bits: 4 }
    }

    /// Whether no flag is set.
    pub fn is_empty(self) -> (r: bool)
        ensures
            r == (self.bits == 0),
    {
        self.bits == 0
    }
}

/// NM: a part of an alternate name.
#[derive(Debug, Clone)]
pub struct NmEntry {
    /// Flags.
    pub flags: NmFlags,
    /// The part.
    pub name: Vec<u8>,
}

/// Flags of a component of a link target.
#[derive(Debug, Clone, Copy, PartialEq, Eq, Structural)]
pub struct SlComponentFlags {
    /// The flags byte.
    pub bits: u8,
}

impl SlComponentFlags {
    /// No flag.
    pub fn empty() -> (r: Self)
        ensures
            r.bits == 0,
    {
        SlComponentFlags { bits: 0 }
    }

    /// The component goes on in the next record.
    pub fn continued() -> (r: Self)
        ensures
            r.bits == 1,
    {
        SlComponentFlags { bits: 1 }
    }

    /// The component is `.`.
    pub fn current() -> (r: Self)
        ensures
            r.bits == 2,
    {
        SlComponentFlags { bits: 2 }
    }

    /// The component is `..`.
    pub fn parent() -> (r: Self)
        ensures
            r.bits == 4,
    {
        SlComponentFlags { bits: 4 }
    }

    /// The component is the root.
    pub fn root() -> (r: Self)
        ensures
            r.bits == 8,
    {
        SlComponentFlags { bits: 8 }
    }
}

/// A component record of a link target.
#[derive(Debug, Clone)]
pub struct SlComponent {
    /// Flags.
    pub flags: SlComponentFlags,
    /// The component's text.
    pub content: Vec<u8>,
}

/// SL: component records of a link target.
#[derive(Debug, Clone)]
pub struct SlEntry {
    /// Whether more fields follow: 1, else 0.
    pub flags: u8,
    /// The records.
    pub components: Vec<SlComponent>,
}

/// Flags of timestamps.
#[derive(Debug, Clone, Copy, PartialEq, Eq, Structural)]
pub struct TfFlags {
    /// The flags byte.
    pub bits: u8,
}

impl TfFlags {
    /// No flag.
    pub fn empty() -> (r: Self)
        ensures
            r.bits == 0,
    {
        TfFlags { bits: 0 }
    }

    /// There is a creation time.
    pub fn creation() -> (r: Self)
        ensures
            r.bits == 0x01,
    {
        TfFlags { bits: 0x01 }
    }

    /// There is a modification time.
    pub fn modify() -> (r: Self)
        ensures
            r.bits == 0x02,
    {
        TfFlags { bits: 0x02 }
    }

    /// There is an access time.
    pub fn access() -> (r: Self)
        ensures
            r.bits == 0x04,
    {
        TfFlags { bits: 0x04 }
    }

    /// Times are written in digits.
    pub fn long_form() -> (r: Self)
        ensures
            r.bits == 0x80,
    {
        TfFlags { bits: 0x80 }
    }

    /// The flags of both.
    pub fn union(self, other: TfFlags) -> (r: Self)
        ensures
            r.bits == self.bits | other.bits,
    {
        TfFlags { bits: self.bits | other.bits }
    }
}

/// TF: timestamps.
#[derive(Debug, Clone)]
pub struct TfEntry {
    /// Which timestamps there are, and in what form.
    pub flags: TfFlags,
    /// The timestamps, one after the other.
    pub timestamps: Vec<u8>,
}

/// PX: POSIX attributes.
#[derive(Debug, Clone, Copy, PartialEq, Eq, Structural)]
pub struct PxEntry {
    /// Type and permissions.
    pub file_mode: u32,
    /// Links.
    pub file_links: u32,
    /// Owner.
    pub file_uid: u32,
    /// Group.
    pub file_gid: u32,
    /// Serial number, which older images lack.
    pub file_serial: Option<u32>,
}

/// CE: where a continuation area lies.
#[derive(Debug, Clone, Copy, PartialEq, Eq, Structural)]
pub struct CeEntry {
    /// Sector.
    pub sector: u32,
    /// Byte in the sector.
    pub offset: u32,
    /// Bytes in the area.
    pub length: u32,
}

/// PN: the two halves of a device number.
#[derive(Debug, Clone, Copy, PartialEq, Eq, Structural)]
pub struct PnEntry {
    /// The high half.
    pub high: u32,
    /// The low half.
    pub low: u32,
}

/// What every field starts with.
#[derive(Debug, Clone, Copy)]
pub struct SuspHeader {
    /// Signature.
    pub sig: [u8; 2],
    /// Bytes of the field with the header.
    pub length: u8,
    /// Version.
    pub version: u8,
}

/// A System Use field.
#[derive(Debug, Clone)]
pub enum SystemUseField {
    /// SP: how many bytes to skip in other records.
    SuspIdentifier {
        /// The bytes.
        bytes_skipped: u8,
    },
    /// CE.
    ContinuationArea(CeEntry),
    /// PX.
    PosixAttributes(PxEntry),
    /// NM.
    AlternateName(NmEntry),
    /// SL.
    SymbolicLink(SlEntry),
    /// TF.
    Timestamps(TfEntry),
    /// PN.
    DeviceNumber(PnEntry),
    /// CL: where the relocated child lies.
    ChildLink(u32),
    /// PL: where the logical parent lies.
    ParentLink(u32),
    /// RE.
    Relocated,
    /// ES: the extension that the following fields belong to.
    ExtensionSelector {
        /// Its number in the order of announcements.
        extension_sequence: u8,
    },
    /// Any other field, or one that is too short for its signature.
    Unknown(SuspHeader, Vec<u8>),
}

/// The mathematical value of a [`SlComponent`].
pub struct ComponentView {
    /// Flags byte.
    pub flags: u8,
    /// The component's text.
    pub content: Seq<u8>,
}

/// The mathematical value of a [`SystemUseField`].
pub enum FieldView {
    /// SP.
    Identifier(u8),
    /// CE.
    Continuation(CeEntry),
    /// PX.
    Posix(PxEntry),
    /// NM: flags and part.
    Name(u8, Seq<u8>),
    /// SL: flags and component records.
    Link(u8, Seq<ComponentView>),
    /// TF: flags and timestamps.
    Times(u8, Seq<u8>),
    /// PN.
    Device(PnEntry),
    /// CL.
    Child(u32),
    /// PL.
    Parent(u32),
    /// RE.
    Relocated,
    /// ES.
    Selector(u8),
    /// Anything else: signature, length, version and payload.
    Other(Seq<u8>, u8, u8, Seq<u8>),
}

/// The values of component records.
pub open spec fn component_views(s: Seq<SlComponent>) -> Seq<ComponentView> {
    Seq::new(s.len(), |i: int| ComponentView { flags: s[i].flags.bits, content: s[i].content@ })
}

impl SystemUseField {
    /// The mathematical value.
    pub open spec fn view(&self) -> FieldView {
        match self {
            SystemUseField::SuspIdentifier { bytes_skipped } => FieldView::Identifier(
                *bytes_skipped,
            ),
            SystemUseField::ContinuationArea(e) => FieldView::Continuation(*e),
            SystemUseField::PosixAttributes(e) => FieldView::Posix(*e),
            SystemUseField::AlternateName(e) => FieldView::Name(e.flags.bits, e.name@),
            SystemUseField::SymbolicLink(e) => FieldView::Link(
                e.flags,
                component_views(e.components@),
            ),
            SystemUseField::Timestamps(e) => FieldView::Times(e.flags.bits, e.timestamps@),
            SystemUseField::DeviceNumber(e) => FieldView::Device(*e),
            SystemUseField::ChildLink(sector) => FieldView::Child(*sector),
            SystemUseField::ParentLink(sector) => FieldView::Parent(*sector),
            SystemUseField::Relocated => FieldView::Relocated,
            SystemUseField::ExtensionSelector { extension_sequence } => FieldView::Selector(
                *extension_sequence,
            ),
            SystemUseField::Unknown(header, payload) => FieldView::Other(
                header.sig@,
                header.length,
                header.version,
                payload@,
            ),
        }
    }
}

/// The values of fields.
pub open spec fn field_views(s: Seq<SystemUseField>) -> Seq<FieldView> {
    Seq::new(s.len(), |i: int| s[i].view())
}

/// The component records in an area, up to one that is cut off.
pub open spec fn components_in(area: Seq<u8>) -> Seq<ComponentView>
    decreases area.len(),
{
    if area.len() < 2 || 2 + area[1] > area.len() {
        Seq::empty()
    } else {
        let end = 2 + area[1] as int;
        seq![ComponentView { flags: area[0], content: area.subrange(2, end) }] + components_in(
            area.skip(end),
        )
    }
}

/// The number at byte `at` of a payload that holds it in both byte orders.
pub open spec fn number_at(payload: Seq<u8>, at: int) -> u32 {
    from_le32(payload.subrange(at, at + 4))
}

/// What a field with the given signature, version and payload says.
#[verifier::opaque]
pub open spec fn field_of(a: u8, b: u8, length: u8, version: u8, payload: Seq<u8>) -> FieldView {
    let n = payload.len();
    if a == 0x53 && b == 0x50 && n >= 3 && payload[0] == 0xBE && payload[1] == 0xEF {
        FieldView::Identifier(payload[2])
    } else if a == 0x43 && b == 0x45 && n >= 24 {
        FieldView::Continuation(
            CeEntry {
                sector: number_at(payload, 0),
                offset: number_at(payload, 8),
                length: number_at(payload, 16),
            },
        )
    } else if a == 0x50 && b == 0x58 && n >= 32 {
        FieldView::Posix(
            PxEntry {
                file_mode: number_at(payload, 0),
                file_links: number_at(payload, 8),
                file_uid: number_at(payload, 16),
                file_gid: number_at(payload, 24),
                file_serial: if n >= 40 {
                    Some(number_at(payload, 32))
                } else {
                    None
                },
            },
        )
    } else if a == 0x4E && b == 0x4D && n >= 1 {
        FieldView::Name(payload[0], payload.skip(1))
    } else if a == 0x53 && b == 0x4C && n >= 1 {
        FieldView::Link(payload[0], components_in(payload.skip(1)))
    } else if a == 0x54 && b == 0x46 && n >= 1 {
        FieldView::Times(payload[0], payload.skip(1))
    } else if a == 0x50 && b == 0x4E && n >= 16 {
        FieldView::Device(PnEntry { high: number_at(payload, 0), low: number_at(payload, 8) })
    } else if a == 0x43 && b == 0x4C && n >= 8 {
        FieldView::Child(number_at(payload, 0))
    } else if a == 0x50 && b == 0x4C && n >= 8 {
        FieldView::Parent(number_at(payload, 0))
    } else if a == 0x52 && b == 0x45 {
        FieldView::Relocated
    } else if a == 0x45 && b == 0x53 && n >= 1 {
        FieldView::Selector(payload[0])
    } else {
        FieldView::Other(seq![a, b], length, version, payload)
    }
}

/// Whether a signature ends the area: ST.
pub open spec fn is_terminator(a: u8, b: u8) -> bool {
    a == 0x53 && b == 0x54
}

/// The field at byte `at` of an area and the byte behind it. There is none where the area
/// ends, where a field is cut off or ends the area.
pub open spec fn next_field(data: Seq<u8>, at: int) -> Option<(FieldView, int)> {
    if at + 4 > data.len() || data[at + 2] < 4 || at + data[at + 2] > data.len() || is_terminator(
        data[at],
        data[at + 1],
    ) {
        None
    } else {
        let end = at + data[at + 2];
        Some(
            (
                field_of(
                    data[at],
                    data[at + 1],
                    data[at + 2],
                    data[at + 3],
                    data.subrange(at + 4, end),
                ),
                end,
            ),
        )
    }
}

/// The fields of an area from byte `at` on.
pub open spec fn fields_from(data: Seq<u8>, at: int) -> Seq<FieldView>
    decreases data.len() - at,
{
    match next_field(data, at) {
        None => Seq::empty(),
        Some((field, end)) => seq![field] + fields_from(data, end),
    }
}

fn read_components(area: &[u8], from: usize) -> (r: Vec<SlComponent>)
    requires
        from <= area.len(),
    ensures
        component_views(r@) == components_in(area@.skip(from as int)),
{
    let mut r: Vec<SlComponent> = Vec::new();
    let mut at: usize = from;
    assert(component_views(r@) =~= Seq::empty());
    assert(component_views(r@) + components_in(area@.skip(at as int)) =~= components_in(
        area@.skip(from as int),
    ));
    while area.len() - at >= 2 && area.len() - at - 2 >= area[at + 1] as usize
        invariant
            from <= at <= area.len(),
            component_views(r@) + components_in(area@.skip(at as int)) == components_in(
                area@.skip(from as int),
            ),
        decreases area.len() - at,
    {
        let end: usize = at + 2 + area[at + 1] as usize;
        let content: Vec<u8> = copy_range(area, at + 2, end);
        let ghost before = component_views(r@);
        let ghost rest = area@.skip(at as int);
        let ghost own = ComponentView { flags: area@[at as int], content: content@ };
        proof {
            assert(rest[1] == area@[at + 1]);
            assert(rest.subrange(2, end - at) =~= content@);
            assert(rest.skip(end - at) =~= area@.skip(end as int));
            assert(components_in(rest) == seq![own] + components_in(area@.skip(end as int)));
        }
        r.push(SlComponent { flags: SlComponentFlags { bits: area[at] }, content });
        at = end;
        proof {
            assert(component_views(r@) =~= before.push(own));
            assert(before + (seq![own] + components_in(area@.skip(end as int))) =~= before.push(own)
                + components_in(area@.skip(end as int)));
        }
    }
    proof {
        let rest = area@.skip(at as int);
        if rest.len() >= 2 {
            assert(rest[1] == area@[at + 1]);
        }
        assert(components_in(rest) =~= Seq::empty());
        assert(component_views(r@) + Seq::empty() =~= component_views(r@));
    }
    r
}

fn read_field(data: &[u8], at: usize, end: usize) -> (r: SystemUseField)
    requires
        at + 4 <= end <= data.len(),
        end - at == data@[at + 2],
    ensures
        r@ == field_of(
            data@[at as int],
            data@[at + 1],
            data@[at + 2],
            data@[at + 3],
            data@.subrange(at + 4, end as int),
        ),
{
    reveal(field_of);
    let a: u8 = data[at];
    let b: u8 = data[at + 1];
    let n: usize = end - at - 4;
    let p: usize = at + 4;
    let ghost payload = data@.subrange(p as int, end as int);
    proof {
        assert(n >= 4 ==> payload.subrange(0, 4) =~= data@.subrange(p as int, p + 4));
        assert(n >= 12 ==> payload.subrange(8, 12) =~= data@.subrange(p + 8, p + 12));
        assert(n >= 20 ==> payload.subrange(16, 20) =~= data@.subrange(p + 16, p + 20));
        assert(n >= 28 ==> payload.subrange(24, 28) =~= data@.subrange(p + 24, p + 28));
        assert(n >= 36 ==> payload.subrange(32, 36) =~= data@.subrange(p + 32, p + 36));
        assert(n >= 1 ==> payload.skip(1) =~= data@.subrange(p + 1, end as int));
    }
    if a == 0x53 && b == 0x50 && n >= 3 && data[p] == 0xBE && data[p + 1] == 0xEF {
        SystemUseField::SuspIdentifier { bytes_skipped: data[p + 2] }
    } else if a == 0x43 && b == 0x45 && n >= 24 {
        SystemUseField::ContinuationArea(
            CeEntry {
                sector: get_le32(data, p),
                offset: get_le32(data, p + 8),
                length: get_le32(data, p + 16),
            },
        )
    } else if a == 0x50 && b == 0x58 && n >= 32 {
        let file_serial: Option<u32> = if n >= 40 {
            Some(get_le32(data, p + 32))
        } else {
            None
        };
        SystemUseField::PosixAttributes(
            PxEntry {
                file_mode: get_le32(data, p),
                file_links: get_le32(data, p + 8),
                file_uid: get_le32(data, p + 16),
                file_gid: get_le32(data, p + 24),
                file_serial,
            },
        )
    } else if a == 0x4E && b == 0x4D && n >= 1 {
        SystemUseField::AlternateName(
            NmEntry { flags: NmFlags { bits: data[p] }, name: copy_range(data, p + 1, end) },
        )
    } else if a == 0x53 && b == 0x4C && n >= 1 {
        let area: Vec<u8> = copy_range(data, p + 1, end);
        assert(area@.skip(0) =~= area@);
        SystemUseField::SymbolicLink(
            SlEntry { flags: data[p], components: read_components(area.as_slice(), 0) },
        )
    } else if a == 0x54 && b == 0x46 && n >= 1 {
        SystemUseField::Timestamps(
            TfEntry { flags: TfFlags { bits: data[p] }, timestamps: copy_range(data, p + 1, end) },
        )
    } else if a == 0x50 && b == 0x4E && n >= 16 {
        SystemUseField::DeviceNumber(
            PnEntry { high: get_le32(data, p), low: get_le32(data, p + 8) },
        )
    } else if a == 0x43 && b == 0x4C && n >= 8 {
        SystemUseField::ChildLink(get_le32(data, p))
    } else if a == 0x50 && b == 0x4C && n >= 8 {
        SystemUseField::ParentLink(get_le32(data, p))
    } else if a == 0x52 && b == 0x45 {
        SystemUseField::Relocated
    } else if a == 0x45 && b == 0x53 && n >= 1 {
        SystemUseField::ExtensionSelector { extension_sequence: data[p] }
    } else {
        let sig: [u8; 2] = [a, b];
        assert(sig@ =~= seq![a, b]);
        SystemUseField::Unknown(
            SuspHeader { sig, length: data[at + 2], version: data[at + 3] },
            copy_range(data, p, end),
        )
    }
}

/// Walks the fields of an area.
pub struct SystemUseIter<'a> {
    data: &'a [u8],
    at: usize,
}

impl<'a> SystemUseIter<'a> {
    /// The area.
    pub closed spec fn area(&self) -> Seq<u8> {
        self.data@
    }

    /// The byte where the next field starts.
    pub closed spec fn position(&self) -> int {
        self.at as int
    }

    /// Starts behind the bytes to skip.
    pub fn new(data: &'a [u8], bytes_skipped: usize) -> (r: Self)
        ensures
            r.area() == data@,
            r.position() == bytes_skipped,
    {
        SystemUseIter { data, at: bytes_skipped }
    }

    /// The next field.
    pub fn next(&mut self) -> (r: Option<SystemUseField>)
        ensures
            final(self).area() == old(self).area(),
            match next_field(old(self).area(), old(self).position()) {
                None => r is None && final(self).position() == old(self).position(),
                Some((field, end)) => r is Some && r->Some_0.view() == field
                    && final(self).position() == end,
            },
    {
        let len: usize = self.data.len();
        if self.at > len || len - self.at < 4 {
            return None;
        }
        let at: usize = self.at;
        let n: usize = self.data[at + 2] as usize;
        if n < 4 || n > len - at || (self.data[at] == 0x53 && self.data[at + 1] == 0x54) {
            return None;
        }
        let field: SystemUseField = read_field(self.data, at, at + n);
        self.at = at + n;
        Some(field)
    }
}

/// The fields of an area behind the bytes to skip.
pub fn read_fields(data: &[u8], bytes_skipped: usize) -> (r: Vec<SystemUseField>)
    ensures
        field_views(r@) == fields_from(data@, bytes_skipped as int),
{
    let mut r: Vec<SystemUseField> = Vec::new();
    let mut iter: SystemUseIter = SystemUseIter::new(data, bytes_skipped);
    assert(field_views(r@) =~= Seq::empty());
    assert(field_views(r@) + fields_from(data@, iter.position()) =~= fields_from(
        data@,
        bytes_skipped as int,
    ));
    loop
        invariant
            iter.area() == data@,
            field_views(r@) + fields_from(data@, iter.position()) == fields_from(
                data@,
                bytes_skipped as int,
            ),
        decreases data@.len() - iter.position(),
    {
        let ghost at = iter.position();
        let ghost before = field_views(r@);
        match iter.next() {
            None => {
                proof {
                    assert(fields_from(data@, at) =~= Seq::empty());
                    assert(before + Seq::empty() =~= before);
                }
                return r;
            },
            Some(field) => {
                let ghost own = field.view();
                r.push(field);
                proof {
                    assert(field_views(r@) =~= before.push(own));
                    assert(before + (seq![own] + fields_from(data@, iter.position()))
                        =~= before.push(own) + fields_from(data@, iter.position()));
                }
            },
        }
    }
}

} // verus!
