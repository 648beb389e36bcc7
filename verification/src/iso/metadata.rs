//! What the Rock Ridge fields of a record say together.

use crate::bytes::push_all;
#[allow(unused_imports)]
use crate::iso::system_use::{
    component_views, field_views, has_bit, ComponentView, FieldView, PxEntry, SlComponent,
    SystemUseField, TfEntry,
};
use crate::text::string_from_utf8;
use vstd::prelude::*;
#[allow(unused_imports)]
use vstd::utf8::{decode_utf8, valid_utf8};

verus! {

/// A moment of a timestamp field.
#[derive(Debug, Clone, Copy, PartialEq, Eq, Structural)]
pub struct RripDateTime {
    /// Year.
    pub year: u16,
    /// Month, from 1.
    pub month: u8,
    /// Day of the month, from 1.
    pub day: u8,
    /// Hour.
    pub hour: u8,
    /// Minute.
    pub minute: u8,
    /// Second.
    pub second: u8,
    /// Offset from Greenwich in quarters of an hour, as the byte that stands for it.
    pub gmt_offset: u8,
}

/// The moments of a timestamp field.
#[derive(Debug, Clone, Copy, PartialEq, Eq, Structural)]
pub struct RripTimestamps {
    /// Creation.
    pub creation: Option<RripDateTime>,
    /// Last change of the data.
    pub modify: Option<RripDateTime>,
    /// Last access.
    pub access: Option<RripDateTime>,
}

/// What the fields of a record say together.
#[derive(Debug, Clone)]
pub struct RripMetadata {
    /// The name.
    pub alternate_name: Option<String>,
    /// Where a link leads.
    pub symlink_target: Option<String>,
    /// Mode, links, owner, group and serial number.
    pub posix_attributes: Option<PxEntry>,
    /// Times.
    pub timestamps: Option<RripTimestamps>,
}

/// The bytes that a part of a name stands for.
pub open spec fn name_part(flags: u8, name: Seq<u8>) -> Seq<u8> {
    if has_bit(flags, 2) {
        seq![0x2Eu8]
    } else if has_bit(flags, 4) {
        seq![0x2Eu8, 0x2Eu8]
    } else {
        name
    }
}

/// The bytes of an optional value, none where there is none.
pub open spec fn or_empty<T>(s: Option<Seq<T>>) -> Seq<T> {
    match s {
        Some(x) => x,
        None => Seq::empty(),
    }
}

/// The name that fields give: their parts joined.
pub open spec fn name_of(fields: Seq<FieldView>) -> Option<Seq<u8>>
    decreases fields.len(),
{
    if fields.len() == 0 {
        None
    } else {
        let before = name_of(fields.drop_last());
        match fields.last() {
            FieldView::Name(flags, name) => Some(or_empty(before) + name_part(flags, name)),
            _ => before,
        }
    }
}

/// The component records of all link fields.
pub open spec fn components_of(fields: Seq<FieldView>) -> Option<Seq<ComponentView>>
    decreases fields.len(),
{
    if fields.len() == 0 {
        None
    } else {
        let before = components_of(fields.drop_last());
        match fields.last() {
            FieldView::Link(_, components) => Some(or_empty(before) + components),
            _ => before,
        }
    }
}

/// The text of a component record.
pub open spec fn component_text(c: ComponentView) -> Seq<u8> {
    if has_bit(c.flags, 8) {
        seq![0x2Fu8]
    } else if has_bit(c.flags, 2) {
        seq![0x2Eu8]
    } else if has_bit(c.flags, 4) {
        seq![0x2Eu8, 0x2Eu8]
    } else {
        c.content
    }
}

/// A link target under construction.
pub struct Assembly {
    /// The text so far.
    pub text: Seq<u8>,
    /// Whether the next component follows without a slash.
    pub joined: bool,
}

/// The components joined by slashes: none behind the root or behind a component that goes
/// on in the next record.
pub open spec fn assembled(components: Seq<ComponentView>) -> Assembly
    decreases components.len(),
{
    if components.len() == 0 {
        Assembly { text: Seq::empty(), joined: true }
    } else {
        let before = assembled(components.drop_last());
        let c = components.last();
        let text = if before.joined {
            before.text
        } else {
            before.text.push(0x2F)
        };
        Assembly {
            text: text + component_text(c),
            joined: has_bit(c.flags, 8) || has_bit(c.flags, 1),
        }
    }
}

/// Where a link leads.
pub open spec fn target_of(fields: Seq<FieldView>) -> Option<Seq<u8>> {
    match components_of(fields) {
        Some(components) => Some(assembled(components).text),
        None => None,
    }
}

/// The last POSIX attributes.
pub open spec fn posix_of(fields: Seq<FieldView>) -> Option<PxEntry>
    decreases fields.len(),
{
    if fields.len() == 0 {
        None
    } else {
        match fields.last() {
            FieldView::Posix(px) => Some(px),
            _ => posix_of(fields.drop_last()),
        }
    }
}

/// Whether all bytes are decimal digits.
pub open spec fn all_digits(s: Seq<u8>) -> bool {
    forall|i: int| 0 <= i < s.len() ==> 0x30 <= #[trigger] s[i] <= 0x39
}

/// The number that two digits write.
pub open spec fn two_digits(s: Seq<u8>, at: int) -> int {
    10 * (s[at] - 0x30) + (s[at + 1] - 0x30)
}

/// A moment in seven bytes: year since 1900, month, day, hour, minute, second, offset.
pub open spec fn short_time(s: Seq<u8>) -> RripDateTime {
    RripDateTime {
        year: (1900 + s[0]) as u16,
        month: s[1],
        day: s[2],
        hour: s[3],
        minute: s[4],
        second: s[5],
        gmt_offset: s[6],
    }
}

/// A moment in seventeen bytes: digits of year, month, day, hour, minute, second and
/// hundredths, and the offset. There is none where a digit is missing.
pub open spec fn long_time(s: Seq<u8>) -> Option<RripDateTime> {
    if all_digits(s.take(16)) {
        Some(
            RripDateTime {
                year: (100 * two_digits(s, 0) + two_digits(s, 2)) as u16,
                month: two_digits(s, 4) as u8,
                day: two_digits(s, 6) as u8,
                hour: two_digits(s, 8) as u8,
                minute: two_digits(s, 10) as u8,
                second: two_digits(s, 12) as u8,
                gmt_offset: s[16],
            },
        )
    } else {
        None
    }
}

/// 1 where the flag is set, else 0.
pub open spec fn bit_count(flags: u8, weight: int) -> int {
    if has_bit(flags, weight) {
        1
    } else {
        0
    }
}

/// The moment in place number `slot` of the timestamps, if it is there.
pub open spec fn time_at(flags: u8, bytes: Seq<u8>, slot: int) -> Option<RripDateTime> {
    let len: int = if has_bit(flags, 128) {
        17
    } else {
        7
    };
    let at = slot * len;
    if at + len > bytes.len() {
        None
    } else if has_bit(flags, 128) {
        long_time(bytes.subrange(at, at + len))
    } else {
        Some(short_time(bytes.subrange(at, at + len)))
    }
}

/// The moments of a timestamp field: those that its flags name, in the order of the flags.
pub open spec fn times_in(flags: u8, bytes: Seq<u8>) -> RripTimestamps {
    RripTimestamps {
        creation: if has_bit(flags, 1) {
            time_at(flags, bytes, 0)
        } else {
            None
        },
        modify: if has_bit(flags, 2) {
            time_at(flags, bytes, bit_count(flags, 1))
        } else {
            None
        },
        access: if has_bit(flags, 4) {
            time_at(flags, bytes, bit_count(flags, 1) + bit_count(flags, 2))
        } else {
            None
        },
    }
}

/// The moments of the last timestamp field.
pub open spec fn times_of(fields: Seq<FieldView>) -> Option<RripTimestamps>
    decreases fields.len(),
{
    if fields.len() == 0 {
        None
    } else {
        match fields.last() {
            FieldView::Times(flags, bytes) => Some(times_in(flags, bytes)),
            _ => times_of(fields.drop_last()),
        }
    }
}

/// The text of bytes in UTF-8, if they are that.
pub open spec fn text_of(bytes: Option<Seq<u8>>) -> Option<Seq<char>> {
    match bytes {
        Some(s) if valid_utf8(s) => Some(decode_utf8(s)),
        _ => None,
    }
}

/// The characters of an optional string.
pub open spec fn chars_in(s: Option<String>) -> Option<Seq<char>> {
    match s {
        Some(x) => Some(x@),
        None => None,
    }
}

fn bit(bits: u8, weight: u8) -> (r: bool)
    requires
        weight > 0,
    ensures
        r == has_bit(bits, weight as int),
{
    (bits / weight) % 2 == 1
}

fn read_short(s: &Vec<u8>, at: usize) -> (r: RripDateTime)
    requires
        at + 7 <= s@.len(),
    ensures
        r == short_time(s@.subrange(at as int, at + 7)),
{
    let len: usize = s.len();
    assert(at + 7 <= len);
    RripDateTime {
        year: 1900 + s[at] as u16,
        month: s[at + 1],
        day: s[at + 2],
        hour: s[at + 3],
        minute: s[at + 4],
        second: s[at + 5],
        gmt_offset: s[at + 6],
    }
}

fn read_two(s: &Vec<u8>, at: usize) -> (r: u8)
    requires
        at + 2 <= s@.len(),
        0x30 <= s@[at as int] <= 0x39,
        0x30 <= s@[at + 1] <= 0x39,
    ensures
        r == two_digits(s@, at as int),
        r <= 99,
{
    let len: usize = s.len();
    assert(at + 2 <= len);
    10 * (s[at] - 0x30) + (s[at + 1] - 0x30)
}

fn read_long(s: &Vec<u8>, at: usize) -> (r: Option<RripDateTime>)
    requires
        at + 17 <= s@.len(),
    ensures
        r == long_time(s@.subrange(at as int, at + 17)),
{
    let ghost part = s@.subrange(at as int, at + 17);
    let len: usize = s.len();
    let mut i: usize = 0;
    while i < 16
        invariant
            i <= 16,
            len == s@.len(),
            at + 17 <= len,
            part == s@.subrange(at as int, at + 17),
            all_digits(part.take(i as int)),
        decreases 16 - i,
    {
        let b: u8 = s[at + i];
        assert(part.take(16)[i as int] == b);
        if b < 0x30 || b > 0x39 {
            return None;
        }
        assert forall|k: int| 0 <= k < i + 1 implies 0x30 <= #[trigger] part.take(
            i + 1,
        )[k] <= 0x39 by {
            if k < i {
                assert(part.take(i as int)[k] == part[k]);
            }
        }
        i += 1;
    }
    proof {
        assert forall|k: int| 0 <= k < 16 implies 0x30 <= #[trigger] s@[at + k] <= 0x39 by {
            assert(part.take(16)[k] == s@[at + k]);
        }
        assert(0x30 <= s@[at + 0] <= 0x39 && 0x30 <= s@[at + 1] <= 0x39);
        assert(0x30 <= s@[at + 2] <= 0x39 && 0x30 <= s@[at + 3] <= 0x39);
        assert(0x30 <= s@[at + 4] <= 0x39 && 0x30 <= s@[at + 5] <= 0x39);
        assert(0x30 <= s@[at + 6] <= 0x39 && 0x30 <= s@[at + 7] <= 0x39);
        assert(0x30 <= s@[at + 8] <= 0x39 && 0x30 <= s@[at + 9] <= 0x39);
        assert(0x30 <= s@[at + 10] <= 0x39 && 0x30 <= s@[at + 11] <= 0x39);
        assert(0x30 <= s@[at + 12] <= 0x39 && 0x30 <= s@[at + 13] <= 0x39);
    }
    let century: u16 = read_two(s, at) as u16;
    let in_century: u16 = read_two(s, at + 2) as u16;
    Some(
        RripDateTime {
            year: 100 * century + in_century,
            month: read_two(s, at + 4),
            day: read_two(s, at + 6),
            hour: read_two(s, at + 8),
            minute: read_two(s, at + 10),
            second: read_two(s, at + 12),
            gmt_offset: s[at + 16],
        },
    )
}

fn read_time(flags: u8, s: &Vec<u8>, slot: usize) -> (r: Option<RripDateTime>)
    requires
        slot <= 2,
    ensures
        r == time_at(flags, s@, slot as int),
{
    let len: usize = s.len();
    if bit(flags, 128) {
        if len < slot * 17 + 17 {
            None
        } else {
            read_long(s, slot * 17)
        }
    } else {
        if len < slot * 7 + 7 {
            None
        } else {
            Some(read_short(s, slot * 7))
        }
    }
}

fn read_times(e: &TfEntry) -> (r: RripTimestamps)
    ensures
        r == times_in(e.flags.bits, e.timestamps@),
{
    let flags: u8 = e.flags.bits;
    let first: usize = if bit(flags, 1) {
        1
    } else {
        0
    };
    let second: usize = if bit(flags, 2) {
        first + 1
    } else {
        first
    };
    RripTimestamps {
        creation: if bit(flags, 1) {
            read_time(flags, &e.timestamps, 0)
        } else {
            None
        },
        modify: if bit(flags, 2) {
            read_time(flags, &e.timestamps, first)
        } else {
            None
        },
        access: if bit(flags, 4) {
            read_time(flags, &e.timestamps, second)
        } else {
            None
        },
    }
}

/// Appends component records to a link target.
fn assemble(
    components: &Vec<SlComponent>,
    text: &mut Vec<u8>,
    joined: &mut bool,
    before: Ghost<Seq<ComponentView>>,
)
    requires
        old(text)@ == assembled(before@).text,
        *old(joined) == assembled(before@).joined,
    ensures
        final(text)@ == assembled(before@ + component_views(components@)).text,
        *final(joined) == assembled(before@ + component_views(components@)).joined,
{
    let ghost all = component_views(components@);
    let mut i: usize = 0;
    assert(before@ + all.take(0) =~= before@);
    while i < components.len()
        invariant
            i <= components@.len(),
            all == component_views(components@),
            text@ == assembled(before@ + all.take(i as int)).text,
            *joined == assembled(before@ + all.take(i as int)).joined,
        decreases components.len() - i,
    {
        let c: &SlComponent = &components[i];
        let flags: u8 = c.flags.bits;
        let ghost so_far = before@ + all.take(i as int);
        let ghost more = before@ + all.take(i + 1);
        proof {
            assert(more.drop_last() =~= so_far);
            assert(more.last() == all[i as int]);
        }
        if !*joined {
            text.push(0x2F);
        }
        let ghost start = text@;
        if bit(flags, 8) {
            text.push(0x2F);
            assert(text@ =~= start + seq![0x2Fu8]);
        } else if bit(flags, 2) {
            text.push(0x2E);
            assert(text@ =~= start + seq![0x2Eu8]);
        } else if bit(flags, 4) {
            text.push(0x2E);
            text.push(0x2E);
            assert(text@ =~= start + seq![0x2Eu8, 0x2Eu8]);
        } else {
            push_all(text, c.content.as_slice());
        }
        *joined = bit(flags, 8) || bit(flags, 1);
        i += 1;
    }
    assert(all.take(i as int) =~= all);
}

fn text_from(found: bool, bytes: Vec<u8>) -> (r: Option<String>)
    ensures
        chars_in(r) == text_of(
            if found {
                Some(bytes@)
            } else {
                None
            },
        ),
{
    if found {
        string_from_utf8(bytes)
    } else {
        None
    }
}

impl RripMetadata {
    /// Gathers what the fields of a record say.
    pub fn from_fields(fields: &Vec<SystemUseField>) -> (r: Self)
        ensures
            chars_in(r.alternate_name) == text_of(name_of(field_views(fields@))),
            chars_in(r.symlink_target) == text_of(target_of(field_views(fields@))),
            r.posix_attributes == posix_of(field_views(fields@)),
            r.timestamps == times_of(field_views(fields@)),
    {
        let ghost all = field_views(fields@);
        let mut name: Vec<u8> = Vec::new();
        let mut has_name: bool = false;
        let mut target: Vec<u8> = Vec::new();
        let mut has_target: bool = false;
        let mut joined: bool = true;
        let mut posix: Option<PxEntry> = None;
        let mut times: Option<RripTimestamps> = None;
        let mut i: usize = 0;
        proof {
            assert(all.take(0) =~= Seq::empty());
            assert(name@ =~= Seq::empty());
            assert(target@ =~= Seq::empty());
        }
        while i < fields.len()
            invariant
                i <= fields@.len(),
                all == field_views(fields@),
                has_name == (name_of(all.take(i as int)) is Some),
                name@ == or_empty(name_of(all.take(i as int))),
                has_target == (components_of(all.take(i as int)) is Some),
                target@ == assembled(or_empty(components_of(all.take(i as int)))).text,
                joined == assembled(or_empty(components_of(all.take(i as int)))).joined,
                posix == posix_of(all.take(i as int)),
                times == times_of(all.take(i as int)),
            decreases fields.len() - i,
        {
            proof {
                assert(all.take(i + 1).drop_last() =~= all.take(i as int));
                assert(all.take(i + 1).last() == fields@[i as int].view());
            }
            match &fields[i] {
                SystemUseField::AlternateName(e) => {
                    let flags: u8 = e.flags.bits;
                    let ghost before = name@;
                    if bit(flags, 2) {
                        name.push(0x2E);
                        assert(name@ =~= before + seq![0x2Eu8]);
                    } else if bit(flags, 4) {
                        name.push(0x2E);
                        name.push(0x2E);
                        assert(name@ =~= before + seq![0x2Eu8, 0x2Eu8]);
                    } else {
                        push_all(&mut name, e.name.as_slice());
                    }
                    has_name = true;
                },
                SystemUseField::SymbolicLink(e) => {
                    let ghost before = or_empty(components_of(all.take(i as int)));
                    assemble(&e.components, &mut target, &mut joined, Ghost(before));
                    has_target = true;
                },
                SystemUseField::PosixAttributes(e) => {
                    posix = Some(*e);
                },
                SystemUseField::Timestamps(e) => {
                    times = Some(read_times(e));
                },
                _ => {},
            }
            i += 1;
        }
        proof {
            assert(all.take(i as int) =~= all);
        }
        RripMetadata {
            alternate_name: text_from(has_name, name),
            symlink_target: text_from(has_target, target),
            posix_attributes: posix,
            timestamps: times,
        }
    }
}

} // verus!
