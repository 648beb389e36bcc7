//! What the fields of a record hold, byte by byte.

#[allow(unused_imports)]
use crate::civil::epoch_day;
#[allow(unused_imports)]
use crate::iso::metadata::{
    assembled, component_text, components_of, long_time, name_of, name_part, posix_of, short_time,
    times_in, times_of, RripDateTime,
};
#[allow(unused_imports)]
use crate::iso::read_laws::{entries_are_read_back, fields_read, posix_entry};
#[allow(unused_imports)]
use crate::iso::rrip::{mode_of, posix_fields, rrip_fields, special_fields, RripEntryKind};
#[allow(unused_imports)]
use crate::iso::susp::{
    both32, ce_field, cl_field, er_descriptor, er_field, er_id, er_lengths, er_source, fitting,
    inline_count, nm_field, nm_fields, pl_field, pn_field, px_field, re_field, sl_areas, sl_field,
    sl_fields, sl_name_records, sl_record, sl_records, sl_target_records, sp_field, su_field,
    tf_field,
};
#[allow(unused_imports)]
use crate::iso::system_use::{
    components_in, field_of, fields_from, has_bit, next_field, number_at, CeEntry, ComponentView,
    FieldView, PnEntry,
};
#[allow(unused_imports)]
use crate::iso::time::{rrip_time_of, stored_time_is_the_moment};
#[allow(unused_imports)]
use crate::iso::tree::{InputMetadata, KindView};
#[allow(unused_imports)]
use crate::iso::types::RripOptions;
use vstd::prelude::*;
#[allow(unused_imports)]
use vstd::utf8::encode_utf8;

verus! {

/// Whether eight bytes hold a number twice: low byte first, then high byte first.
pub open spec fn holds_both(s: Seq<u8>, at: int, x: int) -> bool {
    &&& s[at] + 0x100 * s[at + 1] + 0x10000 * s[at + 2] + 0x1000000 * s[at + 3] == x
    &&& s[at + 7] + 0x100 * s[at + 6] + 0x10000 * s[at + 5] + 0x1000000 * s[at + 4] == x
}

/// A number is written twice where both byte orders are asked for.
pub proof fn numbers_stand_in_both_orders(x: u32)
    ensures
        both32(x).len() == 8,
        holds_both(both32(x), 0, x as int),
{
}

proof fn number_in_the_middle(a: Seq<u8>, x: u32, b: Seq<u8>)
    ensures
        (a + both32(x) + b).len() == a.len() + 8 + b.len(),
        holds_both(a + both32(x) + b, a.len() as int, x as int),
{
    let s = a + both32(x) + b;
    let n = a.len() as int;
    numbers_stand_in_both_orders(x);
    assert(s[n] == both32(x)[0] && s[n + 1] == both32(x)[1] && s[n + 2] == both32(x)[2] && s[n + 3]
        == both32(x)[3] && s[n + 4] == both32(x)[4] && s[n + 5] == both32(x)[5] && s[n + 6]
        == both32(x)[6] && s[n + 7] == both32(x)[7]);
}

/// A field is its two letters, its length with these four bytes, the number 1, and what it holds.
pub proof fn fields_begin_with_their_letters(a: u8, b: u8, payload: Seq<u8>)
    requires
        payload.len() <= 251,
    ensures
        ({
            let f = su_field(a, b, payload);
            &&& f.len() == 4 + payload.len()
            &&& f[0] == a
            &&& f[1] == b
            &&& f[2] == f.len()
            &&& f[3] == 1
            &&& f.skip(4) == payload
        }),
{
    assert(su_field(a, b, payload).skip(4) =~= payload);
}

/// The field PX: mode, links, owner, group and serial number, each in both byte orders.
pub proof fn px_fields_have_their_bytes(mode: u32, nlink: u32, uid: u32, gid: u32, inode: u32)
    ensures
        ({
            let f = px_field(mode, nlink, uid, gid, inode);
            &&& f.len() == 44
            &&& f[0] == 'P' as u32 && f[1] == 'X' as u32 && f[2] == 44 && f[3] == 1
            &&& holds_both(f, 4, mode as int)
            &&& holds_both(f, 12, nlink as int)
            &&& holds_both(f, 20, uid as int)
            &&& holds_both(f, 28, gid as int)
            &&& holds_both(f, 36, inode as int)
        }),
{
    let h = seq![0x50u8, 0x58, 44, 1];
    let (a, b, c, d, e) = (both32(mode), both32(nlink), both32(uid), both32(gid), both32(inode));
    let f = px_field(mode, nlink, uid, gid, inode);
    assert(f =~= h + a + (b + c + d + e));
    assert(f =~= (h + a) + b + (c + d + e));
    assert(f =~= (h + a + b) + c + (d + e));
    assert(f =~= (h + a + b + c) + d + e);
    assert(f =~= (h + a + b + c + d) + e + Seq::<u8>::empty());
    number_in_the_middle(h, mode, b + c + d + e);
    number_in_the_middle(h + a, nlink, c + d + e);
    number_in_the_middle(h + a + b, uid, d + e);
    number_in_the_middle(h + a + b + c, gid, e);
    number_in_the_middle(h + a + b + c + d, inode, Seq::empty());
}

/// The fields PN, CL, PL and CE hold their numbers in both byte orders, one behind the other; RE
/// holds nothing.
pub proof fn number_fields_have_their_bytes(x: u32, y: u32, z: u32)
    ensures
        ({
            let f = pn_field(x, y);
            &&& f.len() == 20
            &&& f[0] == 'P' as u32 && f[1] == 'N' as u32 && f[2] == 20 && f[3] == 1
            &&& holds_both(f, 4, x as int)
            &&& holds_both(f, 12, y as int)
        }),
        ({
            let f = cl_field(x);
            &&& f.len() == 12
            &&& f[0] == 'C' as u32 && f[1] == 'L' as u32 && f[2] == 12 && f[3] == 1
            &&& holds_both(f, 4, x as int)
        }),
        ({
            let f = pl_field(x);
            &&& f.len() == 12
            &&& f[0] == 'P' as u32 && f[1] == 'L' as u32 && f[2] == 12 && f[3] == 1
            &&& holds_both(f, 4, x as int)
        }),
        ({
            let f = ce_field(x, y, z);
            &&& f.len() == 28
            &&& f[0] == 'C' as u32 && f[1] == 'E' as u32 && f[2] == 28 && f[3] == 1
            &&& holds_both(f, 4, x as int)
            &&& holds_both(f, 12, y as int)
            &&& holds_both(f, 20, z as int)
        }),
        re_field() == seq!['R' as u8, 'E' as u8, 4u8, 1u8],
{
    let (a, b, c) = (both32(x), both32(y), both32(z));
    let h = seq![0x50u8, 0x4E, 20, 1];
    assert(pn_field(x, y) =~= h + a + b);
    assert(pn_field(x, y) =~= (h + a) + b + Seq::<u8>::empty());
    number_in_the_middle(h, x, b);
    number_in_the_middle(h + a, y, Seq::empty());
    let h = seq![0x43u8, 0x4C, 12, 1];
    assert(cl_field(x) =~= h + a + Seq::<u8>::empty());
    number_in_the_middle(h, x, Seq::empty());
    let h = seq![0x50u8, 0x4C, 12, 1];
    assert(pl_field(x) =~= h + a + Seq::<u8>::empty());
    number_in_the_middle(h, x, Seq::empty());
    let h = seq![0x43u8, 0x45, 28, 1];
    assert(ce_field(x, y, z) =~= h + a + (b + c));
    assert(ce_field(x, y, z) =~= (h + a) + b + c);
    assert(ce_field(x, y, z) =~= (h + a + b) + c + Seq::<u8>::empty());
    number_in_the_middle(h, x, b + c);
    number_in_the_middle(h + a, y, c);
    number_in_the_middle(h + a + b, z, Seq::empty());
    assert(re_field() =~= seq!['R' as u8, 'E' as u8, 4u8, 1u8]);
}

/// The fields SP, NM and SL: two check bytes and how much to pass over, flags and part of a name,
/// flags and components.
pub proof fn text_fields_have_their_bytes(flags: u8, text: Seq<u8>, i: int)
    requires
        text.len() <= 250,
        0 <= i < text.len(),
    ensures
        sp_field(flags) == seq!['S' as u8, 'P' as u8, 7u8, 1u8, 0xBEu8, 0xEFu8, flags],
        ({
            let f = nm_field(flags, text);
            &&& f.len() == 5 + text.len()
            &&& f[0] == 'N' as u32 && f[1] == 'M' as u32 && f[2] == f.len() && f[3] == 1
            &&& f[4] == flags
            &&& f[5 + i] == text[i]
        }),
        ({
            let f = sl_field(flags, text);
            &&& f.len() == 5 + text.len()
            &&& f[0] == 'S' as u32 && f[1] == 'L' as u32 && f[2] == f.len() && f[3] == 1
            &&& f[4] == flags
            &&& f[5 + i] == text[i]
        }),
        ({
            let r = sl_record(flags, text);
            &&& r.len() == 2 + text.len()
            &&& r[0] == flags
            &&& r[1] == text.len()
            &&& r[2 + i] == text[i]
        }),
{
    assert(sp_field(flags) =~= seq!['S' as u8, 'P' as u8, 7u8, 1u8, 0xBEu8, 0xEFu8, flags]);
}

/// The field TF: in its flags bit 0 stands for creation, bit 1 for change and bit 2 for access;
/// the times follow in that order.
pub proof fn tf_fields_have_their_bytes(c: Seq<u8>, m: Seq<u8>, a: Seq<u8>, i: int)
    requires
        c.len() == 7,
        m.len() == 7,
        a.len() == 7,
        0 <= i < 7,
    ensures
        ({
            let f = tf_field(Some(c), m, a);
            &&& f.len() == 26
            &&& f[0] == 'T' as u32 && f[1] == 'F' as u32 && f[2] == 26 && f[3] == 1
            &&& f[4] == 1 + 2 + 4
            &&& f[5 + i] == c[i]
            &&& f[12 + i] == m[i]
            &&& f[19 + i] == a[i]
        }),
        ({
            let f = tf_field(None, m, a);
            &&& f.len() == 19
            &&& f[0] == 'T' as u32 && f[1] == 'F' as u32 && f[2] == 19 && f[3] == 1
            &&& f[4] == 2 + 4
            &&& f[5 + i] == m[i]
            &&& f[12 + i] == a[i]
        }),
{
}

/// The field ER names the extension: the lengths of its three texts, the number 1, and the texts,
/// the first of which is `RRIP_1991A`.
pub proof fn er_fields_have_their_bytes()
    ensures
        ({
            let f = er_field();
            &&& f.len() == 8 + 10 + 84 + 135
            &&& f[0] == 'E' as u32 && f[1] == 'R' as u32 && f[2] == f.len() && f[3] == 1
            &&& f[4] == 10 && f[5] == 84 && f[6] == 135 && f[7] == 1
            &&& f[8] == 'R' as u32 && f[9] == 'R' as u32 && f[10] == 'I' as u32 && f[11]
                == 'P' as u32 && f[12] == '_' as u32 && f[13] == '1' as u32 && f[14] == '9' as u32
                && f[15] == '9' as u32 && f[16] == '1' as u32 && f[17] == 'A' as u32
        }),
{
    er_lengths();
    reveal_strlit("RRIP_1991A");
    vstd::utf8::is_ascii_chars_encode_utf8("RRIP_1991A"@);
    let id = er_id();
    let f = er_field();
    assert(f[8] == id[0] && f[9] == id[1] && f[10] == id[2] && f[11] == id[3] && f[12] == id[4]
        && f[13] == id[5] && f[14] == id[6] && f[15] == id[7] && f[16] == id[8] && f[17] == id[9]);
}

/// The texts of the field ER, one behind the other.
pub proof fn er_fields_have_their_texts()
    ensures
        ({
            let id = encode_utf8("RRIP_1991A"@);
            let descriptor = encode_utf8(
                "THE ROCK RIDGE INTERCHANGE PROTOCOL PROVIDES SUPPORT FOR POSIX FILE SYSTEM SEMANTICS"@,
            );
            let source = encode_utf8(
                "PLEASE CONTACT DISC PUBLISHER FOR SPECIFICATION SOURCE.  SEE PUBLISHER IDENTIFIER IN PRIMARY VOLUME DESCRIPTOR FOR CONTACT INFORMATION."@,
            );
            er_field().skip(8) == id + descriptor + source
        }),
{
    er_lengths();
    assert(er_field().skip(8) =~= er_id() + er_descriptor() + er_source());
}

/// A name of at most 250 bytes is one field without flags; a longer one goes on behind a field with
/// its first 250 bytes and the flag of value 1.
pub proof fn names_go_on_in_the_next_field(name: Seq<u8>, rest: Seq<u8>)
    ensures
        name.len() <= 250 ==> nm_fields(name) == seq![nm_field(0, name)],
        name.len() == 250 && rest.len() > 0 ==> nm_fields(name + rest) == seq![nm_field(1, name)]
            + nm_fields(rest),
{
    if name.len() == 250 && rest.len() > 0 {
        assert((name + rest).take(250) =~= name);
        assert((name + rest).skip(250) =~= rest);
    }
}

/// The components of a link: `.` and `..` are records without text and the flags of value 2 and 4,
/// any other name is a record with its text, and one of more than 248 bytes goes on behind a
/// record with its first 248 bytes and the flag of value 1. A leading slash is a record with the
/// flag of value 8.
pub proof fn link_components_have_their_flags(name: Seq<u8>, rest: Seq<u8>)
    ensures
        sl_records(seq!['.' as u8]) == seq![seq![2u8, 0u8]],
        sl_records(seq!['.' as u8, '.' as u8]) == seq![seq![4u8, 0u8]],
        name.len() <= 248 && name != seq!['.' as u8] && name != seq!['.' as u8, '.' as u8]
            ==> sl_records(name) == seq![seq![0u8, name.len() as u8] + name],
        name.len() == 248 && rest.len() > 0 ==> sl_records(name + rest) == seq![
            seq![1u8, 248u8] + name,
        ] + sl_name_records(rest),
        sl_target_records(name).len() > 0 && name.len() > 0 && name[0] == '/' as u32
            ==> sl_target_records(name)[0] == seq![8u8, 0u8],
{
    let dot = seq![0x2Eu8];
    let dots = seq![0x2Eu8, 0x2Eu8];
    assert(dot.len() == 1 && dots.len() == 2);
    assert(sl_record(2, Seq::empty()) =~= seq![2u8, 0u8]);
    assert(sl_record(4, Seq::empty()) =~= seq![4u8, 0u8]);
    assert(sl_record(8, Seq::empty()) =~= seq![8u8, 0u8]);
    if name.len() == 248 && rest.len() > 0 {
        assert((name + rest).take(248) =~= name);
        assert((name + rest).skip(248) =~= rest);
        assert((name + rest).len() > 2);
    }
}

/// A record joins the area before it where both have at most 250 bytes together, and else begins an
/// area.
pub proof fn link_records_fill_areas(records: Seq<Seq<u8>>, last: Seq<u8>)
    ensures
        sl_areas(Seq::empty()) == Seq::<Seq<u8>>::empty(),
        ({
            let before = sl_areas(records);
            let after = sl_areas(records.push(last));
            if before.len() > 0 && before.last().len() + last.len() <= 250 {
                after == before.drop_last().push(before.last() + last)
            } else {
                after == before.push(last)
            }
        }),
{
    assert(records.push(last).drop_last() =~= records);
}

/// All fields stay in the record where they fit; else as many of the first ones stay as leave 28
/// bytes for the field that points to the others.
pub proof fn fields_stay_while_they_fit(fields: Seq<Seq<u8>>, f: Seq<u8>, max: int)
    ensures
        fitting(Seq::empty(), max) == 0,
        fitting(seq![f] + fields, max) == (if f.len() > max {
            0
        } else {
            1 + fitting(fields, max - f.len())
        }),
        fitting(fields, max) == fields.len() ==> inline_count(fields, max) == fields.len(),
        fitting(fields, max) != fields.len() && max >= 28 ==> inline_count(fields, max) == fitting(
            fields,
            max - 28,
        ),
        fitting(fields, max) != fields.len() && max < 28 ==> inline_count(fields, max) == fitting(
            fields,
            0,
        ),
{
    assert((seq![f] + fields).drop_first() =~= fields);
}

/// What a field says depends on its two letters and is read from fixed places of what it holds;
/// fields with other letters, or too short for theirs, are kept as they are.
pub proof fn fields_are_told_by_their_letters(p: Seq<u8>, length: u8, version: u8)
    ensures
        p.len() >= 3 && p[0] == 0xBE && p[1] == 0xEF ==> field_of(
            'S' as u8,
            'P' as u8,
            length,
            version,
            p,
        ) == FieldView::Identifier(p[2]),
        p.len() >= 24 ==> field_of('C' as u8, 'E' as u8, length, version, p)
            == FieldView::Continuation(
            CeEntry {
                sector: number_at(p, 0),
                offset: number_at(p, 8),
                length: number_at(p, 16),
            },
        ),
        p.len() >= 32 ==> (field_of('P' as u8, 'X' as u8, length, version, p) matches
            FieldView::Posix(px) && px.file_mode == number_at(p, 0) && px.file_links == number_at(
            p,
            8,
        ) && px.file_uid == number_at(p, 16) && px.file_gid == number_at(p, 24) && (p.len() >= 40
            ==> px.file_serial == Some(number_at(p, 32))) && (p.len() < 40 ==> px.file_serial
            is None)),
        p.len() >= 1 ==> field_of('N' as u8, 'M' as u8, length, version, p) == FieldView::Name(
            p[0],
            p.skip(1),
        ),
        p.len() >= 1 ==> field_of('S' as u8, 'L' as u8, length, version, p) == FieldView::Link(
            p[0],
            components_in(p.skip(1)),
        ),
        p.len() >= 1 ==> field_of('T' as u8, 'F' as u8, length, version, p) == FieldView::Times(
            p[0],
            p.skip(1),
        ),
        p.len() >= 16 ==> field_of('P' as u8, 'N' as u8, length, version, p) == FieldView::Device(
            PnEntry { high: number_at(p, 0), low: number_at(p, 8) },
        ),
        p.len() >= 8 ==> field_of('C' as u8, 'L' as u8, length, version, p) == FieldView::Child(
            number_at(p, 0),
        ),
        p.len() >= 8 ==> field_of('P' as u8, 'L' as u8, length, version, p) == FieldView::Parent(
            number_at(p, 0),
        ),
        field_of('R' as u8, 'E' as u8, length, version, p) == FieldView::Relocated,
        p.len() >= 1 ==> field_of('E' as u8, 'S' as u8, length, version, p) == FieldView::Selector(
            p[0],
        ),
        p.len() < 24 ==> field_of('C' as u8, 'E' as u8, length, version, p) == FieldView::Other(
            seq!['C' as u8, 'E' as u8],
            length,
            version,
            p,
        ),
        p.len() < 32 ==> field_of('P' as u8, 'X' as u8, length, version, p) == FieldView::Other(
            seq!['P' as u8, 'X' as u8],
            length,
            version,
            p,
        ),
        field_of('E' as u8, 'R' as u8, length, version, p) == FieldView::Other(
            seq!['E' as u8, 'R' as u8],
            length,
            version,
            p,
        ),
        p.len() >= 4 ==> number_at(p, 0) == p[0] + 0x100 * p[1] + 0x10000 * p[2] + 0x1000000 * p[3],
{
    reveal(field_of);
}

/// The next field ends as far behind its start as its third byte says. There is none where less
/// than four bytes are left, where that byte is less than 4 or exceeds the area, or where the
/// letters are ST.
pub proof fn fields_follow_each_other(data: Seq<u8>, at: int)
    requires
        0 <= at,
    ensures
        at + 4 > data.len() ==> next_field(data, at) is None,
        at + 4 <= data.len() ==> (next_field(data, at) is None <==> data[at + 2] < 4 || at
            + data[at + 2] > data.len() || (data[at] == 'S' as u32 && data[at + 1] == 'T' as u32)),
        next_field(data, at) matches Some((f, end)) ==> end == at + data[at + 2] && f == field_of(
            data[at],
            data[at + 1],
            data[at + 2],
            data[at + 3],
            data.subrange(at + 4, end),
        ) && fields_from(data, at) == seq![f] + fields_from(data, end),
        next_field(data, at) is None ==> fields_from(data, at) == Seq::<FieldView>::empty(),
{
}

/// Components follow each other: flags, length and text of the first, then the others.
pub proof fn components_follow_each_other(flags: u8, text: Seq<u8>, rest: Seq<u8>)
    requires
        text.len() <= 255,
    ensures
        components_in(seq![flags, text.len() as u8] + text + rest) == seq![
            ComponentView { flags, content: text },
        ] + components_in(rest),
        rest.len() < 2 ==> components_in(rest) == Seq::<ComponentView>::empty(),
{
    let area = seq![flags, text.len() as u8] + text + rest;
    let end = 2 + text.len() as int;
    assert(area[1] == text.len());
    assert(area.subrange(2, end) =~= text);
    assert(area.skip(end) =~= rest);
}

/// What flags of a name or a component stand for: value 2 for `.`, 4 for `..`, 8 for the root.
pub proof fn flags_stand_for_names(name: Seq<u8>, more: u8)
    ensures
        name_part(0, name) == name,
        name_part(1, name) == name,
        name_part(2, name) == seq!['.' as u8],
        name_part(4, name) == seq!['.' as u8, '.' as u8],
        component_text(ComponentView { flags: 0, content: name }) == name,
        component_text(ComponentView { flags: 1, content: name }) == name,
        component_text(ComponentView { flags: 2, content: name }) == seq!['.' as u8],
        component_text(ComponentView { flags: 4, content: name }) == seq!['.' as u8, '.' as u8],
        component_text(ComponentView { flags: 8, content: name }) == seq!['/' as u8],
        has_bit(more, 1) <==> more & 1 != 0,
        has_bit(more, 2) <==> more & 2 != 0,
        has_bit(more, 4) <==> more & 4 != 0,
        has_bit(more, 8) <==> more & 8 != 0,
        has_bit(more, 128) <==> more & 0x80 != 0,
{
    assert((more & 1 != 0) == (more % 2 == 1) && (more & 2 != 0) == (more / 2 % 2 == 1) && (more & 4
        != 0) == (more / 4 % 2 == 1) && (more & 8 != 0) == (more / 8 % 2 == 1) && (more & 0x80 != 0)
        == (more / 128 % 2 == 1)) by (bit_vector);
}

/// A slash stands between components, but for the root, which is one, and behind a part that goes
/// on in the next component.
pub proof fn links_are_put_together(components: Seq<ComponentView>, c: ComponentView)
    ensures
        assembled(Seq::empty()).text == Seq::<u8>::empty() && assembled(Seq::empty()).joined,
        ({
            let before = assembled(components);
            let after = assembled(components.push(c));
            &&& before.joined ==> after.text == before.text + component_text(c)
            &&& !before.joined ==> after.text == before.text.push('/' as u8) + component_text(c)
            &&& after.joined <==> has_bit(c.flags, 8) || has_bit(c.flags, 1)
        }),
{
    assert(components.push(c).drop_last() =~= components);
}

/// Whether a stored time names the moment so many seconds from the start of 1970.
pub open spec fn names_the_moment(t: RripDateTime, secs: int) -> bool {
    &&& 86400 * epoch_day(t.year as int, t.month as int, t.day as int) + 3600 * t.hour + 60
        * t.minute + t.second == secs
    &&& t.hour < 24
    &&& t.minute < 60
    &&& t.second < 60
    &&& t.gmt_offset == 0
}

/// Whether a timestamp lies in the years 1900 to 2155.
pub open spec fn in_short_years(secs: i64) -> bool {
    86400 * epoch_day(1900, 1, 1) <= secs < 86400 * epoch_day(2156, 1, 1)
}

/// A timestamp of the years 1900 to 2155 is read back from its seven bytes.
pub proof fn stored_times_are_read_back(secs: i64, fallback: Seq<u8>)
    requires
        in_short_years(secs),
    ensures
        names_the_moment(short_time(rrip_time_of(Some(secs), fallback)), secs as int),
{
    stored_time_is_the_moment(secs, fallback);
}

/// Where times are kept, the times that are read of an entry are those that it was given: of its
/// creation where it has one, of its last change and of its last access.
pub proof fn times_of_entries_are_read_back(
    kind: RripEntryKind,
    inode: u32,
    options: RripOptions,
    fallback: Seq<u8>,
)
    requires
        kind is Entry,
        fallback.len() == 7,
        options.preserve_timestamps,
    ensures
        kind matches RripEntryKind::Entry { metadata, .. } ==> {
            let read = times_of(fields_read(rrip_fields(kind, inode, options, fallback)));
            &&& read is Some
            &&& metadata.created is None ==> read->0.creation is None
            &&& metadata.created matches Some(secs) ==> (in_short_years(secs) ==> (
            read->0.creation matches Some(t) && names_the_moment(t, secs as int)))
            &&& metadata.modified matches Some(secs) ==> (in_short_years(secs) ==> (
            read->0.modify matches Some(t) && names_the_moment(t, secs as int)))
            &&& metadata.accessed matches Some(secs) ==> (in_short_years(secs) ==> (
            read->0.access matches Some(t) && names_the_moment(t, secs as int)))
        },
{
    entries_are_read_back(kind, inode, options, fallback);
    match kind {
        RripEntryKind::Entry { metadata, .. } => {
            if let Some(secs) = metadata.created {
                if in_short_years(secs) {
                    stored_times_are_read_back(secs, fallback);
                }
            }
            if let Some(secs) = metadata.modified {
                if in_short_years(secs) {
                    stored_times_are_read_back(secs, fallback);
                }
            }
            if let Some(secs) = metadata.accessed {
                if in_short_years(secs) {
                    stored_times_are_read_back(secs, fallback);
                }
            }
        },
        _ => {},
    }
}

/// Seven bytes are a time in numbers, from the years since 1900 to the offset; seventeen are one in
/// digits: four for the year, two each for month, day, hour, minute, second and hundredths, and
/// the offset behind them.
pub proof fn stored_times_have_their_places(s: Seq<u8>)
    ensures
        s.len() == 7 ==> {
            let t = short_time(s);
            &&& t.year == 1900 + s[0]
            &&& t.month == s[1]
            &&& t.day == s[2]
            &&& t.hour == s[3]
            &&& t.minute == s[4]
            &&& t.second == s[5]
            &&& t.gmt_offset == s[6]
        },
        s.len() == 17 ==> {
            let digits = forall|i: int| 0 <= i < 16 ==> '0' as u32 <= #[trigger] s[i] <= '9' as u32;
            &&& long_time(s) is Some <==> digits
            &&& long_time(s) matches Some(t) ==> {
                &&& t.year == 1000 * (s[0] - 48) + 100 * (s[1] - 48) + 10 * (s[2] - 48) + (s[3]
                    - 48)
                &&& t.month == 10 * (s[4] - 48) + (s[5] - 48)
                &&& t.day == 10 * (s[6] - 48) + (s[7] - 48)
                &&& t.hour == 10 * (s[8] - 48) + (s[9] - 48)
                &&& t.minute == 10 * (s[10] - 48) + (s[11] - 48)
                &&& t.second == 10 * (s[12] - 48) + (s[13] - 48)
                &&& t.gmt_offset == s[16]
            }
        },
{
    if s.len() == 17 {
        let d = s.take(16);
        assert(forall|i: int| 0 <= i < 16 ==> d[i] == s[i]);
        if long_time(s) is Some {
            assert forall|i: int| 0 <= i < 16 implies 48 <= #[trigger] s[i] <= 57 by {
                assert(d[i] == s[i]);
            }
        }
    }
}

/// Which times a field holds: creation where bit 0 is set, then change where bit 1 is, then access
/// where bit 2 is; each takes 7 bytes, or 17 where bit 7 is set.
pub proof fn times_follow_each_other(flags: u8, bytes: Seq<u8>)
    ensures
        ({
            let t = times_in(flags, bytes);
            let one = if flags & 0x80 != 0 {
                17
            } else {
                7int
            };
            let first = if flags & 1 != 0 {
                1
            } else {
                0int
            };
            let second = first + (if flags & 2 != 0 {
                1
            } else {
                0int
            });
            &&& flags & 1 == 0 ==> t.creation is None
            &&& flags & 2 == 0 ==> t.modify is None
            &&& flags & 4 == 0 ==> t.access is None
            &&& flags & 1 != 0 ==> t.creation == time_of_bytes(flags, bytes, 0, one)
            &&& flags & 2 != 0 ==> t.modify == time_of_bytes(flags, bytes, first * one, one)
            &&& flags & 4 != 0 ==> t.access == time_of_bytes(flags, bytes, second * one, one)
        }),
{
    flags_stand_for_names(Seq::empty(), flags);
}

/// The time at a place of bytes, where they reach so far.
pub open spec fn time_of_bytes(flags: u8, bytes: Seq<u8>, at: int, len: int) -> Option<
    RripDateTime,
> {
    if at + len > bytes.len() {
        None
    } else if flags & 0x80 != 0 {
        long_time(bytes.subrange(at, at + len))
    } else {
        Some(short_time(bytes.subrange(at, at + len)))
    }
}

/// The mode of an entry tells what it is in its upper bits, and without permissions of its own what
/// everybody may do: files may be read and, by their owner, written; directories may be entered;
/// links may be used by all; devices are their owner's.
pub proof fn modes_tell_what_an_entry_is(kind: KindView)
    ensures
        kind is File ==> mode_of(kind) == (0o100000u32, 0o644u32),
        kind is Directory ==> mode_of(kind) == (0o040000u32, 0o755u32),
        kind is Symlink ==> mode_of(kind) == (0o120000u32, 0o777u32),
        kind is CharacterDevice ==> mode_of(kind) == (0o020000u32, 0o600u32),
        kind is BlockDevice ==> mode_of(kind) == (0o060000u32, 0o600u32),
{
}

/// Permissions and owners are those of the entry where they are kept, else the usual ones and 0.
pub proof fn attributes_are_kept_where_asked(
    options: RripOptions,
    inode: u32,
    metadata: InputMetadata,
    kind: u32,
    permissions: u32,
    nlink: u32,
)
    ensures
        ({
            let px = posix_entry(options, inode, metadata, kind, permissions, nlink);
            &&& px.file_links == nlink
            &&& px.file_serial == Some(inode)
            &&& !options.preserve_permissions || metadata.mode is None ==> px.file_mode == kind
                | permissions
            &&& options.preserve_permissions ==> (metadata.mode matches Some(mode) ==> px.file_mode
                == kind | mode)
            &&& !options.preserve_ownership ==> px.file_uid == 0 && px.file_gid == 0
            &&& options.preserve_ownership ==> {
                &&& metadata.uid matches Some(uid) ==> px.file_uid == uid
                &&& metadata.gid matches Some(gid) ==> px.file_gid == gid
                &&& metadata.uid is None ==> px.file_uid == 0
                &&& metadata.gid is None ==> px.file_gid == 0
            }
        }),
{
}

/// Beside its attributes and its name a link has its target, a device its major number and then its
/// minor one, and nothing else has more.
pub proof fn devices_keep_their_numbers(kind: KindView)
    ensures
        kind matches KindView::CharacterDevice(major, minor) ==> {
            let f = special_fields(kind);
            &&& f.len() == 1
            &&& f[0].len() == 20
            &&& f[0][0] == 'P' as u32 && f[0][1] == 'N' as u32
            &&& holds_both(f[0], 4, major as int)
            &&& holds_both(f[0], 12, minor as int)
        },
        kind matches KindView::BlockDevice(major, minor) ==> {
            let f = special_fields(kind);
            &&& f.len() == 1
            &&& f[0].len() == 20
            &&& f[0][0] == 'P' as u32 && f[0][1] == 'N' as u32
            &&& holds_both(f[0], 4, major as int)
            &&& holds_both(f[0], 12, minor as int)
        },
        kind matches KindView::Symlink(target) ==> special_fields(kind) == sl_fields(
            encode_utf8(target),
        ),
        kind is File || kind is Directory ==> special_fields(kind).len() == 0,
{
    match kind {
        KindView::CharacterDevice(major, minor) => {
            number_fields_have_their_bytes(major, minor, 0);
        },
        KindView::BlockDevice(major, minor) => {
            number_fields_have_their_bytes(major, minor, 0);
        },
        _ => {},
    }
}

/// What is written of a directory itself, of its parent and of the root: attributes of a directory,
/// and the flag that stands for `.` or `..`; the root's own record also begins with the check bytes
/// and ends with the name of the extension.
pub proof fn directories_name_themselves(
    kind: RripEntryKind,
    inode: u32,
    options: RripOptions,
    fallback: Seq<u8>,
)
    ensures
        kind matches RripEntryKind::RootDot { metadata, nlink } ==> rrip_fields(
            kind,
            inode,
            options,
            fallback,
        ) == seq![sp_field(0)] + posix_fields(
            options,
            fallback,
            inode,
            metadata,
            0o040000,
            0o755,
            nlink,
        ) + seq![nm_field(2, Seq::empty()), er_field()],
        kind matches RripEntryKind::RootDotDot { metadata, nlink } ==> rrip_fields(
            kind,
            inode,
            options,
            fallback,
        ) == posix_fields(options, fallback, inode, metadata, 0o040000, 0o755, nlink) + seq![
            nm_field(4, Seq::empty()),
        ],
        kind matches RripEntryKind::Dot { metadata, nlink } ==> rrip_fields(
            kind,
            inode,
            options,
            fallback,
        ) == posix_fields(options, fallback, inode, metadata, 0o040000, 0o755, nlink) + seq![
            nm_field(2, Seq::empty()),
        ],
        kind matches RripEntryKind::DotDot { metadata, nlink } ==> rrip_fields(
            kind,
            inode,
            options,
            fallback,
        ) == posix_fields(options, fallback, inode, metadata, 0o040000, 0o755, nlink) + seq![
            nm_field(4, Seq::empty()),
        ],
{
}

/// The attributes of an entry and, where they are kept, its times: those it was given, and the
/// fallback in place of a change or an access that it was not given.
pub proof fn attributes_have_their_fields(
    options: RripOptions,
    fallback: Seq<u8>,
    inode: u32,
    metadata: InputMetadata,
    kind: u32,
    permissions: u32,
    nlink: u32,
)
    ensures
        ({
            let f = posix_fields(
                options,
                fallback,
                inode,
                metadata,
                kind,
                permissions,
                nlink,
            );
            let px = posix_entry(options, inode, metadata, kind, permissions, nlink);
            &&& f[0] == px_field(px.file_mode, nlink, px.file_uid, px.file_gid, inode)
            &&& !options.preserve_timestamps ==> f.len() == 1
            &&& options.preserve_timestamps ==> {
                &&& f.len() == 2
                &&& metadata.created is None ==> f[1] == tf_field(
                    None,
                    rrip_time_of(metadata.modified, fallback),
                    rrip_time_of(metadata.accessed, fallback),
                )
                &&& metadata.created is Some ==> f[1] == tf_field(
                    Some(rrip_time_of(metadata.created, fallback)),
                    rrip_time_of(metadata.modified, fallback),
                    rrip_time_of(metadata.accessed, fallback),
                )
            }
        }),
{
}

/// Fields are taken in one after the other: pieces of a name and components of a link are put behind
/// those before them, and of several attributes the last count. Other fields add nothing.
pub proof fn fields_are_taken_in_order(fields: Seq<FieldView>, field: FieldView)
    ensures
        name_of(Seq::empty()) is None && components_of(Seq::empty()) is None && posix_of(
            Seq::empty(),
        ) is None,
        field matches FieldView::Name(flags, name) ==> name_of(fields.push(field)) == Some(
            (match name_of(fields) {
                Some(before) => before,
                None => Seq::empty(),
            }) + name_part(flags, name),
        ),
        !(field is Name) ==> name_of(fields.push(field)) == name_of(fields),
        field matches FieldView::Link(flags, more) ==> components_of(fields.push(field)) == Some(
            (match components_of(fields) {
                Some(before) => before,
                None => Seq::empty(),
            }) + more,
        ),
        !(field is Link) ==> components_of(fields.push(field)) == components_of(fields),
        field matches FieldView::Posix(px) ==> posix_of(fields.push(field)) == Some(px),
        !(field is Posix) ==> posix_of(fields.push(field)) == posix_of(fields),
{
    assert(fields.push(field).drop_last() =~= fields);
}

} // verus!
