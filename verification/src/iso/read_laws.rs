//! What is written into System Use fields is read back from them.

#[allow(unused_imports)]
use crate::bytes::{be32, le32, le32_round_trip};
#[allow(unused_imports)]
use crate::iso::metadata::{
    assembled, component_text, components_of, name_of, name_part, or_empty, posix_of, short_time,
    target_of, times_in, times_of, Assembly, RripTimestamps,
};
#[allow(unused_imports)]
use crate::iso::name::{base_identifier, file_identifier};
#[allow(unused_imports)]
use crate::iso::records::{
    child_record, dir_posix, extent_flags, file_records, nlink_of, record_with, su_space, Context,
};
#[allow(unused_imports)]
use crate::iso::refmap::DirKey;
#[allow(unused_imports)]
use crate::iso::rrip::{mode_of, posix_fields, rrip_fields, special_fields, RripEntryKind};
#[allow(unused_imports)]
use crate::iso::susp::{
    both32, ce_field, cl_field, concat, er_descriptor, er_field, er_id, er_lengths, er_source,
    inline_count, nm_field, nm_fields, pn_field, px_field, re_field, sl_areas, sl_field, sl_fields,
    sl_name_records, sl_parts_records, sl_record, sl_records, sl_target_records, sp_field,
    split_inline, split_overflow, su_field, tf_field,
};
#[allow(unused_imports)]
use crate::iso::system_use::{
    components_in, field_of, fields_from, has_bit, is_terminator, next_field, number_at, CeEntry,
    ComponentView, FieldView, PnEntry, PxEntry,
};
#[allow(unused_imports)]
use crate::iso::time::rrip_time_of;
#[allow(unused_imports)]
use crate::iso::tree::{InputMetadata, KindView};
#[allow(unused_imports)]
use crate::iso::types::{DirectoryRef, FileFlags, RripOptions};
#[allow(unused_imports)]
use crate::iso::written::{dir_ref, DirView, DirectoryRelocation, FileView};
#[allow(unused_imports)]
use crate::text::{path_parts, path_scan};
use vstd::prelude::*;
#[allow(unused_imports)]
use vstd::utf8::encode_utf8;

verus! {

/// Whether bytes are a field that can be read: its length is that in its header, and it does
/// not end the area.
pub open spec fn is_field(f: Seq<u8>) -> bool {
    4 <= f.len() <= 255 && f[2] == f.len() && !is_terminator(f[0], f[1])
}

/// What the bytes of a field say.
pub open spec fn field_read(f: Seq<u8>) -> FieldView {
    field_of(f[0], f[1], f[2], f[3], f.skip(4))
}

/// What fields say.
pub open spec fn fields_read(fields: Seq<Seq<u8>>) -> Seq<FieldView> {
    Seq::new(fields.len(), |i: int| field_read(fields[i]))
}

/// Whether all fields can be read.
pub open spec fn are_fields(fields: Seq<Seq<u8>>) -> bool {
    forall|i: int| 0 <= i < fields.len() ==> is_field(#[trigger] fields[i])
}

proof fn concat_at(fields: Seq<Seq<u8>>, k: int)
    requires
        0 <= k < fields.len(),
    ensures
        ({
            let at = concat(fields.take(k)).len() as int;
            let end = concat(fields.take(k + 1)).len() as int;
            &&& end == at + fields[k].len()
            &&& end <= concat(fields).len()
            &&& concat(fields).subrange(at, end) == fields[k]
        }),
    decreases fields.len(),
{
    let at = concat(fields.take(k)).len() as int;
    let end = concat(fields.take(k + 1)).len() as int;
    assert(fields.take(k + 1).drop_last() =~= fields.take(k));
    let init = fields.drop_last();
    if k == fields.len() - 1 {
        assert(fields.take(k + 1) =~= fields);
        assert(init =~= fields.take(k));
        assert(concat(fields).subrange(at, end) =~= fields[k]);
    } else {
        concat_at(init, k);
        assert(init.take(k) =~= fields.take(k));
        assert(init.take(k + 1) =~= fields.take(k + 1));
        assert(concat(fields).subrange(at, end) =~= concat(init).subrange(at, end));
    }
}

proof fn fields_behind(fields: Seq<Seq<u8>>, k: int)
    requires
        are_fields(fields),
        0 <= k <= fields.len(),
    ensures
        fields_from(concat(fields), concat(fields.take(k)).len() as int) == fields_read(
            fields,
        ).skip(k),
    decreases fields.len() - k,
{
    let data = concat(fields);
    let at = concat(fields.take(k)).len() as int;
    if k == fields.len() {
        assert(fields.take(k) =~= fields);
        assert(fields_read(fields).skip(k) =~= Seq::empty());
    } else {
        concat_at(fields, k);
        fields_behind(fields, k + 1);
        let f = fields[k];
        let end = at + f.len();
        assert(is_field(f));
        let part = data.subrange(at, end);
        assert(part == f);
        assert(data[at] == part[0] && data[at + 1] == part[1] && data[at + 2] == part[2]
            && data[at + 3] == part[3]);
        assert(data.subrange(at + 4, end) =~= f.skip(4));
        assert(next_field(data, at) == Some((field_read(f), end)));
        assert(fields_read(fields).skip(k) =~= seq![field_read(f)] + fields_read(fields).skip(
            k + 1,
        ));
    }
}

/// Fields one after the other are read one after the other.
pub proof fn fields_are_read_back(fields: Seq<Seq<u8>>)
    requires
        are_fields(fields),
    ensures
        fields_from(concat(fields), 0) == fields_read(fields),
{
    fields_behind(fields, 0);
    assert(fields.take(0) =~= Seq::empty());
    assert(fields_read(fields).skip(0) =~= fields_read(fields));
}

proof fn read_joins(a: Seq<Seq<u8>>, b: Seq<Seq<u8>>)
    ensures
        fields_read(a + b) == fields_read(a) + fields_read(b),
        are_fields(a) && are_fields(b) ==> are_fields(a + b),
{
    assert(fields_read(a + b) =~= fields_read(a) + fields_read(b));
    if are_fields(a) && are_fields(b) {
        assert forall|i: int| 0 <= i < (a + b).len() implies is_field(#[trigger] (a + b)[i]) by {
            if i < a.len() {
                assert(is_field(a[i]));
            } else {
                assert(is_field(b[i - a.len()]));
            }
        }
    }
}

/// Fields one after the other are those before and those behind.
pub proof fn concat_joins(a: Seq<Seq<u8>>, b: Seq<Seq<u8>>)
    ensures
        concat(a + b) == concat(a) + concat(b),
    decreases b.len(),
{
    if b.len() == 0 {
        assert(a + b =~= a);
        assert(concat(a) + concat(b) =~= concat(a));
    } else {
        concat_joins(a, b.drop_last());
        assert((a + b).drop_last() =~= a + b.drop_last());
        assert((a + b).last() == b.last());
        assert(concat(a + b) =~= concat(a) + concat(b));
    }
}

/// Where the fields of a record are split, the record and its continuation area hold all of
/// them in order; in the record a CE field follows.
pub proof fn split_fields_are_read_back(
    fields: Seq<Seq<u8>>,
    max: int,
    sector: u32,
    offset: u32,
)
    requires
        are_fields(fields),
    ensures
        ({
            let k = inline_count(fields, max) as int;
            let inline = split_inline(fields, max);
            let overflow = split_overflow(fields, max);
            let read = fields_read(fields);
            &&& k == fields.len() ==> fields_from(inline, 0) == read
            &&& k < fields.len() ==> {
                let pointed = inline.take(inline.len() - 28) + ce_field(
                    sector,
                    offset,
                    overflow.len() as u32,
                );
                &&& fields_from(pointed, 0) == read.take(k).push(
                    FieldView::Continuation(
                        CeEntry { sector, offset, length: overflow.len() as u32 },
                    ),
                )
                &&& fields_from(overflow, 0) == read.skip(k)
            }
        }),
{
    let k = inline_count(fields, max) as int;
    let read = fields_read(fields);
    inline_count_bounds(fields, max);
    if k == fields.len() {
        assert(fields.take(k) =~= fields);
        fields_are_read_back(fields);
    } else {
        let kept = fields.take(k);
        let rest = fields.skip(k);
        let overflow = split_overflow(fields, max);
        let len = overflow.len() as u32;
        let inline = split_inline(fields, max);
        let ce = ce_field(sector, offset, len);
        assert forall|i: int| 0 <= i < kept.len() implies is_field(#[trigger] kept[i]) by {
            assert(is_field(fields[i]));
        }
        assert forall|i: int| 0 <= i < rest.len() implies is_field(#[trigger] rest[i]) by {
            assert(is_field(fields[i + k]));
        }
        ce_is_read(sector, offset, len);
        ce_is_read(0, 0, len);
        let one = seq![ce];
        assert(one.drop_last() =~= Seq::empty());
        assert(concat(one.drop_last()) =~= Seq::empty());
        assert(concat(one) =~= ce);
        read_joins(kept, one);
        concat_joins(kept, one);
        assert(ce_field(0, 0, len).len() == 28);
        assert(inline.take(inline.len() - 28) =~= concat(kept));
        fields_are_read_back(kept + one);
        assert(fields_read(kept + one) =~= read.take(k).push(field_read(ce)));
        fields_are_read_back(rest);
        assert(fields_read(rest) =~= read.skip(k));
    }
}

proof fn fitting_bounds(fields: Seq<Seq<u8>>, budget: int)
    ensures
        crate::iso::susp::fitting(fields, budget) <= fields.len(),
    decreases fields.len(),
{
    if fields.len() > 0 && fields[0].len() <= budget {
        fitting_bounds(fields.drop_first(), budget - fields[0].len());
    }
}

/// No more fields stay in the record than there are.
pub proof fn inline_count_bounds(fields: Seq<Seq<u8>>, max: int)
    ensures
        inline_count(fields, max) <= fields.len(),
{
    fitting_bounds(fields, max);
    fitting_bounds(fields, 0);
    fitting_bounds(fields, max - 28);
}

proof fn su_field_is_read(a: u8, b: u8, payload: Seq<u8>)
    requires
        payload.len() <= 251,
        !is_terminator(a, b),
    ensures
        is_field(su_field(a, b, payload)),
        field_read(su_field(a, b, payload)) == field_of(
            a,
            b,
            (4 + payload.len()) as u8,
            1,
            payload,
        ),
{
    assert(su_field(a, b, payload).skip(4) =~= payload);
}

proof fn number_is_read(before: Seq<u8>, x: u32, after: Seq<u8>)
    ensures
        number_at(before + both32(x) + after, before.len() as int) == x,
        both32(x).len() == 8,
{
    let all = before + both32(x) + after;
    let at = before.len() as int;
    le32_round_trip(x);
    assert(be32(x).len() == 4);
    assert(all.subrange(at, at + 4) =~= le32(x));
}

proof fn ce_is_read(sector: u32, offset: u32, len: u32)
    ensures
        is_field(ce_field(sector, offset, len)),
        field_read(ce_field(sector, offset, len)) == FieldView::Continuation(
            CeEntry { sector, offset, length: len },
        ),
        ce_field(sector, offset, len).len() == 28,
{
    reveal(field_of);
    let payload = both32(sector) + both32(offset) + both32(len);
    number_is_read(Seq::empty(), sector, both32(offset) + both32(len));
    number_is_read(both32(sector), offset, both32(len));
    number_is_read(both32(sector) + both32(offset), len, Seq::empty());
    assert(payload =~= Seq::<u8>::empty() + both32(sector) + (both32(offset) + both32(len)));
    assert(payload =~= both32(sector) + both32(offset) + both32(len));
    assert(payload =~= both32(sector) + both32(offset) + both32(len) + Seq::<u8>::empty());
    su_field_is_read(0x43, 0x45, payload);
}

/// Mode, links, owner, group and serial number are read back.
pub proof fn posix_attributes_are_read_back(
    mode: u32,
    nlink: u32,
    uid: u32,
    gid: u32,
    inode: u32,
)
    ensures
        is_field(px_field(mode, nlink, uid, gid, inode)),
        field_read(px_field(mode, nlink, uid, gid, inode)) == FieldView::Posix(
            PxEntry {
                file_mode: mode,
                file_links: nlink,
                file_uid: uid,
                file_gid: gid,
                file_serial: Some(inode),
            },
        ),
{
    reveal(field_of);
    let (a, b, c, d, e) = (both32(mode), both32(nlink), both32(uid), both32(gid), both32(inode));
    let payload = a + b + c + d + e;
    number_is_read(Seq::empty(), mode, b + c + d + e);
    number_is_read(a, nlink, c + d + e);
    number_is_read(a + b, uid, d + e);
    number_is_read(a + b + c, gid, e);
    number_is_read(a + b + c + d, inode, Seq::empty());
    assert(payload =~= Seq::<u8>::empty() + a + (b + c + d + e));
    assert(payload =~= a + b + (c + d + e));
    assert(payload =~= a + b + c + (d + e));
    assert(payload =~= a + b + c + d + e + Seq::<u8>::empty());
    su_field_is_read(0x50, 0x58, payload);
}

/// The halves of a device number are read back.
pub proof fn device_numbers_are_read_back(high: u32, low: u32)
    ensures
        is_field(pn_field(high, low)),
        field_read(pn_field(high, low)) == FieldView::Device(PnEntry { high, low }),
{
    reveal(field_of);
    let (a, b) = (both32(high), both32(low));
    let payload = a + b;
    number_is_read(Seq::empty(), high, b);
    number_is_read(a, low, Seq::empty());
    assert(payload =~= Seq::<u8>::empty() + a + b);
    assert(payload =~= a + b + Seq::<u8>::empty());
    su_field_is_read(0x50, 0x4E, payload);
}

/// Timestamps are read back.
pub proof fn timestamps_are_read_back(
    created: Option<Seq<u8>>,
    modified: Seq<u8>,
    accessed: Seq<u8>,
)
    requires
        created matches Some(c) ==> c.len() == 7,
        modified.len() == 7,
        accessed.len() == 7,
    ensures
        is_field(tf_field(created, modified, accessed)),
        field_read(tf_field(created, modified, accessed)) matches FieldView::Times(flags, bytes)
            && times_in(flags, bytes) == (RripTimestamps {
            creation: match created {
                Some(c) => Some(short_time(c)),
                None => None,
            },
            modify: Some(short_time(modified)),
            access: Some(short_time(accessed)),
        }),
{
    reveal(field_of);
    match created {
        Some(c) => {
            let bytes = c + modified + accessed;
            let payload = seq![0x07u8] + c + modified + accessed;
            su_field_is_read(0x54, 0x46, payload);
            assert(payload.skip(1) =~= bytes);
            assert(bytes.subrange(0, 7) =~= c);
            assert(bytes.subrange(7, 14) =~= modified);
            assert(bytes.subrange(14, 21) =~= accessed);
        },
        None => {
            let bytes = modified + accessed;
            let payload = seq![0x06u8] + modified + accessed;
            su_field_is_read(0x54, 0x46, payload);
            assert(payload.skip(1) =~= bytes);
            assert(bytes.subrange(0, 7) =~= modified);
            assert(bytes.subrange(7, 14) =~= accessed);
        },
    }
}

proof fn names_join(a: Seq<FieldView>, b: Seq<FieldView>)
    ensures
        name_of(a + b) == (match (name_of(a), name_of(b)) {
            (Some(x), Some(y)) => Some(x + y),
            (None, y) => y,
            (x, None) => x,
        }),
    decreases b.len(),
{
    if b.len() == 0 {
        assert(a + b =~= a);
    } else {
        names_join(a, b.drop_last());
        assert((a + b).drop_last() =~= a + b.drop_last());
        assert((a + b).last() == b.last());
        match b.last() {
            FieldView::Name(flags, name) => {
                let own = name_part(flags, name);
                let x = or_empty(name_of(a));
                let y = or_empty(name_of(b.drop_last()));
                assert((x + y) + own =~= x + (y + own));
                assert(Seq::<u8>::empty() + own =~= own);
                assert(x + own =~= x + (Seq::<u8>::empty() + own));
            },
            _ => {},
        }
    }
}

proof fn links_join(a: Seq<FieldView>, b: Seq<FieldView>)
    ensures
        components_of(a + b) == (match (components_of(a), components_of(b)) {
            (Some(x), Some(y)) => Some(x + y),
            (None, y) => y,
            (x, None) => x,
        }),
    decreases b.len(),
{
    if b.len() == 0 {
        assert(a + b =~= a);
    } else {
        links_join(a, b.drop_last());
        assert((a + b).drop_last() =~= a + b.drop_last());
        assert((a + b).last() == b.last());
        match b.last() {
            FieldView::Link(_, own) => {
                let x = or_empty(components_of(a));
                let y = or_empty(components_of(b.drop_last()));
                assert((x + y) + own =~= x + (y + own));
                assert(Seq::<ComponentView>::empty() + own =~= own);
                assert(x + own =~= x + (Seq::<ComponentView>::empty() + own));
            },
            _ => {},
        }
    }
}

proof fn attributes_join(a: Seq<FieldView>, b: Seq<FieldView>)
    ensures
        posix_of(a + b) == (if posix_of(b) is Some {
            posix_of(b)
        } else {
            posix_of(a)
        }),
        times_of(a + b) == (if times_of(b) is Some {
            times_of(b)
        } else {
            times_of(a)
        }),
    decreases b.len(),
{
    if b.len() == 0 {
        assert(a + b =~= a);
    } else {
        attributes_join(a, b.drop_last());
        assert((a + b).drop_last() =~= a + b.drop_last());
        assert((a + b).last() == b.last());
    }
}

proof fn one_field(f: FieldView)
    ensures
        name_of(seq![f]) == (match f {
            FieldView::Name(flags, name) => Some(name_part(flags, name)),
            _ => None,
        }),
        components_of(seq![f]) == (match f {
            FieldView::Link(_, c) => Some(c),
            _ => None,
        }),
        posix_of(seq![f]) == (match f {
            FieldView::Posix(px) => Some(px),
            _ => None,
        }),
        times_of(seq![f]) == (match f {
            FieldView::Times(flags, bytes) => Some(times_in(flags, bytes)),
            _ => None,
        }),
{
    let s = seq![f];
    let none = s.drop_last();
    assert(none.len() == 0);
    assert(name_of(none) is None && components_of(none) is None);
    assert(posix_of(none) is None && times_of(none) is None);
    assert(s.last() == f);
    match f {
        FieldView::Name(flags, name) => {
            assert(Seq::<u8>::empty() + name_part(flags, name) =~= name_part(flags, name));
        },
        FieldView::Link(_, c) => {
            assert(Seq::<ComponentView>::empty() + c =~= c);
        },
        _ => {},
    }
}

proof fn nm_is_read(flags: u8, name: Seq<u8>)
    requires
        name.len() <= 250,
    ensures
        is_field(nm_field(flags, name)),
        field_read(nm_field(flags, name)) == FieldView::Name(flags, name),
{
    reveal(field_of);
    let payload = seq![flags] + name;
    su_field_is_read(0x4E, 0x4D, payload);
    assert(payload.skip(1) =~= name);
}

/// A name is read back from its fields, however many it takes.
pub proof fn names_are_read_back(name: Seq<u8>)
    ensures
        are_fields(nm_fields(name)),
        name_of(fields_read(nm_fields(name))) == Some(name),
        components_of(fields_read(nm_fields(name))) is None,
        posix_of(fields_read(nm_fields(name))) is None,
        times_of(fields_read(nm_fields(name))) is None,
    decreases name.len(),
{
    if name.len() <= 250 {
        nm_is_read(0, name);
        assert(fields_read(nm_fields(name)) =~= seq![FieldView::Name(0, name)]);
        one_field(FieldView::Name(0, name));
    } else {
        let part = name.take(250);
        let rest = name.skip(250);
        nm_is_read(1, part);
        names_are_read_back(rest);
        let a = seq![nm_field(1, part)];
        assert(fields_read(a) =~= seq![FieldView::Name(1, part)]);
        one_field(FieldView::Name(1, part));
        read_joins(a, nm_fields(rest));
        names_join(fields_read(a), fields_read(nm_fields(rest)));
        links_join(fields_read(a), fields_read(nm_fields(rest)));
        attributes_join(fields_read(a), fields_read(nm_fields(rest)));
        assert(part + rest =~= name);
    }
}

/// Whether an area consists of whole component records.
spec fn is_whole(area: Seq<u8>) -> bool
    decreases area.len(),
{
    area.len() == 0 || (area.len() >= 2 && 2 + area[1] <= area.len() && is_whole(
        area.skip(2 + area[1] as int),
    ))
}

proof fn areas_join(a: Seq<u8>, b: Seq<u8>)
    requires
        is_whole(a),
        is_whole(b),
    ensures
        is_whole(a + b),
        components_in(a + b) == components_in(a) + components_in(b),
    decreases a.len(),
{
    let all = a + b;
    if a.len() == 0 {
        assert(all =~= b);
        assert(components_in(a) + components_in(b) =~= components_in(b));
    } else {
        let end = 2 + a[1] as int;
        areas_join(a.skip(end), b);
        assert(all.skip(end) =~= a.skip(end) + b);
        assert(all[0] == a[0] && all[1] == a[1]);
        assert(all.subrange(2, end) =~= a.subrange(2, end));
        assert(components_in(all) =~= components_in(a) + components_in(b));
    }
}

spec fn record_of(r: Seq<u8>) -> ComponentView {
    ComponentView { flags: r[0], content: r.skip(2) }
}

spec fn is_record(r: Seq<u8>) -> bool {
    2 <= r.len() <= 250 && r[1] == r.len() - 2
}

spec fn are_records(records: Seq<Seq<u8>>) -> bool {
    forall|i: int| 0 <= i < records.len() ==> is_record(#[trigger] records[i])
}

spec fn records_read(records: Seq<Seq<u8>>) -> Seq<ComponentView> {
    Seq::new(records.len(), |i: int| record_of(records[i]))
}

proof fn record_is_read(r: Seq<u8>)
    requires
        is_record(r),
    ensures
        is_whole(r),
        components_in(r) == seq![record_of(r)],
{
    let end = r.len() as int;
    assert(r.skip(end) =~= Seq::empty());
    assert(is_whole(r.skip(end)));
    assert(components_in(r.skip(end)) =~= Seq::empty());
    assert(r.subrange(2, end) =~= r.skip(2));
    assert(components_in(r) =~= seq![record_of(r)]);
}

/// The component records of areas, one area after the other.
spec fn areas_read(areas: Seq<Seq<u8>>) -> Seq<ComponentView>
    decreases areas.len(),
{
    if areas.len() == 0 {
        Seq::empty()
    } else {
        areas_read(areas.drop_last()) + components_in(areas.last())
    }
}

spec fn are_areas(areas: Seq<Seq<u8>>) -> bool {
    forall|i: int|
        0 <= i < areas.len() ==> is_whole(#[trigger] areas[i]) && areas[i].len() <= 250
}

/// Packing keeps all component records and their order.
proof fn packed_records(records: Seq<Seq<u8>>)
    requires
        are_records(records),
    ensures
        are_areas(sl_areas(records)),
        areas_read(sl_areas(records)) == records_read(records),
        records.len() > 0 ==> sl_areas(records).len() > 0,
    decreases records.len(),
{
    if records.len() == 0 {
        assert(records_read(records) =~= Seq::empty());
    } else {
        let init = records.drop_last();
        let last = records.last();
        assert forall|i: int| 0 <= i < init.len() implies is_record(#[trigger] init[i]) by {
            assert(is_record(records[i]));
        }
        packed_records(init);
        assert(is_record(records[records.len() - 1]));
        record_is_read(last);
        let before = sl_areas(init);
        let after = sl_areas(records);
        assert(records_read(records) =~= records_read(init) + seq![record_of(last)]);
        if before.len() > 0 && before.last().len() + last.len() <= 250 {
            assert(is_whole(before[before.len() - 1]));
            areas_join(before.last(), last);
            assert(after.drop_last() =~= before.drop_last());
            assert(after.last() == before.last() + last);
            assert(areas_read(after) =~= areas_read(before) + seq![record_of(last)]);
            assert forall|i: int| 0 <= i < after.len() implies is_whole(#[trigger] after[i])
                && after[i].len() <= 250 by {
                if i < before.len() - 1 {
                    assert(is_whole(before[i]) && before[i].len() <= 250);
                }
            }
        } else {
            assert(after.drop_last() =~= before);
            assert(after.last() == last);
            assert forall|i: int| 0 <= i < after.len() implies is_whole(#[trigger] after[i])
                && after[i].len() <= 250 by {
                if i < before.len() {
                    assert(is_whole(before[i]) && before[i].len() <= 250);
                }
            }
        }
    }
}

proof fn sl_is_read(flags: u8, area: Seq<u8>)
    requires
        area.len() <= 250,
    ensures
        is_field(sl_field(flags, area)),
        field_read(sl_field(flags, area)) == FieldView::Link(flags, components_in(area)),
{
    reveal(field_of);
    let payload = seq![flags] + area;
    su_field_is_read(0x53, 0x4C, payload);
    assert(payload.skip(1) =~= area);
}

proof fn link_fields_are_read(fields: Seq<Seq<u8>>, areas: Seq<Seq<u8>>)
    requires
        are_areas(areas),
        fields.len() == areas.len(),
        forall|i: int|
            0 <= i < fields.len() ==> (#[trigger] fields[i] == sl_field(0, areas[i]) || fields[i]
                == sl_field(1, areas[i])),
    ensures
        are_fields(fields),
        components_of(fields_read(fields)) == (if areas.len() == 0 {
            None
        } else {
            Some(areas_read(areas))
        }),
        name_of(fields_read(fields)) is None,
        posix_of(fields_read(fields)) is None,
        times_of(fields_read(fields)) is None,
    decreases fields.len(),
{
    let read = fields_read(fields);
    assert forall|i: int| 0 <= i < fields.len() implies is_field(#[trigger] fields[i]) by {
        assert(is_whole(areas[i]));
        sl_is_read(0, areas[i]);
        sl_is_read(1, areas[i]);
    }
    if fields.len() > 0 {
        let n = fields.len() - 1;
        let init = fields.drop_last();
        let rest = areas.drop_last();
        assert forall|i: int| 0 <= i < rest.len() implies is_whole(#[trigger] rest[i])
            && rest[i].len() <= 250 by {
            assert(is_whole(areas[i]));
        }
        assert forall|i: int| 0 <= i < init.len() implies (#[trigger] init[i] == sl_field(
            0,
            rest[i],
        ) || init[i] == sl_field(1, rest[i])) by {
            assert(fields[i] == sl_field(0, areas[i]) || fields[i] == sl_field(1, areas[i]));
        }
        link_fields_are_read(init, rest);
        assert(read.drop_last() =~= fields_read(init));
        assert(is_whole(areas[n]));
        assert(fields[n] == sl_field(0, areas[n]) || fields[n] == sl_field(1, areas[n]));
        sl_is_read(0, areas[n]);
        sl_is_read(1, areas[n]);
        assert(read.last() == field_read(fields[n]));
        if n == 0 {
            assert(areas_read(rest) =~= Seq::empty());
        }
        assert(or_empty(components_of(fields_read(init))) =~= areas_read(rest));
    }
}

/// The assembly with more text.
spec fn extended(a: Assembly, text: Seq<u8>) -> Seq<u8> {
    (if a.joined {
        a.text
    } else {
        a.text.push(0x2F)
    }) + text
}

proof fn sl_record_is_one(flags: u8, content: Seq<u8>)
    requires
        content.len() <= 248,
    ensures
        is_record(sl_record(flags, content)),
        record_of(sl_record(flags, content)) == (ComponentView { flags, content }),
{
    assert(sl_record(flags, content).skip(2) =~= content);
}

proof fn assembled_one(before: Seq<ComponentView>, c: ComponentView)
    ensures
        assembled(before + seq![c]) == (Assembly {
            text: extended(assembled(before), component_text(c)),
            joined: has_bit(c.flags, 8) || has_bit(c.flags, 1),
        }),
{
    assert((before + seq![c]).drop_last() =~= before);
    assert((before + seq![c]).last() == c);
}

proof fn name_is_assembled(before: Seq<ComponentView>, part: Seq<u8>)
    ensures
        are_records(sl_name_records(part)),
        assembled(before + records_read(sl_name_records(part))) == (Assembly {
            text: extended(assembled(before), part),
            joined: false,
        }),
    decreases part.len(),
{
    let records = sl_name_records(part);
    if part.len() <= 248 {
        sl_record_is_one(0, part);
        let c = ComponentView { flags: 0, content: part };
        assert(records_read(records) =~= seq![c]);
        assembled_one(before, c);
    } else {
        let head = part.take(248);
        let tail = part.skip(248);
        sl_record_is_one(1, head);
        let c = ComponentView { flags: 1, content: head };
        let first = seq![sl_record(1, head)];
        let rest = sl_name_records(tail);
        assembled_one(before, c);
        name_is_assembled(before + seq![c], tail);
        assert(records_read(records) =~= seq![c] + records_read(rest));
        assert(before + records_read(records) =~= before + seq![c] + records_read(rest));
        assert(extended(assembled(before), head) + tail =~= extended(assembled(before), part));
        assert forall|i: int| 0 <= i < records.len() implies is_record(#[trigger] records[i]) by {
            if i > 0 {
                assert(is_record(rest[i - 1]));
            }
        }
    }
}

proof fn part_is_assembled(before: Seq<ComponentView>, part: Seq<u8>)
    ensures
        are_records(sl_records(part)),
        assembled(before + records_read(sl_records(part))) == (Assembly {
            text: extended(assembled(before), part),
            joined: false,
        }),
{
    let nothing = Seq::<u8>::empty();
    sl_record_is_one(2, nothing);
    sl_record_is_one(4, nothing);
    if part == seq![0x2Eu8] {
        let c = ComponentView { flags: 2, content: nothing };
        assert(records_read(sl_records(part)) =~= seq![c]);
        assembled_one(before, c);
    } else if part == seq![0x2Eu8, 0x2Eu8] {
        let c = ComponentView { flags: 4, content: nothing };
        assert(records_read(sl_records(part)) =~= seq![c]);
        assembled_one(before, c);
    } else {
        name_is_assembled(before, part);
    }
}

/// Parts with a slash between each two.
pub open spec fn slashed(parts: Seq<Seq<u8>>) -> Seq<u8>
    decreases parts.len(),
{
    if parts.len() == 0 {
        Seq::empty()
    } else if parts.len() == 1 {
        parts[0]
    } else {
        slashed(parts.drop_last()).push(0x2F) + parts.last()
    }
}

proof fn parts_are_assembled(before: Seq<ComponentView>, parts: Seq<Seq<u8>>)
    requires
        assembled(before).joined,
    ensures
        are_records(sl_parts_records(parts)),
        assembled(before + records_read(sl_parts_records(parts))) == (if parts.len() == 0 {
            assembled(before)
        } else {
            Assembly { text: assembled(before).text + slashed(parts), joined: false }
        }),
        parts.len() > 0 ==> sl_parts_records(parts).len() > 0,
    decreases parts.len(),
{
    let records = sl_parts_records(parts);
    if parts.len() == 0 {
        assert(before + records_read(records) =~= before);
    } else {
        let init = parts.drop_last();
        let last = parts.last();
        parts_are_assembled(before, init);
        let some = sl_parts_records(init);
        let own = sl_records(last);
        let so_far = before + records_read(some);
        part_is_assembled(so_far, last);
        assert(records_read(records) =~= records_read(some) + records_read(own));
        assert(before + records_read(records) =~= so_far + records_read(own));
        let text = assembled(before).text;
        if parts.len() == 1 {
            assert(init =~= Seq::empty());
            assert(extended(assembled(so_far), last) =~= text + slashed(parts));
        } else {
            assert(extended(assembled(so_far), last) =~= text + slashed(parts));
        }
        assert forall|i: int| 0 <= i < records.len() implies is_record(#[trigger] records[i]) by {
            if i < some.len() {
                assert(is_record(some[i]));
            } else {
                assert(is_record(own[i - some.len()]));
            }
        }
    }
}

/// The text of a path: its parts with a slash between each two, and one in front where the
/// path starts with one.
pub open spec fn path_text(target: Seq<u8>) -> Seq<u8> {
    if target.len() > 0 && target[0] == 0x2F {
        seq![0x2Fu8] + slashed(path_parts(target, false))
    } else {
        slashed(path_parts(target, false))
    }
}

proof fn target_is_assembled(target: Seq<u8>)
    requires
        target.len() > 0,
    ensures
        are_records(sl_target_records(target)),
        sl_target_records(target).len() > 0,
        assembled(records_read(sl_target_records(target))).text == path_text(target),
{
    let parts = path_parts(target, false);
    let records = sl_target_records(target);
    let none = Seq::<ComponentView>::empty();
    if target[0] == 0x2F {
        let nothing = Seq::<u8>::empty();
        sl_record_is_one(8, nothing);
        let c = ComponentView { flags: 8, content: nothing };
        assembled_one(none, c);
        let start = seq![c];
        assert(none + start =~= start);
        parts_are_assembled(start, parts);
        assert(assembled(start).text =~= seq![0x2Fu8]);
        let rest = sl_parts_records(parts);
        assert(records_read(records) =~= start + records_read(rest));
        assert forall|i: int| 0 <= i < records.len() implies is_record(#[trigger] records[i]) by {
            if i > 0 {
                assert(is_record(rest[i - 1]));
            }
        }
        if parts.len() == 0 {
            assert(path_text(target) =~= seq![0x2Fu8]);
        }
    } else {
        parts_are_assembled(none, parts);
        assert(none + records_read(records) =~= records_read(records));
        first_part_is_there(target);
        assert(Seq::<u8>::empty() + slashed(parts) =~= slashed(parts));
    }
}

/// A path that does not start with a slash has parts.
proof fn first_part_is_there(s: Seq<u8>)
    requires
        s.len() > 0,
        s[0] != 0x2F,
    ensures
        path_scan(s, false).0.len() > 0 || path_scan(s, false).1.len() > 0,
    decreases s.len(),
{
    if s.len() > 1 {
        first_part_is_there(s.drop_last());
    } else {
        assert(s.drop_last() =~= Seq::empty());
    }
}

/// A link target is read back from its fields, with one slash between each two parts of its
/// path.
pub proof fn link_targets_are_read_back(target: Seq<u8>)
    requires
        target.len() > 0,
    ensures
        are_fields(sl_fields(target)),
        target_of(fields_read(sl_fields(target))) == Some(path_text(target)),
        name_of(fields_read(sl_fields(target))) is None,
        posix_of(fields_read(sl_fields(target))) is None,
        times_of(fields_read(sl_fields(target))) is None,
{
    let records = sl_target_records(target);
    target_is_assembled(target);
    packed_records(records);
    link_fields_are_read(sl_fields(target), sl_areas(records));
}

/// Whether a path has no two slashes in a row.
pub open spec fn is_tidy(s: Seq<u8>) -> bool {
    forall|i: int| 0 <= i < s.len() - 1 ==> !(#[trigger] s[i] == 0x2F && s[i + 1] == 0x2F)
}

/// A path without slashes in a row or at its end is the text of its parts.
pub proof fn tidy_paths_are_their_parts(s: Seq<u8>)
    requires
        is_tidy(s),
        s.len() > 1 ==> s.last() != 0x2F,
    ensures
        path_text(s) == s,
{
    scan_is_text(s);
    let (done, open) = path_scan(s, false);
    if s.len() > 0 && s.last() == 0x2F {
        assert(s.drop_last() =~= Seq::empty());
        assert(path_parts(s, false) =~= Seq::empty());
        assert(path_text(s) =~= s);
    } else if s.len() == 0 {
        assert(path_text(s) =~= s);
    } else {
        assert(path_text(s) =~= s);
    }
}

spec fn front(s: Seq<u8>) -> Seq<u8> {
    if s.len() > 0 && s[0] == 0x2F {
        seq![0x2Fu8]
    } else {
        Seq::empty()
    }
}

proof fn scan_is_text(s: Seq<u8>)
    requires
        is_tidy(s),
    ensures
        ({
            let (done, open) = path_scan(s, false);
            &&& s.len() > 0 && s.last() != 0x2F ==> open.len() > 0
            &&& s.len() == 0 || s.last() == 0x2F ==> open.len() == 0
            &&& s == (if open.len() > 0 {
                front(s) + slashed(done.push(open))
            } else if done.len() > 0 {
                front(s) + slashed(done).push(0x2F)
            } else {
                front(s)
            })
        }),
    decreases s.len(),
{
    let (done, open) = path_scan(s, false);
    if s.len() == 0 {
        assert(front(s) =~= s);
    } else {
        let init = s.drop_last();
        let last = s.last();
        assert forall|i: int| 0 <= i < init.len() - 1 implies !(#[trigger] init[i] == 0x2F
            && init[i + 1] == 0x2F) by {
            assert(s[i] == init[i] && s[i + 1] == init[i + 1]);
        }
        scan_is_text(init);
        let (before, part) = path_scan(init, false);
        if init.len() > 0 {
            assert(front(init) =~= front(s));
            assert(!(s[s.len() - 2] == 0x2F && s[s.len() - 2 + 1] == 0x2F));
            assert(init.last() == s[s.len() - 2]);
        }
        assert(s =~= init.push(last));
        if last == 0x2F {
            if part.len() > 0 {
                assert(done == before.push(part));
                assert(s =~= front(s) + slashed(done).push(0x2F));
            } else {
                assert(init.len() == 0);
                assert(init =~= Seq::empty());
                assert(done.len() == 0);
                assert(s =~= front(s));
            }
        } else {
            assert(open == part.push(last));
            let all = done.push(open);
            assert(all.drop_last() =~= before);
            assert(all.last() == open);
            if part.len() > 0 {
                let old_all = before.push(part);
                assert(old_all.drop_last() =~= before);
                assert(old_all.last() == part);
                assert(slashed(all) =~= slashed(old_all).push(last));
            } else {
                assert(part =~= Seq::empty());
                assert(open =~= seq![last]);
                if before.len() > 0 {
                    assert(slashed(all) =~= slashed(before).push(0x2F).push(last));
                } else {
                    assert(slashed(all) =~= seq![last]);
                }
            }
            assert(s =~= front(s) + slashed(all));
        }
    }
}

/// The POSIX attributes of an entry. Permissions and owner come from the metadata where
/// they are kept and known.
pub open spec fn posix_entry(
    options: RripOptions,
    inode: u32,
    metadata: InputMetadata,
    type_mode: u32,
    default_permissions: u32,
    nlink: u32,
) -> PxEntry {
    PxEntry {
        file_mode: type_mode | (match metadata.mode {
            Some(mode) if options.preserve_permissions => mode,
            _ => default_permissions,
        }),
        file_links: nlink,
        file_uid: match metadata.uid {
            Some(uid) if options.preserve_ownership => uid,
            _ => 0,
        },
        file_gid: match metadata.gid {
            Some(gid) if options.preserve_ownership => gid,
            _ => 0,
        },
        file_serial: Some(inode),
    }
}

/// The times of an entry where they are kept.
pub open spec fn entry_times(
    options: RripOptions,
    fallback: Seq<u8>,
    metadata: InputMetadata,
) -> Option<RripTimestamps> {
    if options.preserve_timestamps {
        Some(
            RripTimestamps {
                creation: match metadata.created {
                    Some(secs) => Some(short_time(rrip_time_of(Some(secs), fallback))),
                    None => None,
                },
                modify: Some(short_time(rrip_time_of(metadata.modified, fallback))),
                access: Some(short_time(rrip_time_of(metadata.accessed, fallback))),
            },
        )
    } else {
        None
    }
}

proof fn posix_fields_are_read(
    options: RripOptions,
    fallback: Seq<u8>,
    inode: u32,
    metadata: InputMetadata,
    type_mode: u32,
    default_permissions: u32,
    nlink: u32,
)
    requires
        fallback.len() == 7,
    ensures
        ({
            let fields = posix_fields(
                options,
                fallback,
                inode,
                metadata,
                type_mode,
                default_permissions,
                nlink,
            );
            let read = fields_read(fields);
            &&& are_fields(fields)
            &&& name_of(read) is None
            &&& components_of(read) is None
            &&& posix_of(read) == Some(
                posix_entry(options, inode, metadata, type_mode, default_permissions, nlink),
            )
            &&& times_of(read) == entry_times(options, fallback, metadata)
        }),
{
    let fields = posix_fields(
        options,
        fallback,
        inode,
        metadata,
        type_mode,
        default_permissions,
        nlink,
    );
    let entry = posix_entry(options, inode, metadata, type_mode, default_permissions, nlink);
    posix_attributes_are_read_back(
        entry.file_mode,
        nlink,
        entry.file_uid,
        entry.file_gid,
        inode,
    );
    let px = px_field(entry.file_mode, nlink, entry.file_uid, entry.file_gid, inode);
    let first = seq![field_read(px)];
    one_field(field_read(px));
    assert(fields[0] == px);
    if options.preserve_timestamps {
        let created: Option<Seq<u8>> = match metadata.created {
            Some(secs) => Some(rrip_time_of(Some(secs), fallback)),
            None => None,
        };
        let modified = rrip_time_of(metadata.modified, fallback);
        let accessed = rrip_time_of(metadata.accessed, fallback);
        let tf = tf_field(created, modified, accessed);
        timestamps_are_read_back(created, modified, accessed);
        one_field(field_read(tf));
        let second = seq![field_read(tf)];
        assert(fields_read(fields) =~= first + second);
        names_join(first, second);
        links_join(first, second);
        attributes_join(first, second);
    } else {
        assert(fields_read(fields) =~= first);
    }
}

proof fn special_fields_are_read(kind: KindView)
    ensures
        ({
            let fields = special_fields(kind);
            let read = fields_read(fields);
            &&& are_fields(fields)
            &&& name_of(read) is None
            &&& posix_of(read) is None
            &&& times_of(read) is None
            &&& target_of(read) == (match kind {
                KindView::Symlink(target) if target.len() > 0 => Some(
                    path_text(encode_utf8(target)),
                ),
                _ => None,
            })
        }),
{
    let fields = special_fields(kind);
    match kind {
        KindView::Symlink(target) => {
            let bytes = encode_utf8(target);
            if target.len() > 0 {
                vstd::utf8::encode_utf8_decode_utf8(target);
                assert(bytes.len() > 0);
                link_targets_are_read_back(bytes);
            } else {
                assert(bytes =~= Seq::empty());
                assert(sl_target_records(bytes) =~= Seq::empty());
                assert(fields =~= Seq::empty());
                assert(fields_read(fields) =~= Seq::empty());
            }
        },
        KindView::CharacterDevice(high, low) => {
            device_numbers_are_read_back(high, low);
            assert(fields_read(fields) =~= seq![field_read(pn_field(high, low))]);
            one_field(field_read(pn_field(high, low)));
        },
        KindView::BlockDevice(high, low) => {
            device_numbers_are_read_back(high, low);
            assert(fields_read(fields) =~= seq![field_read(pn_field(high, low))]);
            one_field(field_read(pn_field(high, low)));
        },
        _ => {
            assert(fields_read(fields) =~= Seq::empty());
        },
    }
}

/// What is written of a file, link or device is read back: its name, POSIX attributes and
/// times, and where a link leads.
pub proof fn entries_are_read_back(
    kind: RripEntryKind,
    inode: u32,
    options: RripOptions,
    fallback: Seq<u8>,
)
    requires
        kind is Entry,
        fallback.len() == 7,
    ensures
        kind matches RripEntryKind::Entry { original_name, metadata, kind: entry } ==> {
            let fields = rrip_fields(kind, inode, options, fallback);
            let read = fields_read(fields);
            let (type_mode, permissions) = mode_of(entry.view());
            &&& are_fields(fields)
            &&& name_of(read) == Some(encode_utf8(original_name@))
            &&& posix_of(read) == Some(
                posix_entry(options, inode, metadata, type_mode, permissions, 1),
            )
            &&& times_of(read) == entry_times(options, fallback, metadata)
            &&& target_of(read) == (match entry.view() {
                KindView::Symlink(target) if target.len() > 0 => Some(
                    path_text(encode_utf8(target)),
                ),
                _ => None,
            })
        },
{
    match kind {
        RripEntryKind::Entry { original_name, metadata, kind: entry } => {
            let (type_mode, permissions) = mode_of(entry.view());
            let a = posix_fields(options, fallback, inode, metadata, type_mode, permissions, 1);
            let b = nm_fields(encode_utf8(original_name@));
            let c = special_fields(entry.view());
            posix_fields_are_read(
                options,
                fallback,
                inode,
                metadata,
                type_mode,
                permissions,
                1,
            );
            names_are_read_back(encode_utf8(original_name@));
            special_fields_are_read(entry.view());
            fields_join(a, b);
            fields_join(a + b, c);
        },
        _ => {},
    }
}

/// What is written of a directory in its parent is read back: its name, POSIX attributes
/// and times.
pub proof fn directories_are_read_back(
    kind: RripEntryKind,
    inode: u32,
    options: RripOptions,
    fallback: Seq<u8>,
)
    requires
        kind is Directory,
        fallback.len() == 7,
    ensures
        kind matches RripEntryKind::Directory { original_name, metadata, nlink } ==> {
            let fields = rrip_fields(kind, inode, options, fallback);
            let read = fields_read(fields);
            &&& are_fields(fields)
            &&& name_of(read) == Some(encode_utf8(original_name@))
            &&& posix_of(read) == Some(
                posix_entry(options, inode, metadata, 0x4000, 0x1ED, nlink),
            )
            &&& times_of(read) == entry_times(options, fallback, metadata)
            &&& target_of(read) is None
        },
{
    match kind {
        RripEntryKind::Directory { original_name, metadata, nlink } => {
            let a = posix_fields(options, fallback, inode, metadata, 0x4000, 0x1ED, nlink);
            let b = nm_fields(encode_utf8(original_name@));
            posix_fields_are_read(options, fallback, inode, metadata, 0x4000, 0x1ED, nlink);
            names_are_read_back(encode_utf8(original_name@));
            fields_join(a, b);
        },
        _ => {},
    }
}

/// The records of a directory itself and of its parent are read back as `.` and `..`.
pub proof fn dot_records_are_read_back(
    metadata: InputMetadata,
    nlink: u32,
    inode: u32,
    options: RripOptions,
    fallback: Seq<u8>,
)
    requires
        fallback.len() == 7,
    ensures
        ({
            let dot = rrip_fields(
                RripEntryKind::Dot { metadata, nlink },
                inode,
                options,
                fallback,
            );
            let dotdot = rrip_fields(
                RripEntryKind::DotDot { metadata, nlink },
                inode,
                options,
                fallback,
            );
            &&& are_fields(dot) && name_of(fields_read(dot)) == Some(seq![0x2Eu8])
            &&& are_fields(dotdot) && name_of(fields_read(dotdot)) == Some(seq![0x2Eu8, 0x2Eu8])
        }),
{
    let a = posix_fields(options, fallback, inode, metadata, 0x4000, 0x1ED, nlink);
    posix_fields_are_read(options, fallback, inode, metadata, 0x4000, 0x1ED, nlink);
    let nothing = Seq::<u8>::empty();
    special_name_is_read(2);
    special_name_is_read(4);
    fields_join(a, seq![nm_field(2, nothing)]);
    fields_join(a, seq![nm_field(4, nothing)]);
}

proof fn special_name_is_read(flags: u8)
    ensures
        are_fields(seq![nm_field(flags, Seq::empty())]),
        name_of(fields_read(seq![nm_field(flags, Seq::empty())])) == Some(
            name_part(flags, Seq::empty()),
        ),
{
    let nothing = Seq::<u8>::empty();
    nm_is_read(flags, nothing);
    one_field(FieldView::Name(flags, nothing));
    assert(fields_read(seq![nm_field(flags, nothing)]) =~= seq![FieldView::Name(flags, nothing)]);
}

/// In the root's own record the first field is the SP field, and the name `.` is read back.
pub proof fn root_record_is_read_back(
    metadata: InputMetadata,
    nlink: u32,
    inode: u32,
    options: RripOptions,
    fallback: Seq<u8>,
)
    requires
        fallback.len() == 7,
    ensures
        ({
            let fields = rrip_fields(
                RripEntryKind::RootDot { metadata, nlink },
                inode,
                options,
                fallback,
            );
            &&& are_fields(fields)
            &&& fields_read(fields)[0] == FieldView::Identifier(0)
            &&& name_of(fields_read(fields)) == Some(seq![0x2Eu8])
        }),
{
    let a = posix_fields(options, fallback, inode, metadata, 0x4000, 0x1ED, nlink);
    posix_fields_are_read(options, fallback, inode, metadata, 0x4000, 0x1ED, nlink);
    let current = nm_field(2, Seq::empty());
    let sp = seq![sp_field(0)];
    let er = er_field();
    special_name_is_read(2);
    sp_is_read();
    er_is_read();
    one_field(field_read(sp_field(0)));
    one_field(field_read(er));
    assert(fields_read(sp) =~= seq![field_read(sp_field(0))]);
    assert(fields_read(seq![er]) =~= seq![field_read(er)]);
    assert(seq![current, er] =~= seq![current] + seq![er]);
    fields_join(seq![current], seq![er]);
    fields_join(sp, a);
    fields_join(sp + a, seq![current, er]);
}

proof fn sp_is_read()
    ensures
        is_field(sp_field(0)),
        field_read(sp_field(0)) == FieldView::Identifier(0),
{
    reveal(field_of);
    su_field_is_read(0x53, 0x50, seq![0xBEu8, 0xEFu8, 0u8]);
}

proof fn er_is_read()
    ensures
        is_field(er_field()),
        field_read(er_field()) is Other,
{
    reveal(field_of);
    er_lengths();
    su_field_is_read(
        0x45,
        0x52,
        seq![
            er_id().len() as u8,
            er_descriptor().len() as u8,
            er_source().len() as u8,
            1u8,
        ] + er_id() + er_descriptor() + er_source(),
    );
}

/// What fields and further fields say together.
proof fn fields_join(a: Seq<Seq<u8>>, b: Seq<Seq<u8>>)
    requires
        are_fields(a),
        are_fields(b),
    ensures
        are_fields(a + b),
        fields_read(a + b) == fields_read(a) + fields_read(b),
        name_of(fields_read(a + b)) == (match (
            name_of(fields_read(a)),
            name_of(fields_read(b)),
        ) {
            (Some(x), Some(y)) => Some(x + y),
            (None, y) => y,
            (x, None) => x,
        }),
        components_of(fields_read(a + b)) == (match (
            components_of(fields_read(a)),
            components_of(fields_read(b)),
        ) {
            (Some(x), Some(y)) => Some(x + y),
            (None, y) => y,
            (x, None) => x,
        }),
        posix_of(fields_read(a + b)) == (if posix_of(fields_read(b)) is Some {
            posix_of(fields_read(b))
        } else {
            posix_of(fields_read(a))
        }),
        times_of(fields_read(a + b)) == (if times_of(fields_read(b)) is Some {
            times_of(fields_read(b))
        } else {
            times_of(fields_read(a))
        }),
{
    read_joins(a, b);
    names_join(fields_read(a), fields_read(b));
    links_join(fields_read(a), fields_read(b));
    attributes_join(fields_read(a), fields_read(b));
}

/// The fields of a record: those in it, and behind them those in its continuation area,
/// which a CE field points to.
pub open spec fn record_fields(inline: Seq<u8>, overflow: Seq<u8>) -> Seq<FieldView> {
    if overflow.len() == 0 {
        fields_from(inline, 0)
    } else {
        fields_from(inline, 0).drop_last() + fields_from(overflow, 0)
    }
}

proof fn concat_is_not_empty(fields: Seq<Seq<u8>>)
    requires
        are_fields(fields),
        fields.len() > 0,
    ensures
        concat(fields).len() > 0,
{
    assert(is_field(fields[fields.len() - 1]));
}

/// The fields that a record is made of are read back from it, wherever its continuation
/// area lies.
pub proof fn record_fields_are_read_back(
    name: Seq<u8>,
    fields: Seq<Seq<u8>>,
    dir_ref: DirectoryRef,
    flags: FileFlags,
    sector: u32,
    offset: u32,
)
    requires
        are_fields(fields),
    ensures
        ({
            let r = record_with(name, fields, dir_ref, flags);
            &&& record_fields(r.inline, r.overflow) == fields_read(fields)
            &&& r.overflow.len() > 0 ==> record_fields(
                r.inline.take(r.inline.len() - 28) + ce_field(
                    sector,
                    offset,
                    r.overflow.len() as u32,
                ),
                r.overflow,
            ) == fields_read(fields)
        }),
{
    let max = su_space(name.len() as int);
    let k = inline_count(fields, max) as int;
    let r = record_with(name, fields, dir_ref, flags);
    let read = fields_read(fields);
    inline_count_bounds(fields, max);
    split_fields_are_read_back(fields, max, sector, offset);
    split_fields_are_read_back(fields, max, 0, 0);
    if k == fields.len() {
        assert(fields.skip(k) =~= Seq::empty());
        assert(r.overflow =~= Seq::empty());
    } else {
        let rest = fields.skip(k);
        assert forall|i: int| 0 <= i < rest.len() implies is_field(#[trigger] rest[i]) by {
            assert(is_field(fields[i + k]));
        }
        concat_is_not_empty(rest);
        let len = r.overflow.len() as u32;
        ce_is_read(0, 0, len);
        let kept = concat(fields.take(k));
        assert(r.inline == kept + ce_field(0, 0, len));
        assert(r.inline.take(r.inline.len() - 28) =~= kept);
        assert(r.inline.take(r.inline.len() - 28) + ce_field(0, 0, len) =~= r.inline);
        let ce = FieldView::Continuation(CeEntry { sector: 0, offset: 0, length: len });
        let other = FieldView::Continuation(CeEntry { sector, offset, length: len });
        assert(read.take(k).push(ce).drop_last() =~= read.take(k));
        assert(read.take(k).push(other).drop_last() =~= read.take(k));
        assert(read.take(k) + read.skip(k) =~= read);
    }
}

/// The first record of a file says its name, its POSIX attributes and times, and where it
/// leads if it is a link.
pub proof fn file_record_is_read_back(file: FileView, inode: u32, c: Context)
    requires
        c.has_rrip,
        c.fallback.len() == 7,
    ensures
        ({
            let r = file_records(file, inode, c)[0];
            let read = record_fields(r.inline, r.overflow);
            let (type_mode, permissions) = mode_of(file.kind);
            &&& name_of(read) == Some(encode_utf8(file.name))
            &&& posix_of(read) == Some(
                posix_entry(c.options, inode, file.metadata, type_mode, permissions, 1),
            )
            &&& times_of(read) == entry_times(c.options, c.fallback, file.metadata)
            &&& target_of(read) == (match file.kind {
                KindView::Symlink(target) if target.len() > 0 => Some(
                    path_text(encode_utf8(target)),
                ),
                _ => None,
            })
        }),
{
    let (type_mode, permissions) = mode_of(file.kind);
    let m = file.metadata;
    let a = posix_fields(c.options, c.fallback, inode, m, type_mode, permissions, 1);
    let b = nm_fields(encode_utf8(file.name));
    let d = special_fields(file.kind);
    posix_fields_are_read(c.options, c.fallback, inode, m, type_mode, permissions, 1);
    names_are_read_back(encode_utf8(file.name));
    special_fields_are_read(file.kind);
    fields_join(a, b);
    fields_join(a + b, d);
    let n = 1 + file.additional_extents.len() as int;
    record_fields_are_read_back(
        file_identifier(c.ty, file.name),
        a + b + d,
        file.entry,
        extent_flags(0, n),
        0,
        0,
    );
}

/// The record of a child directory says its name, its POSIX attributes and times, and
/// whether it stands for a relocated directory or is one.
pub proof fn child_record_is_read_back(dir: DirView, inode: u32, c: Context)
    requires
        c.has_rrip,
        c.fallback.len() == 7,
        child_record(dir, inode, c) is Ok,
    ensures
        ({
            let r = child_record(dir, inode, c)->Ok_0;
            let read = record_fields(r.inline, r.overflow);
            &&& name_of(read) == Some(encode_utf8(dir.rrip_name))
            &&& posix_of(read) == Some(
                posix_entry(c.options, inode, dir.metadata, 0x4000, 0x1ED, nlink_of(dir)),
            )
            &&& times_of(read) == entry_times(c.options, c.fallback, dir.metadata)
            &&& target_of(read) is None
            &&& match dir.relocation {
                DirectoryRelocation::Placeholder { target } => read.last() == FieldView::Child(
                    c.refs[DirKey { id: target, ty: c.ty }].extent.0 as u32,
                ),
                DirectoryRelocation::Moved { .. } => read.last() == FieldView::Relocated,
                DirectoryRelocation::InPlace => true,
            }
        }),
{
    reveal(child_record);
    let m = dir.metadata;
    let a = dir_posix(dir, inode, c);
    let b = nm_fields(encode_utf8(dir.rrip_name));
    posix_fields_are_read(c.options, c.fallback, inode, m, 0x4000, 0x1ED, nlink_of(dir));
    names_are_read_back(encode_utf8(dir.rrip_name));
    fields_join(a, b);
    let name = base_identifier(c.ty, dir.name);
    let at = dir_ref(dir, c.ty, c.refs);
    let flags = FileFlags { bits: 0x02 };
    match dir.relocation {
        DirectoryRelocation::Placeholder { target } => {
            let sector = c.refs[DirKey { id: target, ty: c.ty }].extent.0 as u32;
            child_link_is_read(sector);
            with_last_field(a + b, cl_field(sector));
            record_fields_are_read_back(name, (a + b).push(cl_field(sector)), at, flags, 0, 0);
        },
        DirectoryRelocation::Moved { .. } => {
            relocated_is_read();
            with_last_field(a + b, re_field());
            record_fields_are_read_back(name, (a + b).push(re_field()), at, flags, 0, 0);
        },
        DirectoryRelocation::InPlace => {
            record_fields_are_read_back(name, a + b, at, flags, 0, 0);
        },
    }
}

proof fn with_last_field(fields: Seq<Seq<u8>>, f: Seq<u8>)
    requires
        are_fields(fields),
        is_field(f),
        field_read(f) is Child || field_read(f) is Relocated,
    ensures
        are_fields(fields.push(f)),
        fields_read(fields.push(f)).last() == field_read(f),
        name_of(fields_read(fields.push(f))) == name_of(fields_read(fields)),
        posix_of(fields_read(fields.push(f))) == posix_of(fields_read(fields)),
        times_of(fields_read(fields.push(f))) == times_of(fields_read(fields)),
        components_of(fields_read(fields.push(f))) == components_of(fields_read(fields)),
{
    let all = fields.push(f);
    let read = fields_read(all);
    assert(read.drop_last() =~= fields_read(fields));
    assert(read.last() == field_read(f));
    assert forall|i: int| 0 <= i < all.len() implies is_field(#[trigger] all[i]) by {
        if i < fields.len() {
            assert(is_field(fields[i]));
        }
    }
}

proof fn child_link_is_read(sector: u32)
    ensures
        is_field(cl_field(sector)),
        field_read(cl_field(sector)) == FieldView::Child(sector),
{
    reveal(field_of);
    number_is_read(Seq::empty(), sector, Seq::empty());
    assert(both32(sector) =~= Seq::<u8>::empty() + both32(sector) + Seq::<u8>::empty());
    su_field_is_read(0x43, 0x4C, both32(sector));
}

proof fn relocated_is_read()
    ensures
        is_field(re_field()),
        field_read(re_field()) == FieldView::Relocated,
{
    reveal(field_of);
    su_field_is_read(0x52, 0x45, Seq::empty());
}

} // verus!
