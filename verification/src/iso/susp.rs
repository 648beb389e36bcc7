//! System Use fields: the Rock Ridge field builder and the split between a directory
//! record and its continuation area.

use crate::bytes::{push_all, push_be32, push_le32};
#[allow(unused_imports)]
use crate::bytes::{be32, le32};
use crate::iso::time::RripTime;
use crate::text::path_components;
#[allow(unused_imports)]
use crate::text::path_parts;
use vstd::prelude::*;
#[allow(unused_imports)]
use vstd::utf8::encode_utf8;

verus! {

/// A number in both byte orders, least significant byte first, then the other.
pub open spec fn both32(x: u32) -> Seq<u8> {
    le32(x) + be32(x)
}

/// Appends a number in both byte orders.
pub fn push_both32(out: &mut Vec<u8>, x: u32)
    ensures
        final(out)@ == old(out)@ + both32(x),
{
    push_le32(out, x);
    push_be32(out, x);
    assert(out@ =~= old(out)@ + both32(x));
}

/// A System Use field: signature, length, version 1, payload.
pub open spec fn su_field(a: u8, b: u8, payload: Seq<u8>) -> Seq<u8> {
    seq![a, b, (4 + payload.len()) as u8, 1u8] + payload
}

/// SP: the check bytes and how many bytes to skip in other records.
pub open spec fn sp_field(skip: u8) -> Seq<u8> {
    su_field(0x53, 0x50, seq![0xBEu8, 0xEFu8, skip])
}

/// PX: mode, links, owner, group, serial number.
pub open spec fn px_field(mode: u32, nlink: u32, uid: u32, gid: u32, inode: u32) -> Seq<u8> {
    su_field(0x50, 0x58, both32(mode) + both32(nlink) + both32(uid) + both32(gid) + both32(inode))
}

/// TF: flags, then the creation time where there is one, the modification time and the
/// access time.
pub open spec fn tf_field(
    created: Option<Seq<u8>>,
    modified: Seq<u8>,
    accessed: Seq<u8>,
) -> Seq<u8> {
    match created {
        Some(c) => su_field(0x54, 0x46, seq![0x07u8] + c + modified + accessed),
        None => su_field(0x54, 0x46, seq![0x06u8] + modified + accessed),
    }
}

/// NM: flags and a part of the name.
pub open spec fn nm_field(flags: u8, name: Seq<u8>) -> Seq<u8> {
    su_field(0x4E, 0x4D, seq![flags] + name)
}

/// The NM fields of a name: parts of 250 bytes, all but the last marked as continued.
pub open spec fn nm_fields(name: Seq<u8>) -> Seq<Seq<u8>>
    decreases name.len(),
{
    if name.len() <= 250 {
        seq![nm_field(0, name)]
    } else {
        seq![nm_field(1, name.take(250))] + nm_fields(name.skip(250))
    }
}

/// PN: the two halves of a device number.
pub open spec fn pn_field(high: u32, low: u32) -> Seq<u8> {
    su_field(0x50, 0x4E, both32(high) + both32(low))
}

/// CL: where the relocated child lies.
pub open spec fn cl_field(sector: u32) -> Seq<u8> {
    su_field(0x43, 0x4C, both32(sector))
}

/// PL: where the logical parent lies.
pub open spec fn pl_field(sector: u32) -> Seq<u8> {
    su_field(0x50, 0x4C, both32(sector))
}

/// RE: this directory was relocated.
pub open spec fn re_field() -> Seq<u8> {
    su_field(0x52, 0x45, Seq::empty())
}

/// CE: where the continuation area lies: sector, offset in it, length.
pub open spec fn ce_field(sector: u32, offset: u32, len: u32) -> Seq<u8> {
    su_field(0x43, 0x45, both32(sector) + both32(offset) + both32(len))
}

/// Identifier of the Rock Ridge extension.
pub open spec fn er_id() -> Seq<u8> {
    encode_utf8("RRIP_1991A"@)
}

/// Descriptor of the Rock Ridge extension.
pub open spec fn er_descriptor() -> Seq<u8> {
    encode_utf8(
        "THE ROCK RIDGE INTERCHANGE PROTOCOL PROVIDES SUPPORT FOR POSIX FILE SYSTEM SEMANTICS"@,
    )
}

/// Source of the Rock Ridge extension's description.
pub open spec fn er_source() -> Seq<u8> {
    encode_utf8(
        "PLEASE CONTACT DISC PUBLISHER FOR SPECIFICATION SOURCE.  SEE PUBLISHER IDENTIFIER IN PRIMARY VOLUME DESCRIPTOR FOR CONTACT INFORMATION."@,
    )
}

/// ER: the Rock Ridge extension is in use.
pub open spec fn er_field() -> Seq<u8> {
    su_field(
        0x45,
        0x52,
        seq![
            er_id().len() as u8,
            er_descriptor().len() as u8,
            er_source().len() as u8,
            1u8,
        ] + er_id() + er_descriptor() + er_source(),
    )
}

/// A component record of a symbolic link.
pub open spec fn sl_record(flags: u8, content: Seq<u8>) -> Seq<u8> {
    seq![flags, content.len() as u8] + content
}

/// The component records of one path component: `.` and `..` have records of their
/// own, and any other name is cut into parts of 248 bytes, all but the last marked as
/// continued.
pub open spec fn sl_records(part: Seq<u8>) -> Seq<Seq<u8>>
    decreases part.len(),
{
    if part == seq![0x2Eu8] {
        seq![sl_record(2, Seq::empty())]
    } else if part == seq![0x2Eu8, 0x2Eu8] {
        seq![sl_record(4, Seq::empty())]
    } else {
        sl_name_records(part)
    }
}

/// The component records of a name.
pub open spec fn sl_name_records(part: Seq<u8>) -> Seq<Seq<u8>>
    decreases part.len(),
{
    if part.len() <= 248 {
        seq![sl_record(0, part)]
    } else {
        seq![sl_record(1, part.take(248))] + sl_name_records(part.skip(248))
    }
}

/// The component records of the first `n` parts of a path.
pub open spec fn sl_parts_records(parts: Seq<Seq<u8>>) -> Seq<Seq<u8>>
    decreases parts.len(),
{
    if parts.len() == 0 {
        Seq::empty()
    } else {
        sl_parts_records(parts.drop_last()) + sl_records(parts.last())
    }
}

/// The component records of a link target: the root where it starts with a slash, then
/// its parts.
pub open spec fn sl_target_records(target: Seq<u8>) -> Seq<Seq<u8>> {
    if target.len() > 0 && target[0] == 0x2F {
        seq![sl_record(8, Seq::empty())] + sl_parts_records(path_parts(target, false))
    } else {
        sl_parts_records(path_parts(target, false))
    }
}

/// Component records packed into areas of at most 250 bytes, in order.
pub open spec fn sl_areas(records: Seq<Seq<u8>>) -> Seq<Seq<u8>>
    decreases records.len(),
{
    if records.len() == 0 {
        Seq::empty()
    } else {
        let before = sl_areas(records.drop_last());
        let last = records.last();
        if before.len() > 0 && before.last().len() + last.len() <= 250 {
            before.drop_last().push(before.last() + last)
        } else {
            before.push(last)
        }
    }
}

/// SL: flags and component records.
pub open spec fn sl_field(flags: u8, area: Seq<u8>) -> Seq<u8> {
    su_field(0x53, 0x4C, seq![flags] + area)
}

/// The SL fields of a link target, all but the last marked as continued.
pub open spec fn sl_fields(target: Seq<u8>) -> Seq<Seq<u8>> {
    let areas = sl_areas(sl_target_records(target));
    Seq::new(
        areas.len(),
        |i: int|
            sl_field(
                if i + 1 < areas.len() {
                    1u8
                } else {
                    0u8
                },
                areas[i],
            ),
    )
}

/// The fields one after the other.
pub open spec fn concat(fields: Seq<Seq<u8>>) -> Seq<u8>
    decreases fields.len(),
{
    if fields.len() == 0 {
        Seq::empty()
    } else {
        concat(fields.drop_last()) + fields.last()
    }
}

/// How many of the fields, taken in order, fit into `budget` bytes.
pub open spec fn fitting(fields: Seq<Seq<u8>>, budget: int) -> nat
    decreases fields.len(),
{
    if fields.len() == 0 || fields[0].len() > budget {
        0
    } else {
        1 + fitting(fields.drop_first(), budget - fields[0].len())
    }
}

/// How many fields stay in the record where `max` bytes are free in it: all of them
/// where they fit, else those that fit beside a CE field.
pub open spec fn inline_count(fields: Seq<Seq<u8>>, max: int) -> nat {
    if fitting(fields, max) == fields.len() {
        fields.len()
    } else if max < 28 {
        fitting(fields, 0)
    } else {
        fitting(fields, max - 28)
    }
}

/// The System Use bytes that go to the continuation area.
pub open spec fn split_overflow(fields: Seq<Seq<u8>>, max: int) -> Seq<u8> {
    concat(fields.skip(inline_count(fields, max) as int))
}

/// The System Use bytes that stay in the record.
pub open spec fn split_inline(fields: Seq<Seq<u8>>, max: int) -> Seq<u8> {
    let kept = concat(fields.take(inline_count(fields, max) as int));
    if inline_count(fields, max) == fields.len() {
        kept
    } else {
        kept + ce_field(0, 0, split_overflow(fields, max).len() as u32)
    }
}

/// The views of the fields.
pub open spec fn views(fields: Seq<Vec<u8>>) -> Seq<Seq<u8>> {
    Seq::new(fields.len(), |i: int| fields[i]@)
}

/// The two parts of a System Use area.
#[derive(Debug, Clone)]
pub struct SplitSu {
    /// What stays in the directory record.
    pub inline: Vec<u8>,
    /// What goes to the continuation area.
    pub overflow: Vec<u8>,
}

impl SplitSu {
    /// Whether a non-empty overflow is announced by a CE field at the end of the record.
    pub open spec fn wf(&self) -> bool {
        self.overflow@.len() > 0 ==> self.inline@.len() >= 28
    }

    /// No System Use data.
    pub fn empty() -> (r: Self)
        ensures
            r.inline@ == Seq::<u8>::empty(),
            r.overflow@ == Seq::<u8>::empty(),
    {
        SplitSu { inline: Vec::new(), overflow: Vec::new() }
    }

    /// Whether there is a continuation area.
    pub fn has_overflow(&self) -> (r: bool)
        ensures
            r == (self.overflow@.len() > 0),
    {
        self.overflow.len() > 0
    }

    /// Points the CE field, the last 28 bytes of the record's part, at the continuation
    /// area.
    pub fn patch_ce(&mut self, sector: u32, offset: u32)
        requires
            old(self).inline@.len() >= 28,
        ensures
            final(self).overflow@ == old(self).overflow@,
            final(self).inline@ == old(self).inline@.take(old(self).inline@.len() - 28) + ce_field(
                sector,
                offset,
                old(self).overflow@.len() as u32,
            ),
    {
        let n: usize = self.inline.len() - 28;
        let len: u32 = self.overflow.len() as u32;
        self.inline.truncate(n);
        push_ce(&mut self.inline, sector, offset, len);
    }
}

fn push_header(out: &mut Vec<u8>, a: u8, b: u8, payload_len: usize)
    requires
        payload_len <= 251,
    ensures
        final(out)@ == old(out)@ + seq![a, b, (4 + payload_len) as u8, 1u8],
{
    out.push(a);
    out.push(b);
    out.push((4 + payload_len) as u8);
    out.push(1);
    assert(out@ =~= old(out)@ + seq![a, b, (4 + payload_len) as u8, 1u8]);
}

fn push_ce(out: &mut Vec<u8>, sector: u32, offset: u32, len: u32)
    ensures
        final(out)@ == old(out)@ + ce_field(sector, offset, len),
{
    push_header(out, 0x43, 0x45, 24);
    push_both32(out, sector);
    push_both32(out, offset);
    push_both32(out, len);
    assert(out@ =~= old(out)@ + ce_field(sector, offset, len));
}

/// Collects System Use fields, most important first.
#[derive(Debug)]
pub struct RripBuilder {
    /// The fields.
    pub fields: Vec<Vec<u8>>,
}

impl RripBuilder {
    /// The fields' bytes.
    pub open spec fn view(&self) -> Seq<Seq<u8>> {
        views(self.fields@)
    }

    /// No fields.
    pub fn new() -> (r: Self)
        ensures
            r@ == Seq::<Seq<u8>>::empty(),
    {
        let r: RripBuilder = RripBuilder { fields: Vec::new() };
        assert(r@ =~= Seq::<Seq<u8>>::empty());
        r
    }

    fn add_field(&mut self, field: Vec<u8>)
        ensures
            final(self)@ == old(self)@.push(field@),
    {
        self.fields.push(field);
        assert(self@ =~= old(self)@.push(field@));
    }

    /// Bytes of all fields.
    pub fn total_len(&self) -> (r: u128)
        ensures
            r == concat(self@).len(),
            r <= 0xFFFF_FFFF_FFFF_FFFE_0000_0000_0000_0001,
    {
        let ghost all = self@;
        let mut total: u128 = 0;
        let mut i: usize = 0;
        let count: usize = self.fields.len();
        assert(count == self.fields@.len());
        assert(all.take(0) =~= Seq::empty());
        while i < self.fields.len()
            invariant
                i <= self.fields@.len(),
                all == self@,
                total == concat(all.take(i as int)).len(),
                total <= i * 0xFFFF_FFFF_FFFF_FFFF,
                self.fields@.len() <= 0xFFFF_FFFF_FFFF_FFFF,
            decreases self.fields.len() - i,
        {
            let n: usize = self.fields[i].len();
            proof {
                assert(all[i as int].len() == n);
                assert(all.take(i + 1).drop_last() =~= all.take(i as int));
                assert((i + 1) * 0xFFFF_FFFF_FFFF_FFFF == i * 0xFFFF_FFFF_FFFF_FFFF
                    + 0xFFFF_FFFF_FFFF_FFFF);
            }
            total = total + n as u128;
            i += 1;
        }
        assert(all.take(i as int) =~= all);
        total
    }

    /// Adds SP.
    pub fn add_sp(&mut self, skip: u8)
        ensures
            final(self)@ == old(self)@.push(sp_field(skip)),
    {
        let mut f: Vec<u8> = Vec::new();
        push_header(&mut f, 0x53, 0x50, 3);
        f.push(0xBE);
        f.push(0xEF);
        f.push(skip);
        assert(f@ =~= sp_field(skip));
        self.add_field(f);
    }

    /// Adds PX.
    pub fn add_px(&mut self, mode: u32, nlink: u32, uid: u32, gid: u32, inode: u32)
        ensures
            final(self)@ == old(self)@.push(px_field(mode, nlink, uid, gid, inode)),
    {
        let mut f: Vec<u8> = Vec::new();
        push_header(&mut f, 0x50, 0x58, 40);
        push_both32(&mut f, mode);
        push_both32(&mut f, nlink);
        push_both32(&mut f, uid);
        push_both32(&mut f, gid);
        push_both32(&mut f, inode);
        assert(f@ =~= px_field(mode, nlink, uid, gid, inode));
        self.add_field(f);
    }

    /// Adds TF with the creation time where there is one.
    pub fn add_tf(&mut self, created: Option<&RripTime>, modified: &RripTime, accessed: &RripTime)
        ensures
            final(self)@ == old(self)@.push(
                tf_field(
                    match created {
                        Some(c) => Some(c@),
                        None => None,
                    },
                    modified@,
                    accessed@,
                ),
            ),
    {
        let mut f: Vec<u8> = Vec::new();
        match created {
            Some(c) => {
                push_header(&mut f, 0x54, 0x46, 22);
                f.push(0x07);
                push_all(&mut f, c);
                push_all(&mut f, modified);
                push_all(&mut f, accessed);
                assert(f@ =~= tf_field(Some(c@), modified@, accessed@));
            },
            None => {
                push_header(&mut f, 0x54, 0x46, 15);
                f.push(0x06);
                push_all(&mut f, modified);
                push_all(&mut f, accessed);
                assert(f@ =~= tf_field(None, modified@, accessed@));
            },
        }
        self.add_field(f);
    }

    /// Adds the NM fields of a name.
    pub fn add_nm(&mut self, name: &[u8])
        ensures
            final(self)@ == old(self)@ + nm_fields(name@),
    {
        let mut i: usize = 0;
        assert(name@.skip(0) =~= name@);
        while name.len() - i > 250
            invariant
                i <= name.len(),
                self@ + nm_fields(name@.skip(i as int)) == old(self)@ + nm_fields(name@),
            decreases name.len() - i,
        {
            let ghost rest = name@.skip(i as int);
            let ghost before = self@;
            let mut f: Vec<u8> = Vec::new();
            push_header(&mut f, 0x4E, 0x4D, 251);
            f.push(1);
            let part: Vec<u8> = crate::bytes::copy_range(name, i, i + 250);
            push_all(&mut f, part.as_slice());
            proof {
                assert(part@ =~= rest.take(250));
                assert(f@ =~= nm_field(1, rest.take(250)));
                assert(rest.skip(250) =~= name@.skip(i + 250));
            }
            self.add_field(f);
            i += 250;
            assert(self@ + nm_fields(name@.skip(i as int)) =~= before + nm_fields(rest));
        }
        let ghost rest = name@.skip(i as int);
        let ghost before = self@;
        let mut f: Vec<u8> = Vec::new();
        push_header(&mut f, 0x4E, 0x4D, 1 + (name.len() - i));
        f.push(0);
        let part: Vec<u8> = crate::bytes::copy_range(name, i, name.len());
        push_all(&mut f, part.as_slice());
        proof {
            assert(part@ =~= rest);
            assert(f@ =~= nm_field(0, rest));
        }
        self.add_field(f);
        assert(self@ =~= before + nm_fields(rest));
    }

    /// Adds the NM field of a `.` record.
    pub fn add_nm_current(&mut self)
        ensures
            final(self)@ == old(self)@.push(nm_field(2, Seq::empty())),
    {
        let mut f: Vec<u8> = Vec::new();
        push_header(&mut f, 0x4E, 0x4D, 1);
        f.push(2);
        assert(f@ =~= nm_field(2, Seq::empty()));
        self.add_field(f);
    }

    /// Adds the NM field of a `..` record.
    pub fn add_nm_parent(&mut self)
        ensures
            final(self)@ == old(self)@.push(nm_field(4, Seq::empty())),
    {
        let mut f: Vec<u8> = Vec::new();
        push_header(&mut f, 0x4E, 0x4D, 1);
        f.push(4);
        assert(f@ =~= nm_field(4, Seq::empty()));
        self.add_field(f);
    }

    /// Adds PN.
    pub fn add_pn(&mut self, high: u32, low: u32)
        ensures
            final(self)@ == old(self)@.push(pn_field(high, low)),
    {
        let mut f: Vec<u8> = Vec::new();
        push_header(&mut f, 0x50, 0x4E, 16);
        push_both32(&mut f, high);
        push_both32(&mut f, low);
        assert(f@ =~= pn_field(high, low));
        self.add_field(f);
    }

    /// Adds CL.
    pub fn add_cl(&mut self, sector: u32)
        ensures
            final(self)@ == old(self)@.push(cl_field(sector)),
    {
        let mut f: Vec<u8> = Vec::new();
        push_header(&mut f, 0x43, 0x4C, 8);
        push_both32(&mut f, sector);
        assert(f@ =~= cl_field(sector));
        self.add_field(f);
    }

    /// Adds PL.
    pub fn add_pl(&mut self, sector: u32)
        ensures
            final(self)@ == old(self)@.push(pl_field(sector)),
    {
        let mut f: Vec<u8> = Vec::new();
        push_header(&mut f, 0x50, 0x4C, 8);
        push_both32(&mut f, sector);
        assert(f@ =~= pl_field(sector));
        self.add_field(f);
    }

    /// Adds RE.
    pub fn add_re(&mut self)
        ensures
            final(self)@ == old(self)@.push(re_field()),
    {
        let mut f: Vec<u8> = Vec::new();
        push_header(&mut f, 0x52, 0x45, 0);
        assert(f@ =~= re_field());
        self.add_field(f);
    }

    /// Adds the ER field of the Rock Ridge extension.
    pub fn add_rrip_er(&mut self)
        ensures
            final(self)@ == old(self)@.push(er_field()),
    {
        let id: &str = "RRIP_1991A";
        let descriptor: &str =
            "THE ROCK RIDGE INTERCHANGE PROTOCOL PROVIDES SUPPORT FOR POSIX FILE SYSTEM SEMANTICS";
        let source: &str =
            "PLEASE CONTACT DISC PUBLISHER FOR SPECIFICATION SOURCE.  SEE PUBLISHER IDENTIFIER IN PRIMARY VOLUME DESCRIPTOR FOR CONTACT INFORMATION.";
        proof {
            er_lengths();
        }
        let mut f: Vec<u8> = Vec::new();
        push_header(
            &mut f,
            0x45,
            0x52,
            4 + id.as_bytes().len() + descriptor.as_bytes().len() + source.as_bytes().len(),
        );
        f.push(id.as_bytes().len() as u8);
        f.push(descriptor.as_bytes().len() as u8);
        f.push(source.as_bytes().len() as u8);
        f.push(1);
        push_all(&mut f, id.as_bytes());
        push_all(&mut f, descriptor.as_bytes());
        push_all(&mut f, source.as_bytes());
        assert(f@ =~= er_field());
        self.add_field(f);
    }

    /// Adds the SL fields of a link target.
    pub fn add_sl(&mut self, target: &str)
        ensures
            final(self)@ == old(self)@ + sl_fields(encode_utf8(target@)),
    {
        let areas: Vec<Vec<u8>> = sl_packed(target.as_bytes());
        let ghost full = sl_fields(encode_utf8(target@));
        let mut i: usize = 0;
        while i < areas.len()
            invariant
                i <= areas.len(),
                views(areas@) == sl_areas(sl_target_records(encode_utf8(target@))),
                full == sl_fields(encode_utf8(target@)),
                forall|k: int| 0 <= k < areas@.len() ==> areas@[k]@.len() <= 250,
                self@ == old(self)@ + full.take(i as int),
            decreases areas.len() - i,
        {
            let flags: u8 = if i + 1 < areas.len() {
                1
            } else {
                0
            };
            let mut f: Vec<u8> = Vec::new();
            push_header(&mut f, 0x53, 0x4C, 1 + areas[i].len());
            f.push(flags);
            push_all(&mut f, areas[i].as_slice());
            assert(views(areas@)[i as int] == areas@[i as int]@);
            assert(f@ =~= sl_field(flags, areas@[i as int]@));
            assert(f@ == full[i as int]);
            self.add_field(f);
            i += 1;
            assert(self@ =~= old(self)@ + full.take(i as int));
        }
        assert(full.take(i as int) =~= full);
    }

    /// Splits the fields between a record with `max` free bytes and a continuation area.
    pub fn build_split(&self, max: usize) -> (r: SplitSu)
        ensures
            r.inline@ == split_inline(self@, max as int),
            r.overflow@ == split_overflow(self@, max as int),
            r.wf(),
    {
        let n: usize = self.fields.len();
        let all: usize = count_fitting(&self.fields, max);
        let k: usize = if all == n {
            n
        } else if max < 28 {
            count_fitting(&self.fields, 0)
        } else {
            count_fitting(&self.fields, max - 28)
        };
        assert(k == inline_count(self@, max as int));
        let mut inline: Vec<u8> = Vec::new();
        let mut overflow: Vec<u8> = Vec::new();
        let mut i: usize = 0;
        while i < k
            invariant
                i <= k <= n,
                n == self.fields@.len(),
                inline@ == concat(self@.take(i as int)),
            decreases k - i,
        {
            push_all(&mut inline, self.fields[i].as_slice());
            i += 1;
            assert(self@.take(i as int).drop_last() =~= self@.take(i - 1));
        }
        while i < n
            invariant
                k <= i <= n,
                n == self.fields@.len(),
                overflow@ == concat(self@.subrange(k as int, i as int)),
            decreases n - i,
        {
            push_all(&mut overflow, self.fields[i].as_slice());
            i += 1;
            assert(self@.subrange(k as int, i as int).drop_last() =~= self@.subrange(
                k as int,
                i - 1,
            ));
        }
        assert(self@.subrange(k as int, n as int) =~= self@.skip(k as int));
        if k < n {
            push_ce(&mut inline, 0, 0, overflow.len() as u32);
        }
        SplitSu { inline, overflow }
    }
}

/// The lengths of the parts of the ER field.
pub proof fn er_lengths()
    ensures
        er_id().len() == 10,
        er_descriptor().len() == 84,
        er_source().len() == 135,
{
    reveal_strlit("RRIP_1991A");
    reveal_strlit(
        "THE ROCK RIDGE INTERCHANGE PROTOCOL PROVIDES SUPPORT FOR POSIX FILE SYSTEM SEMANTICS",
    );
    reveal_strlit(
        "PLEASE CONTACT DISC PUBLISHER FOR SPECIFICATION SOURCE.  SEE PUBLISHER IDENTIFIER IN PRIMARY VOLUME DESCRIPTOR FOR CONTACT INFORMATION.",
    );
    vstd::utf8::is_ascii_chars_encode_utf8("RRIP_1991A"@);
    vstd::utf8::is_ascii_chars_encode_utf8(
        "THE ROCK RIDGE INTERCHANGE PROTOCOL PROVIDES SUPPORT FOR POSIX FILE SYSTEM SEMANTICS"@,
    );
    vstd::utf8::is_ascii_chars_encode_utf8(
        "PLEASE CONTACT DISC PUBLISHER FOR SPECIFICATION SOURCE.  SEE PUBLISHER IDENTIFIER IN PRIMARY VOLUME DESCRIPTOR FOR CONTACT INFORMATION."@,
    );
}

fn count_fitting(fields: &Vec<Vec<u8>>, budget: usize) -> (k: usize)
    ensures
        k == fitting(views(fields@), budget as int),
        k <= fields@.len(),
{
    let mut k: usize = 0;
    let mut left: usize = budget;
    let ghost all = views(fields@);
    assert(all.skip(0) =~= all);
    while k < fields.len() && fields[k].len() <= left
        invariant
            k <= fields@.len(),
            all == views(fields@),
            fitting(all, budget as int) == k + fitting(all.skip(k as int), left as int),
        decreases fields.len() - k,
    {
        assert(all.skip(k as int).drop_first() =~= all.skip(k + 1));
        left -= fields[k].len();
        k += 1;
    }
    k
}

fn push_sl_record(out: &mut Vec<Vec<u8>>, flags: u8, content: &[u8])
    requires
        content@.len() <= 248,
    ensures
        views(final(out)@) == views(old(out)@).push(sl_record(flags, content@)),
{
    let mut r: Vec<u8> = Vec::new();
    r.push(flags);
    r.push(content.len() as u8);
    push_all(&mut r, content);
    assert(r@ =~= sl_record(flags, content@));
    out.push(r);
    assert(views(out@) =~= views(old(out)@).push(sl_record(flags, content@)));
}

spec fn records_fit(records: Seq<Vec<u8>>) -> bool {
    forall|i: int| 0 <= i < records.len() ==> #[trigger] records[i]@.len() <= 250
}

fn push_sl_part(out: &mut Vec<Vec<u8>>, part: &Vec<u8>)
    requires
        records_fit(old(out)@),
    ensures
        records_fit(final(out)@),
        views(final(out)@) == views(old(out)@) + sl_records(part@),
{
    let empty: Vec<u8> = Vec::new();
    assert(empty@ =~= Seq::<u8>::empty());
    if part.len() == 1 && part[0] == 0x2E {
        assert(part@ =~= seq![0x2Eu8]);
        push_sl_record(out, 2, empty.as_slice());
        assert(views(out@) =~= views(old(out)@) + sl_records(part@));
        proof {
            records_fit_from(old(out)@, out@, sl_records(part@));
        }
        return ;
    }
    if part.len() == 2 && part[0] == 0x2E && part[1] == 0x2E {
        assert(part@ =~= seq![0x2Eu8, 0x2Eu8]);
        push_sl_record(out, 4, empty.as_slice());
        assert(views(out@) =~= views(old(out)@) + sl_records(part@));
        proof {
            records_fit_from(old(out)@, out@, sl_records(part@));
        }
        return ;
    }
    assert(part@ != seq![0x2Eu8] && part@ != seq![0x2Eu8, 0x2Eu8]);
    let ghost start = out@;
    let mut i: usize = 0;
    assert(part@.skip(0) =~= part@);
    while part.len() - i > 248
        invariant
            i <= part.len(),
            records_fit(out@),
            views(out@) + sl_name_records(part@.skip(i as int)) == views(start)
                + sl_name_records(part@),
        decreases part.len() - i,
    {
        let ghost rest = part@.skip(i as int);
        let ghost before = out@;
        let piece: Vec<u8> = crate::bytes::copy_range(part.as_slice(), i, i + 248);
        assert(piece@ =~= rest.take(248));
        assert(rest.skip(248) =~= part@.skip(i + 248));
        push_sl_record(out, 1, piece.as_slice());
        proof {
            records_fit_from(before, out@, seq![sl_record(1, piece@)]);
        }
        i += 248;
        assert(views(out@) + sl_name_records(part@.skip(i as int)) =~= views(before)
            + sl_name_records(rest));
    }
    let ghost rest = part@.skip(i as int);
    let ghost before = out@;
    let piece: Vec<u8> = crate::bytes::copy_range(part.as_slice(), i, part.len());
    assert(piece@ =~= rest);
    push_sl_record(out, 0, piece.as_slice());
    proof {
        records_fit_from(before, out@, seq![sl_record(0, piece@)]);
    }
    assert(views(out@) =~= views(before) + sl_name_records(rest));
}

proof fn records_fit_from(before: Seq<Vec<u8>>, after: Seq<Vec<u8>>, added: Seq<Seq<u8>>)
    requires
        records_fit(before),
        views(after) =~= views(before) + added,
        forall|i: int| 0 <= i < added.len() ==> #[trigger] added[i].len() <= 250,
    ensures
        records_fit(after),
{
    assert(views(after).len() == before.len() + added.len());
    assert forall|i: int| 0 <= i < after.len() implies #[trigger] after[i]@.len() <= 250 by {
        assert(views(after)[i] == after[i]@);
        if i < before.len() {
            assert(views(before)[i] == before[i]@);
        } else {
            assert(views(after)[i] == added[i - before.len()]);
        }
    }
}

/// The component records of a link target, packed into areas.
fn sl_packed(target: &[u8]) -> (areas: Vec<Vec<u8>>)
    ensures
        views(areas@) == sl_areas(sl_target_records(target@)),
        forall|k: int| 0 <= k < areas@.len() ==> areas@[k]@.len() <= 250,
{
    let mut records: Vec<Vec<u8>> = Vec::new();
    let parts: Vec<Vec<u8>> = path_components(target, false);
    let ghost prefix: Seq<Seq<u8>> = Seq::empty();
    assert(views(records@) =~= prefix);
    if target.len() > 0 && target[0] == 0x2F {
        let empty: Vec<u8> = Vec::new();
        assert(empty@ =~= Seq::<u8>::empty());
        push_sl_record(&mut records, 8, empty.as_slice());
        proof {
            prefix = seq![sl_record(8, Seq::empty())];
            assert(views(records@) =~= prefix);
            records_fit_from(Seq::empty(), records@, prefix);
        }
    }
    let ghost all = path_parts(target@, false);
    let mut i: usize = 0;
    assert(views(records@) =~= prefix + sl_parts_records(all.take(0)));
    while i < parts.len()
        invariant
            i <= parts.len(),
            records_fit(records@),
            views(parts@) == all,
            views(records@) == prefix + sl_parts_records(all.take(i as int)),
        decreases parts.len() - i,
    {
        push_sl_part(&mut records, &parts[i]);
        i += 1;
        assert(views(parts@)[i - 1] == parts@[i - 1]@);
        assert(all.take(i as int).drop_last() =~= all.take(i - 1));
        assert(views(records@) =~= prefix + sl_parts_records(all.take(i as int)));
    }
    assert(all.take(i as int) =~= all);
    let ghost recs = views(records@);
    assert(recs =~= sl_target_records(target@));
    let mut areas: Vec<Vec<u8>> = Vec::new();
    let mut k: usize = 0;
    assert(views(areas@) =~= sl_areas(recs.take(0)));
    while k < records.len()
        invariant
            k <= records.len(),
            records_fit(records@),
            recs == views(records@),
            records_fit(areas@),
            views(areas@) == sl_areas(recs.take(k as int)),
        decreases records.len() - k,
    {
        let ghost before = views(areas@);
        let ghost last = recs[k as int];
        assert(recs.take(k + 1).drop_last() =~= recs.take(k as int));
        let n: usize = areas.len();
        if n > 0 && areas[n - 1].len() + records[k].len() <= 250 {
            assert(before.last() == areas@[n - 1]@);
            let mut area: Vec<u8> = crate::bytes::copy_range(
                areas[n - 1].as_slice(),
                0,
                areas[n - 1].len(),
            );
            assert(area@ =~= before.last());
            push_all(&mut area, records[k].as_slice());
            areas.pop();
            areas.push(area);
            assert(views(areas@) =~= before.drop_last().push(before.last() + last));
        } else {
            proof {
                if n > 0 {
                    assert(before.last() == areas@[n - 1]@);
                }
            }
            let area: Vec<u8> = crate::bytes::copy_range(
                records[k].as_slice(),
                0,
                records[k].len(),
            );
            assert(area@ =~= last);
            areas.push(area);
            assert(views(areas@) =~= before.push(last));
        }
        k += 1;
    }
    assert(recs.take(k as int) =~= recs);
    areas
}

} // verus!
