//! What the records of a directory take at most.

#[allow(unused_imports)]
use crate::iso::dedup::{
    dedup_name, ext_start, iso_limit, iso_tail, joliet_ext, joliet_ext_bounds, joliet_kept,
    last_dot_bounds, minus, suffix, unversioned, widen,
};
#[allow(unused_imports)]
use crate::iso::estimator::{
    area_total, dir_total, digits, estimate_covers_identifiers, estimated_name_len,
    estimated_overflow, estimated_record, fields_len, kind_len, least, name_fields_len,
    name_len_natural, packed_sectors, record_count, record_natural, suffix_room, widest_bounds,
    widest_record,
};
#[allow(unused_imports)]
use crate::iso::extent::{align_up, align_up_bounds};
#[allow(unused_imports)]
use crate::iso::layout::{pack_end, place_record, record_size};
#[allow(unused_imports)]
use crate::iso::name::{base_identifier, file_identifier, head};
#[allow(unused_imports)]
use crate::iso::order::{stable_order, stable_order_exists};
#[allow(unused_imports)]
use crate::iso::plan::{has_long_record, records_of};
#[allow(unused_imports)]
use crate::iso::read_laws::concat_joins;
#[allow(unused_imports)]
use crate::iso::record_laws::flag_values;
#[allow(unused_imports)]
use crate::iso::records::{
    child_record, child_records, context, dedup_from, deduped, dir_posix, dot_record,
    dotdot_record, even_up, extent_flags, file_records, files_records, first_unseen, group_end,
    group_end_bounds, is_special, overflow_total, permuted, plain_record, raw_records,
    record_with, renamed, sort_keys, sorted, su_space, unique_name, Context, RecordView,
};
#[allow(unused_imports)]
use crate::iso::refmap::DirKey;
#[allow(unused_imports)]
use crate::iso::rrip::{mode_of, posix_fields, special_fields};
#[allow(unused_imports)]
use crate::iso::sums::{listing, sum, sum_in_any_order, sum_joins, stable_is_order, taken};
#[allow(unused_imports)]
use crate::iso::susp::{
    cl_field, concat, er_field, er_lengths, fitting, inline_count, nm_field, nm_fields, pl_field,
    pn_field, re_field, sp_field, split_inline, split_overflow,
};
#[allow(unused_imports)]
use crate::iso::tree::{EntryView, KindView};
#[allow(unused_imports)]
use crate::iso::types::{continues, DirectoryRef, EntryType, FileFlags, RripOptions};
#[allow(unused_imports)]
use crate::iso::written::{DirView, DirectoryRelocation, FileView};
#[allow(unused_imports)]
use crate::text::decimal;
use vstd::prelude::*;
#[allow(unused_imports)]
use vstd::utf8::encode_utf8;

verus! {

/// Bytes of records.
pub open spec fn total_size(records: Seq<RecordView>) -> int {
    sum(Seq::new(records.len(), |i: int| record_size(records[i])))
}

/// Records of at most `widest` bytes each take no more sectors than estimated for their
/// bytes.
pub proof fn packing_is_covered(records: Seq<RecordView>, total: int, widest: int)
    requires
        34 <= widest <= 255,
        forall|i: int| 0 <= i < records.len() ==> record_size(#[trigger] records[i]) <= widest,
        total_size(records) <= total,
    ensures
        align_up(pack_end(0, records, 2048), 2048) <= 2048 * packed_sectors(total, widest, 2048),
        pack_end(0, records, 2048) >= 0,
{
    let e = pack_end(0, records, 2048);
    let t = total_size(records);
    if records.len() == 0 {
        assert(Seq::new(records.len(), |i: int| record_size(records[i])) =~= Seq::empty());
        align_up_bounds(0, 2048);
    } else {
        packing(records, widest);
        let f = 2049 - widest;
        let q = (e - 1) / 2048;
        assert(align_up(e, 2048) == 2048 * (q + 1)) by {
            assert((e + 2047) / 2048 == q + 1);
        }
        if total <= 2048 {
            assert(q == 0);
        } else {
            let d = total / f;
            vstd::arithmetic::div_mod::lemma_fundamental_div_mod(total, f);
            vstd::arithmetic::div_mod::lemma_mod_bound(total, f);
            assert(q <= d) by (nonlinear_arith)
                requires
                    f * q <= total,
                    total < f * d + f,
                    f > 0,
            ;
        }
    }
}

proof fn packing(records: Seq<RecordView>, widest: int)
    requires
        records.len() > 0,
        34 <= widest <= 255,
        forall|i: int| 0 <= i < records.len() ==> record_size(#[trigger] records[i]) <= widest,
    ensures
        ({
            let e = pack_end(0, records, 2048);
            let t = total_size(records);
            let q = (e - 1) / 2048;
            &&& e > 0
            &&& t >= (2049 - widest) * q + (e - 2048 * q)
            &&& t <= 2048 ==> e == t
        }),
    decreases records.len(),
{
    let init = records.drop_last();
    let last = records.last();
    let z = record_size(last);
    let sizes = Seq::new(records.len(), |i: int| record_size(records[i]));
    assert(records[records.len() - 1] == last);
    assert(z >= 33);
    assert(sizes.drop_last() =~= Seq::new(init.len(), |i: int| record_size(init[i])));
    assert(sizes.last() == z);
    if init.len() == 0 {
        assert(pack_end(0, init, 2048) == 0);
        assert(sum(sizes.drop_last()) == 0);
        assert(pack_end(0, records, 2048) == z);
        assert((2049 - widest) * 0 == 0);
    } else {
        assert forall|i: int| 0 <= i < init.len() implies record_size(#[trigger] init[i])
            <= widest by {
            assert(records[i] == init[i]);
        }
        packing(init, widest);
        let e = pack_end(0, init, 2048);
        let q = (e - 1) / 2048;
        let p = place_record(e, z, 2048);
        let e2 = pack_end(0, records, 2048);
        assert(e2 == p + z);
        let f = 2049 - widest;
        assert(f * (q + 1) == f * q + f) by (nonlinear_arith);
        if e % 2048 == 0 {
            assert(p == e);
            assert(e == 2048 * (q + 1));
            assert((e2 - 1) / 2048 == q + 1);
        } else {
            assert(e % 2048 == e - 2048 * q);
            if z > 2048 - e % 2048 {
                assert(p == 2048 * (q + 1));
                assert((e2 - 1) / 2048 == q + 1);
            } else {
                assert(p == e);
                assert((e2 - 1) / 2048 == q);
            }
        }
    }
}

/// A suffix makes an identifier no longer than by its own bytes.
proof fn dedup_name_len(name: Seq<u8>, k: nat, ty: EntryType)
    ensures
        dedup_name(name, k, ty).len() <= name.len() + (if ty is Joliet {
            2 * suffix(k).len()
        } else {
            suffix(k).len()
        }),
{
    match ty {
        EntryType::Joliet { .. } => {
            joliet_ext_bounds(name, 0);
            let p = joliet_ext(name, 0);
            let s = widen(suffix(k));
            let kept = joliet_kept(name, s.len() as int);
            assert(0 <= kept <= p);
            assert(s.len() == 2 * suffix(k).len());
        },
        _ => {
            let base = unversioned(name);
            last_dot_bounds(base);
            let stem = base.take(ext_start(base));
            assert(stem.len() + iso_tail(name).len() == name.len());
            let m = minus(iso_limit(name, ty), suffix(k).len() as int);
            assert(head(stem, m).len() <= stem.len());
        },
    }
}

proof fn decimal_digits(n: nat)
    ensures
        decimal(n).len() == digits(n as int),
    decreases n,
{
    if n >= 10 {
        decimal_digits(n / 10);
    }
}

proof fn digits_ascend(a: int, b: int)
    requires
        a <= b,
    ensures
        digits(a) <= digits(b),
    decreases b,
{
    if b >= 10 {
        if a >= 10 {
            digits_ascend(a / 10, b / 10);
        } else {
            digits_ascend(0, b / 10);
        }
    }
}

proof fn first_unseen_is_soon(name: Seq<u8>, k: nat, seen: Set<Seq<u8>>, ty: EntryType)
    requires
        seen.finite(),
        first_unseen(name, k, seen, ty),
    ensures
        k <= seen.len() + 1,
{
    let picks = Seq::new((k - 1) as nat, |j: int| dedup_name(name, (j + 1) as nat, ty));
    assert(picks.no_duplicates()) by {
        assert forall|i: int, j: int|
            0 <= i < picks.len() && 0 <= j < picks.len() && i != j implies picks[i]
            != picks[j] by {
            if picks[i] == picks[j] {
                crate::iso::dedup::dedup_names_differ(name, (i + 1) as nat, (j + 1) as nat, ty);
            }
        }
    }
    picks.unique_seq_to_set();
    assert forall|x: Seq<u8>| picks.to_set().contains(x) implies seen.contains(x) by {
        let i = choose|i: int| 0 <= i < picks.len() && picks[i] == x;
        assert(seen.contains(dedup_name(name, (i + 1) as nat, ty)));
    }
    vstd::set_lib::lemma_len_subset(picks.to_set(), seen);
}

proof fn unique_name_len(name: Seq<u8>, seen: Set<Seq<u8>>, ty: EntryType, n: int)
    requires
        seen.finite(),
        seen.len() <= n + 4,
        n >= 0,
    ensures
        unique_name(name, seen, ty).len() <= name.len() + suffix_room(ty, n),
{
    if seen.contains(name) {
        crate::iso::record_laws::unseen_exists(name, 1, seen, ty);
        let k = choose|k: nat| first_unseen(name, k, seen, ty);
        first_unseen_is_soon(name, k, seen, ty);
        dedup_name_len(name, k, ty);
        decimal_digits(k);
        digits_ascend(k as int, n + 5);
    } else {
        digits_ascend(0, n + 5);
    }
}

/// The flags of records.
spec fn flags_of(records: Seq<RecordView>) -> Seq<FileFlags> {
    Seq::new(records.len(), |i: int| records[i].flags)
}

/// How many of the records are not continued.
spec fn lasts(flags: Seq<FileFlags>) -> int
    decreases flags.len(),
{
    if flags.len() == 0 {
        0
    } else {
        lasts(flags.drop_last()) + (if continues(flags.last()) {
            0int
        } else {
            1
        })
    }
}

proof fn lasts_join(a: Seq<FileFlags>, b: Seq<FileFlags>)
    ensures
        lasts(a + b) == lasts(a) + lasts(b),
        lasts(a) >= 0,
    decreases b.len(),
{
    if b.len() == 0 {
        assert(a + b =~= a);
        lasts_natural(a);
    } else {
        lasts_join(a, b.drop_last());
        assert((a + b).drop_last() =~= a + b.drop_last());
        assert((a + b).last() == b.last());
    }
}

proof fn lasts_natural(a: Seq<FileFlags>)
    ensures
        lasts(a) >= 0,
    decreases a.len(),
{
    if a.len() > 0 {
        lasts_natural(a.drop_last());
    }
}

/// Whether the records of a file have one identifier.
spec fn is_uniform(records: Seq<RecordView>, from: int) -> bool {
    forall|i: int|
        from <= i && 0 <= i < records.len() - 1 && continues((#[trigger] records[i]).flags)
            ==> records[i + 1].name == records[i].name
}

proof fn group_is_uniform(records: Seq<RecordView>, start: int, from: int, i: int)
    requires
        0 <= from <= start < records.len(),
        is_uniform(records, from),
        start <= i < group_end(records, start),
    ensures
        records[i].name == records[start].name,
        group_end(records, start) <= records.len(),
        group_end(records, start) < records.len() ==> !continues(
            records[group_end(records, start) - 1].flags,
        ),
    decreases records.len() - start,
{
    group_end_bounds(records, start);
    if start + 1 < records.len() && continues(records[start].flags) {
        assert(records[start + 1].name == records[start].name);
        if i > start {
            group_is_uniform(records, start + 1, from, i);
        } else {
            group_end_bounds(records, start + 1);
            group_is_uniform(records, start + 1, from, start + 1);
        }
    }
}

/// Whether a record differs from another in its identifier only, which is no longer than by
/// the given bytes; those of the directory itself and of its parent keep theirs.
spec fn grows_little(a: RecordView, b: RecordView, room: int) -> bool {
    &&& b.inline == a.inline
    &&& b.overflow == a.overflow
    &&& b.name.len() <= a.name.len() + room
    &&& is_special(a.name) ==> b.name == a.name
}

proof fn dedup_grows_little(
    records: Seq<RecordView>,
    start: int,
    seen: Set<Seq<u8>>,
    ty: EntryType,
    n: int,
)
    requires
        seen.finite(),
        0 <= start <= records.len(),
        0 <= n,
        is_uniform(records, start),
        seen.len() + lasts(flags_of(records).skip(start)) <= n + 4,
        forall|i: int|
            start <= i < records.len() - 1 && continues((#[trigger] records[i]).flags)
                ==> !is_special(records[i + 1].name),
    ensures
        ({
            let out = dedup_from(records, start, seen, ty);
            let room = suffix_room(ty, n);
            &&& out.len() == records.len()
            &&& forall|i: int| 0 <= i < start ==> #[trigger] out[i] == records[i]
            &&& forall|i: int|
                start <= i < records.len() ==> grows_little(
                    records[i],
                    #[trigger] out[i],
                    room,
                )
        }),
    decreases records.len() - start,
{
    let flags = flags_of(records);
    let room = suffix_room(ty, n);
    record_natural(
        EntryView {
            name: Seq::empty(),
            kind: KindView::File(Seq::empty()),
            metadata: crate::iso::tree::no_metadata(),
        },
        ty,
        n,
    );
    if start < records.len() {
        lasts_natural(flags.skip(start));
        if is_special(records[start].name) {
            let one = seq![flags[start]];
            assert(flags.skip(start) =~= one + flags.skip(start + 1));
            lasts_join(one, flags.skip(start + 1));
            dedup_grows_little(records, start + 1, seen, ty, n);
        } else {
            group_end_bounds(records, start);
            let end = group_end(records, start);
            let name = unique_name(records[start].name, seen, ty);
            let next = renamed(records, start, end, name);
            unique_name_len(records[start].name, seen, ty, n);
            group_is_uniform(records, start, start, start);
            assert(flags_of(next) =~= flags);
            assert forall|i: int| start <= i < end implies grows_little(
                records[i],
                #[trigger] next[i],
                room,
            ) by {
                group_is_uniform(records, start, start, i);
            }
            if end < records.len() {
                let group = flags.subrange(start, end);
                assert(flags.skip(start) =~= group + flags.skip(end));
                lasts_join(group, flags.skip(end));
                assert(group.last() == flags[end - 1]);
                lasts_natural(group.drop_last());
                assert(seen.insert(name).len() <= seen.len() + 1);
                assert(is_uniform(next, end)) by {
                    assert forall|i: int|
                        end <= i && 0 <= i < next.len() - 1 && continues(
                            (#[trigger] next[i]).flags,
                        ) implies next[i + 1].name == next[i].name by {
                        assert(next[i] == records[i] && next[i + 1] == records[i + 1]);
                    }
                }
                assert forall|i: int|
                    end <= i < next.len() - 1 && continues(
                        (#[trigger] next[i]).flags,
                    ) implies !is_special(next[i + 1].name) by {
                    assert(next[i] == records[i] && next[i + 1] == records[i + 1]);
                }
                dedup_grows_little(next, end, seen.insert(name), ty, n);
                let out = dedup_from(next, end, seen.insert(name), ty);
                assert forall|i: int| start <= i < records.len() implies grows_little(
                    records[i],
                    #[trigger] out[i],
                    room,
                ) by {
                    if i < end {
                        assert(out[i] == next[i]);
                    } else {
                        assert(next[i] == records[i]);
                    }
                }
                assert forall|i: int| 0 <= i < start implies #[trigger] out[i] == records[i] by {
                    assert(out[i] == next[i]);
                }
            } else {
                assert(dedup_from(next, end, seen.insert(name), ty) == next);
            }
        }
    }
}

/// The most bytes of a record once its identifier was kept apart from others.
spec fn grown(r: RecordView, room: int) -> int {
    if is_special(r.name) {
        least(record_size(r), 255)
    } else {
        least(even_up(33 + r.name.len() + room) + r.inline.len(), 255)
    }
}

spec fn all_grown(records: Seq<RecordView>, room: int) -> int {
    sum(Seq::new(records.len(), |i: int| grown(records[i], room)))
}

/// Whether no record of a namespace without Rock Ridge fields is longer than any there is.
spec fn narrow(records: Seq<RecordView>, ty: EntryType, n: int) -> bool {
    !ty.rrip() ==> forall|i: int|
        0 <= i < records.len() ==> grown(#[trigger] records[i], suffix_room(ty, n))
            <= widest_record(ty, n)
}

proof fn narrow_joins(a: Seq<RecordView>, b: Seq<RecordView>, ty: EntryType, n: int)
    requires
        narrow(a, ty, n),
        narrow(b, ty, n),
    ensures
        narrow(a + b, ty, n),
{
    let r = a + b;
    if !ty.rrip() {
        assert forall|i: int| 0 <= i < r.len() implies grown(
            #[trigger] r[i],
            suffix_room(ty, n),
        ) <= widest_record(ty, n) by {
            if i < a.len() {
                assert(r[i] == a[i]);
            } else {
                assert(r[i] == b[i - a.len()]);
            }
        }
    }
}

proof fn grown_joins(a: Seq<RecordView>, b: Seq<RecordView>, room: int)
    ensures
        all_grown(a + b, room) == all_grown(a, room) + all_grown(b, room),
        overflow_total(a + b) == overflow_total(a) + overflow_total(b),
    decreases b.len(),
{
    let x = Seq::new(a.len(), |i: int| grown(a[i], room));
    let y = Seq::new(b.len(), |i: int| grown(b[i], room));
    assert(Seq::new((a + b).len(), |i: int| grown((a + b)[i], room)) =~= x + y);
    sum_joins(x, y);
    if b.len() == 0 {
        assert(a + b =~= a);
    } else {
        grown_joins(a, b.drop_last(), room);
        assert((a + b).drop_last() =~= a + b.drop_last());
        assert((a + b).last() == b.last());
    }
}

proof fn grown_one(r: RecordView, room: int)
    ensures
        all_grown(seq![r], room) == grown(r, room),
        overflow_total(seq![r]) == r.overflow.len(),
{
    let x = Seq::new(seq![r].len(), |i: int| grown(seq![r][i], room));
    assert(x.drop_last() =~= Seq::empty());
    assert(sum(x) == sum(Seq::<int>::empty()) + grown(r, room));
    assert(seq![r].drop_last() =~= Seq::empty());
    assert(overflow_total(seq![r].drop_last()) == 0);
}

/// Records whose identifiers were kept apart and that were sorted take no more than the sum
/// of what each takes at most, and have the same continuation data.
proof fn sorted_is_covered(raw: Seq<RecordView>, ty: EntryType, n: int)
    requires
        0 <= n,
        is_uniform(raw, 0),
        lasts(flags_of(raw)) <= n + 4,
        forall|i: int|
            0 <= i < raw.len() - 1 && continues((#[trigger] raw[i]).flags) ==> !is_special(
                raw[i + 1].name,
            ),
        !has_long_record(sorted(deduped(raw, ty))),
    ensures
        total_size(sorted(deduped(raw, ty))) <= all_grown(raw, suffix_room(ty, n)),
        narrow(raw, ty, n) && !ty.rrip() ==> forall|i: int|
            0 <= i < raw.len() ==> record_size(#[trigger] sorted(deduped(raw, ty))[i])
                <= widest_record(ty, n),
        overflow_total(sorted(deduped(raw, ty))) == overflow_total(raw),
        sorted(deduped(raw, ty)).len() == raw.len(),
{
    let room = suffix_room(ty, n);
    let none = Set::<Seq<u8>>::empty();
    assert(flags_of(raw).skip(0) =~= flags_of(raw));
    dedup_grows_little(raw, 0, none, ty, n);
    let d = deduped(raw, ty);
    let keys = sort_keys(d);
    stable_order_exists(keys);
    let p = choose|perm: Seq<int>| stable_order(keys, perm);
    assert(stable_order(keys, p));
    stable_is_order(keys, p);
    let r = sorted(d);
    assert(r == permuted(d, p));
    // Sizes.
    let bounds = Seq::new(raw.len(), |i: int| grown(raw[i], room));
    sum_in_any_order(bounds, p);
    let picks = taken(bounds, p);
    let sizes = Seq::new(r.len(), |i: int| record_size(r[i]));
    assert forall|i: int| 0 <= i < sizes.len() implies #[trigger] sizes[i] <= picks[i] by {
        assert(0 <= p[i] < d.len());
        assert(r[i] == d[p[i]]);
        assert(grows_little(raw[p[i]], d[p[i]], room));
        assert(record_size(r[i]) <= 255);
        assert(picks[i] == grown(raw[p[i]], room));
    }
    sums_ascend(sizes, picks);
    if narrow(raw, ty, n) && !ty.rrip() {
        assert forall|i: int| 0 <= i < raw.len() implies record_size(#[trigger] r[i])
            <= widest_record(ty, n) by {
            assert(sizes[i] <= picks[i]);
            assert(0 <= p[i] < d.len());
            assert(grown(raw[p[i]], room) <= widest_record(ty, n));
        }
    }
    // Continuation data.
    let lens = Seq::new(raw.len(), |i: int| raw[i].overflow.len() as int);
    sum_in_any_order(lens, p);
    overflow_is_sum(raw);
    overflow_is_sum(r);
    assert(Seq::new(r.len(), |i: int| r[i].overflow.len() as int) =~= taken(lens, p)) by {
        assert forall|i: int| 0 <= i < r.len() implies #[trigger] r[i].overflow.len() as int
            == taken(lens, p)[i] by {
            assert(0 <= p[i] < d.len());
            assert(r[i] == d[p[i]]);
            assert(grows_little(raw[p[i]], d[p[i]], room));
        }
    }
}

proof fn sums_ascend(a: Seq<int>, b: Seq<int>)
    requires
        a.len() == b.len(),
        forall|i: int| 0 <= i < a.len() ==> #[trigger] a[i] <= b[i],
    ensures
        sum(a) <= sum(b),
    decreases a.len(),
{
    if a.len() > 0 {
        let (x, y) = (a.drop_last(), b.drop_last());
        assert forall|i: int| 0 <= i < x.len() implies #[trigger] x[i] <= y[i] by {
            assert(a[i] <= b[i]);
        }
        sums_ascend(x, y);
        assert(a[a.len() - 1] <= b[a.len() - 1]);
    }
}

proof fn overflow_is_sum(records: Seq<RecordView>)
    ensures
        overflow_total(records) == sum(
            Seq::new(records.len(), |i: int| records[i].overflow.len() as int),
        ),
    decreases records.len(),
{
    let x = Seq::new(records.len(), |i: int| records[i].overflow.len() as int);
    if records.len() > 0 {
        let init = records.drop_last();
        overflow_is_sum(init);
        assert(x.drop_last() =~= Seq::new(init.len(), |i: int| init[i].overflow.len() as int));
    } else {
        assert(x =~= Seq::empty());
    }
}

proof fn fitting_all(fields: Seq<Seq<u8>>, budget: int)
    ensures
        concat(fields).len() <= budget ==> fitting(fields, budget) == fields.len(),
        fitting(fields, budget) == fields.len() && fields.len() > 0 ==> concat(fields).len()
            <= budget,
    decreases fields.len(),
{
    if fields.len() > 0 {
        let first = seq![fields[0]];
        let rest = fields.drop_first();
        assert(fields =~= first + rest);
        concat_joins(first, rest);
        assert(first.drop_last() =~= Seq::empty());
        assert(concat(first.drop_last()).len() == 0);
        assert(concat(first).len() == fields[0].len());
        fitting_all(rest, budget - fields[0].len());
        if rest.len() == 0 {
            assert(concat(rest).len() == 0);
        }
    }
}

proof fn inline_is_whole(fields: Seq<Seq<u8>>, max: int)
    requires
        max >= 0,
    ensures
        concat(fields).len() <= max ==> split_inline(fields, max) == concat(fields)
            && split_overflow(fields, max).len() == 0,
        split_overflow(fields, max).len() <= concat(fields).len(),
{
    fitting_all(fields, max);
    crate::iso::read_laws::inline_count_bounds(fields, max);
    let k = inline_count(fields, max) as int;
    let (a, b) = (fields.take(k), fields.skip(k));
    assert(fields =~= a + b);
    concat_joins(a, b);
    if concat(fields).len() <= max {
        assert(a =~= fields);
        assert(b =~= Seq::empty());
    }
}

/// What a record with fields takes at most, where `most` is the most that they take and
/// `len` the most that its identifier has.
proof fn record_with_is_covered(
    name: Seq<u8>,
    fields: Seq<Seq<u8>>,
    at: DirectoryRef,
    flags: FileFlags,
    len: int,
    most: int,
    room: int,
)
    requires
        name.len() <= len,
        concat(fields).len() <= most,
        room >= 0,
        !is_special(name),
    ensures
        ({
            let r = record_with(name, fields, at, flags);
            &&& grown(r, room) <= least(even_up(33 + len + room) + most, 255)
            &&& r.overflow.len() <= (if even_up(33 + len) + most <= 256 {
                0
            } else {
                most
            })
        }),
{
    let max = su_space(name.len() as int);
    inline_is_whole(fields, max);
}

proof fn plain_is_covered(
    name: Seq<u8>,
    at: DirectoryRef,
    flags: FileFlags,
    len: int,
    room: int,
)
    requires
        name.len() <= len,
        room >= 0,
        !is_special(name),
    ensures
        grown(plain_record(name, at, flags), room) <= least(even_up(33 + len + room), 255),
        plain_record(name, at, flags).overflow.len() == 0,
{
}

proof fn one_concat(f: Seq<u8>)
    ensures
        concat(seq![f]).len() == f.len(),
{
    assert(seq![f].drop_last() =~= Seq::empty());
    assert(concat(seq![f].drop_last()).len() == 0);
}

proof fn posix_len(
    options: RripOptions,
    fallback: Seq<u8>,
    inode: u32,
    metadata: crate::iso::tree::InputMetadata,
    type_mode: u32,
    permissions: u32,
    nlink: u32,
)
    requires
        fallback.len() == 7,
    ensures
        concat(
            posix_fields(options, fallback, inode, metadata, type_mode, permissions, nlink),
        ).len() <= 70,
{
    let f = posix_fields(options, fallback, inode, metadata, type_mode, permissions, nlink);
    assert(f[0].len() == 44) by {
        assert(crate::bytes::be32(0).len() == 4);
    }
    one_concat(f[0]);
    if options.preserve_timestamps {
        assert(f =~= seq![f[0]] + seq![f[1]]);
        concat_joins(seq![f[0]], seq![f[1]]);
        one_concat(f[1]);
        assert(f[1].len() <= 26);
    } else {
        assert(f =~= seq![f[0]]);
    }
}

proof fn nm_len(name: Seq<u8>)
    ensures
        concat(nm_fields(name)).len() <= name_fields_len(name.len() as int),
    decreases name.len(),
{
    if name.len() <= 250 {
        one_concat(nm_field(0, name));
    } else {
        let rest = name.skip(250);
        let first = nm_field(1, name.take(250));
        nm_len(rest);
        concat_joins(seq![first], nm_fields(rest));
        one_concat(first);
    }
}

proof fn special_len(kind: KindView)
    requires
        !(kind is Directory),
    ensures
        concat(special_fields(kind)).len() <= kind_len(kind),
{
    match kind {
        KindView::CharacterDevice(a, b) => {
            one_concat(pn_field(a, b));
        },
        KindView::BlockDevice(a, b) => {
            one_concat(pn_field(a, b));
        },
        KindView::Symlink(target) => {},
        _ => {
            assert(special_fields(kind) =~= Seq::empty());
            assert(concat(special_fields(kind)).len() == 0);
        },
    }
}

/// The entry that a child directory is listed as.
pub open spec fn dir_entry(dir: DirView) -> EntryView {
    EntryView {
        name: dir.name,
        kind: KindView::Directory(Seq::empty()),
        metadata: dir.metadata,
    }
}

/// The entry that a file is listed as.
pub open spec fn file_entry(file: FileView) -> EntryView {
    EntryView { name: file.name, kind: file.kind, metadata: file.metadata }
}

/// The most bytes of the Rock Ridge fields of a child directory.
pub open spec fn child_fields_len(dir: DirView) -> int {
    82 + name_fields_len(encode_utf8(dir.rrip_name).len() as int)
}

proof fn child_is_covered(dir: DirView, inode: u32, c: Context, n: int)
    requires
        c.fallback.len() == 7,
        child_record(dir, inode, c) is Ok,
        c.has_rrip ==> c.ty.rrip(),
        n >= 0,
    ensures
        ({
            let r = child_record(dir, inode, c)->Ok_0;
            let x = dir_entry(dir);
            &&& !is_special(r.name)
            &&& dir.rrip_name == dir.name ==> grown(r, suffix_room(c.ty, n)) <= estimated_record(
                x,
                c.ty,
                n,
            ) && r.overflow.len() <= estimated_overflow(x, c.ty)
            &&& r.overflow.len() <= child_fields_len(dir)
            &&& !c.has_rrip ==> r.overflow.len() == 0
            &&& r.flags == (FileFlags { bits: 0x02 })
            &&& narrow(seq![r], c.ty, n)
        }),
{
    reveal(child_record);
    let name = base_identifier(c.ty, dir.name);
    let x = dir_entry(dir);
    let room = suffix_room(c.ty, n);
    let len = estimated_name_len(dir.name, c.ty);
    let r = child_record(dir, inode, c)->Ok_0;
    estimate_covers_identifiers(dir.name, c.ty);
    name_len_natural(dir.name, c.ty);
    record_natural(x, c.ty, n);
    crate::iso::record_laws::no_special_identifier(c.ty, dir.name);
    if c.has_rrip {
        let a = dir_posix(dir, inode, c);
        let b = nm_fields(encode_utf8(dir.rrip_name));
        posix_len(
            c.options,
            c.fallback,
            inode,
            dir.metadata,
            0x4000,
            0x1ED,
            crate::iso::records::nlink_of(dir),
        );
        nm_len(encode_utf8(dir.rrip_name));
        concat_joins(a, b);
        let (f, more) = match dir.relocation {
            DirectoryRelocation::Placeholder { target } => {
                let e = cl_field(c.refs[DirKey { id: target, ty: c.ty }].extent.0 as u32);
                ((a + b).push(e), e)
            },
            DirectoryRelocation::Moved { .. } => ((a + b).push(re_field()), re_field()),
            DirectoryRelocation::InPlace => (a + b, Seq::empty()),
        };
        assert(more.len() <= 12) by {
            assert(crate::bytes::be32(0).len() == 4);
        }
        if !(dir.relocation is InPlace) {
            assert(f.drop_last() =~= a + b);
            assert(f.last() == more);
        }
        let most = child_fields_len(dir);
        assert(concat(f).len() <= most);
        record_with_is_covered(name, f, r.dir_ref, r.flags, len, most, room);
    } else {
        plain_is_covered(name, r.dir_ref, r.flags, len, room);
    }
}

proof fn file_is_covered(file: FileView, inode: u32, c: Context, n: int)
    requires
        c.fallback.len() == 7,
        c.has_rrip ==> c.ty.rrip(),
        n >= 0,
        !(file.kind is Directory),
        file.additional_extents.len() + 1 == record_count(file.kind),
    ensures
        ({
            let f = file_records(file, inode, c);
            let x = file_entry(file);
            &&& forall|i: int| 0 <= i < f.len() ==> !is_special((#[trigger] f[i]).name)
            &&& all_grown(f, suffix_room(c.ty, n)) <= estimated_record(x, c.ty, n)
            &&& overflow_total(f) <= estimated_overflow(x, c.ty)
            &&& !c.has_rrip ==> overflow_total(f) == 0
            &&& narrow(f, c.ty, n)
        }),
{
    let name = file_identifier(c.ty, file.name);
    let x = file_entry(file);
    let room = suffix_room(c.ty, n);
    let len = estimated_name_len(file.name, c.ty);
    let f = file_records(file, inode, c);
    let m = 1 + file.additional_extents.len() as int;
    estimate_covers_identifiers(file.name, c.ty);
    name_len_natural(file.name, c.ty);
    record_natural(x, c.ty, n);
    crate::iso::record_laws::no_special_identifier(c.ty, file.name);
    let (type_mode, permissions) = mode_of(file.kind);
    let fields = posix_fields(
        c.options,
        c.fallback,
        inode,
        file.metadata,
        type_mode,
        permissions,
        1,
    );
    let names = nm_fields(encode_utf8(file.name));
    let special = special_fields(file.kind);
    if c.has_rrip {
        posix_len(c.options, c.fallback, inode, file.metadata, type_mode, permissions, 1);
        nm_len(encode_utf8(file.name));
        special_len(file.kind);
        concat_joins(fields, names);
        concat_joins(fields + names, special);
        record_with_is_covered(
            name,
            fields + names + special,
            file.entry,
            extent_flags(0, m),
            len,
            fields_len(x),
            room,
        );
    } else {
        plain_is_covered(name, file.entry, extent_flags(0, m), len, room);
    }
    let rest = Seq::new(
        file.additional_extents.len(),
        |i: int| plain_record(name, file.additional_extents[i], extent_flags(i + 1, m)),
    );
    assert(f =~= seq![f[0]] + rest);
    grown_joins(seq![f[0]], rest, room);
    grown_one(f[0], room);
    more_records_are_covered(name, rest, len, room);
    let k = rest.len() as int;
    let plain = least(even_up(33 + len + room), 255);
    assert(k * plain == (record_count(file.kind) - 1) * plain);
    if !c.ty.rrip() {
        assert forall|i: int| 0 <= i < f.len() implies grown(#[trigger] f[i], room)
            <= widest_record(c.ty, n) by {
            plain_is_covered(name, f[i].dir_ref, f[i].flags, len, room);
        }
    }
}

proof fn more_records_are_covered(name: Seq<u8>, rest: Seq<RecordView>, len: int, room: int)
    requires
        name.len() <= len,
        room >= 0,
        !is_special(name),
        forall|i: int|
            0 <= i < rest.len() ==> (#[trigger] rest[i]) == plain_record(
                name,
                rest[i].dir_ref,
                rest[i].flags,
            ),
    ensures
        all_grown(rest, room) <= rest.len() * least(even_up(33 + len + room), 255),
        overflow_total(rest) == 0,
    decreases rest.len(),
{
    if rest.len() == 0 {
        assert(Seq::new(rest.len(), |i: int| grown(rest[i], room)) =~= Seq::empty());
    } else {
        let init = rest.drop_last();
        let last = rest[rest.len() - 1];
        assert forall|i: int| 0 <= i < init.len() implies (#[trigger] init[i]) == plain_record(
            name,
            init[i].dir_ref,
            init[i].flags,
        ) by {
            assert(rest[i] == init[i]);
        }
        more_records_are_covered(name, init, len, room);
        plain_is_covered(name, last.dir_ref, last.flags, len, room);
        assert(rest =~= init + seq![last]);
        grown_joins(init, seq![last], room);
        grown_one(last, room);
        let p = least(even_up(33 + len + room), 255);
        let k = init.len() as int;
        assert((k + 1) * p == k * p + p) by (nonlinear_arith);
    }
}

/// The entries that child directories are listed as.
pub open spec fn dir_entries(dirs: Seq<DirView>) -> Seq<EntryView> {
    Seq::new(dirs.len(), |i: int| dir_entry(dirs[i]))
}

/// The entries that files are listed as.
pub open spec fn file_entries(files: Seq<FileView>) -> Seq<EntryView> {
    Seq::new(files.len(), |i: int| file_entry(files[i]))
}

/// Whether the children of a directory have the names that they show.
pub open spec fn shows_names(dirs: Seq<DirView>) -> bool {
    forall|i: int| 0 <= i < dirs.len() ==> (#[trigger] dirs[i]).rrip_name == dirs[i].name
}

/// Whether every file has the extents that it needs.
pub open spec fn files_are_sized(files: Seq<FileView>) -> bool {
    forall|i: int|
        0 <= i < files.len() ==> !((#[trigger] files[i]).kind is Directory)
            && files[i].additional_extents.len() + 1 == record_count(files[i].kind)
}

/// The most bytes of the Rock Ridge fields of child directories.
pub open spec fn children_fields_len(dirs: Seq<DirView>) -> int
    decreases dirs.len(),
{
    if dirs.len() == 0 {
        0
    } else {
        children_fields_len(dirs.drop_last()) + child_fields_len(dirs.last())
    }
}

proof fn children_are_covered(dirs: Seq<DirView>, inode: int, c: Context, n: int)
    requires
        c.fallback.len() == 7,
        c.has_rrip ==> c.ty.rrip(),
        n >= 0,
        child_records(dirs, inode, c) is Ok,
    ensures
        ({
            let r = child_records(dirs, inode, c)->Ok_0;
            let x = dir_entries(dirs);
            let none = Seq::<EntryView>::empty();
            &&& r.len() == dirs.len()
            &&& forall|i: int|
                0 <= i < r.len() ==> !is_special((#[trigger] r[i]).name) && !continues(r[i].flags)
            &&& lasts(flags_of(r)) == r.len()
            &&& shows_names(dirs) ==> all_grown(r, suffix_room(c.ty, n)) <= dir_total(x, c.ty, n)
                - dir_total(none, c.ty, n) && overflow_total(r) <= area_total(x, c.ty)
                - area_total(none, c.ty)
            &&& overflow_total(r) <= children_fields_len(dirs)
            &&& !c.has_rrip ==> overflow_total(r) == 0
            &&& narrow(r, c.ty, n)
        }),
    decreases dirs.len(),
{
    let r = child_records(dirs, inode, c)->Ok_0;
    let room = suffix_room(c.ty, n);
    if dirs.len() == 0 {
        assert(dir_entries(dirs) =~= Seq::empty());
        assert(Seq::new(r.len(), |i: int| grown(r[i], room)) =~= Seq::empty());
        assert(flags_of(r) =~= Seq::empty());
    } else {
        let init = dirs.drop_last();
        let last = dirs.last();
        children_are_covered(init, inode, c, n);
        let before = child_records(init, inode, c)->Ok_0;
        let number = (inode + dirs.len() - 1) as u32;
        child_is_covered(last, number, c, n);
        let own = child_record(last, number, c)->Ok_0;
        assert(r == before.push(own));
        assert(r =~= before + seq![own]);
        grown_joins(before, seq![own], room);
        narrow_joins(before, seq![own], c.ty, n);
        grown_one(own, room);
        let x = dir_entries(dirs);
        assert(x.drop_last() =~= dir_entries(init));
        assert(x.last() == dir_entry(last));
        flag_values();
        assert(flags_of(r).drop_last() =~= flags_of(before));
        if shows_names(dirs) {
            assert(shows_names(init)) by {
                assert forall|i: int| 0 <= i < init.len() implies (#[trigger] init[i]).rrip_name
                    == init[i].name by {
                    assert(dirs[i].rrip_name == dirs[i].name);
                }
            }
            assert(dirs[dirs.len() - 1].rrip_name == dirs[dirs.len() - 1].name);
        }
    }
}

proof fn one_file_flags(file: FileView, inode: u32, c: Context)
    ensures
        ({
            let f = file_records(file, inode, c);
            &&& lasts(flags_of(f)) == 1
            &&& f.len() == 1 + file.additional_extents.len()
            &&& !continues(f.last().flags)
            &&& is_uniform(f, 0)
        }),
{
    let f = file_records(file, inode, c);
    let n = f.len() as int;
    flag_values();
    assert forall|i: int| 0 <= i < n implies #[trigger] f[i].flags == extent_flags(i, n) by {}
    let flags = flags_of(f);
    all_but_last(flags, n);
}

proof fn all_but_last(flags: Seq<FileFlags>, n: int)
    requires
        flags.len() == n,
        n >= 1,
        forall|i: int| 0 <= i < n ==> continues(#[trigger] flags[i]) == (i + 1 < n),
    ensures
        lasts(flags) == 1,
{
    no_lasts(flags.drop_last());
}

proof fn no_lasts(flags: Seq<FileFlags>)
    requires
        forall|i: int| 0 <= i < flags.len() ==> continues(#[trigger] flags[i]),
    ensures
        lasts(flags) == 0,
    decreases flags.len(),
{
    if flags.len() > 0 {
        let init = flags.drop_last();
        assert forall|i: int| 0 <= i < init.len() implies continues(#[trigger] init[i]) by {
            assert(continues(flags[i]));
        }
        no_lasts(init);
        assert(continues(flags[flags.len() - 1]));
    }
}

proof fn files_are_covered(files: Seq<FileView>, inode: int, c: Context, n: int)
    requires
        c.fallback.len() == 7,
        c.has_rrip ==> c.ty.rrip(),
        n >= 0,
        files_are_sized(files),
    ensures
        ({
            let r = files_records(files, inode, c);
            let x = file_entries(files);
            let none = Seq::<EntryView>::empty();
            &&& forall|i: int| 0 <= i < r.len() ==> !is_special((#[trigger] r[i]).name)
            &&& is_uniform(r, 0)
            &&& r.len() > 0 ==> !continues(r.last().flags)
            &&& lasts(flags_of(r)) == files.len()
            &&& all_grown(r, suffix_room(c.ty, n)) <= dir_total(x, c.ty, n) - dir_total(
                none,
                c.ty,
                n,
            )
            &&& overflow_total(r) <= area_total(x, c.ty) - area_total(none, c.ty)
            &&& !c.has_rrip ==> overflow_total(r) == 0
            &&& narrow(r, c.ty, n)
        }),
    decreases files.len(),
{
    let r = files_records(files, inode, c);
    let room = suffix_room(c.ty, n);
    if files.len() == 0 {
        assert(file_entries(files) =~= Seq::empty());
        assert(Seq::new(r.len(), |i: int| grown(r[i], room)) =~= Seq::empty());
        assert(flags_of(r) =~= Seq::empty());
    } else {
        let init = files.drop_last();
        let last = files[files.len() - 1];
        assert forall|i: int| 0 <= i < init.len() implies !((#[trigger] init[i]).kind is Directory)
            && init[i].additional_extents.len() + 1 == record_count(init[i].kind) by {
            assert(!(files[i].kind is Directory));
        }
        files_are_covered(init, inode, c, n);
        let before = files_records(init, inode, c);
        let number = (inode + files.len() - 1) as u32;
        assert(!(files[files.len() - 1].kind is Directory));
        file_is_covered(last, number, c, n);
        one_file_flags(last, number, c);
        let own = file_records(last, number, c);
        assert(r == before + own);
        grown_joins(before, own, room);
        narrow_joins(before, own, c.ty, n);
        let x = file_entries(files);
        assert(x.drop_last() =~= file_entries(init));
        assert(x.last() == file_entry(last));
        assert(flags_of(r) =~= flags_of(before) + flags_of(own));
        lasts_join(flags_of(before), flags_of(own));
        uniform_joins(before, own);
        assert forall|i: int| 0 <= i < r.len() implies !is_special((#[trigger] r[i]).name) by {
            if i < before.len() {
                assert(r[i] == before[i]);
            } else {
                assert(r[i] == own[i - before.len()]);
            }
        }
        assert(r.last() == own.last());
    }
}

proof fn uniform_joins(a: Seq<RecordView>, b: Seq<RecordView>)
    requires
        is_uniform(a, 0),
        is_uniform(b, 0),
        a.len() > 0 ==> !continues(a.last().flags),
    ensures
        is_uniform(a + b, 0),
{
    let r = a + b;
    assert forall|i: int|
        0 <= i && 0 <= i < r.len() - 1 && continues((#[trigger] r[i]).flags) implies r[i + 1].name
        == r[i].name by {
        if i + 1 < a.len() {
            assert(r[i] == a[i] && r[i + 1] == a[i + 1]);
        } else if i + 1 == a.len() {
            assert(r[i] == a.last());
        } else {
            assert(r[i] == b[i - a.len()] && r[i + 1] == b[i + 1 - a.len()]);
        }
    }
}

proof fn dots_are_covered(dir: DirView, is_root: bool, c: Context, room: int)
    requires
        c.fallback.len() == 7,
        c.has_rrip ==> c.ty.rrip(),
    ensures
        ({
            let dots = seq![dot_record(dir, is_root, c), dotdot_record(dir, c)];
            &&& is_special(dots[0].name) && is_special(dots[1].name)
            &&& all_grown(dots, room) <= dir_total(Seq::empty(), c.ty, 0)
            &&& overflow_total(dots) <= (if is_root {
                320int
            } else {
                0
            })
            &&& lasts(flags_of(dots)) == 2
            &&& !continues(dots[0].flags) && !continues(dots[1].flags)
            &&& !c.has_rrip ==> overflow_total(dots) == 0
        }),
{
    let (a, b) = (dot_record(dir, is_root, c), dotdot_record(dir, c));
    let dots = seq![a, b];
    flag_values();
    assert(a.name == seq![0u8] && b.name == seq![1u8]);
    assert(a.flags == (FileFlags { bits: 0x02 }) && b.flags == (FileFlags { bits: 0x02 }));
    assert(dots =~= seq![a] + seq![b]);
    grown_joins(seq![a], seq![b], room);
    grown_one(a, room);
    grown_one(b, room);
    let flags = flags_of(dots);
    assert(flags.drop_last().drop_last() =~= Seq::empty());
    assert(lasts(flags.drop_last().drop_last()) == 0);
    assert(lasts(flags.drop_last()) == 1);
    if c.has_rrip {
        let posix = dir_posix(dir, 0, c);
        posix_len(
            c.options,
            c.fallback,
            0,
            dir.metadata,
            0x4000,
            0x1ED,
            crate::iso::records::nlink_of(dir),
        );
        let none = Seq::<u8>::empty();
        let (here, up) = (nm_field(2, none), nm_field(4, none));
        one_concat(here);
        one_concat(up);
        concat_joins(posix, seq![here]);
        concat_joins(posix, seq![up]);
        let max = su_space(1);
        assert(max == 222);
        let own = if is_root {
            seq![sp_field(0)] + posix + seq![here, er_field()]
        } else {
            posix + seq![here]
        };
        if is_root {
            er_lengths();
            one_concat(sp_field(0));
            one_concat(er_field());
            assert(er_field().len() == 237);
            assert(sp_field(0).len() == 7);
            concat_joins(seq![sp_field(0)], posix);
            assert(seq![here, er_field()] =~= seq![here] + seq![er_field()]);
            concat_joins(seq![here], seq![er_field()]);
            concat_joins(seq![sp_field(0)] + posix, seq![here, er_field()]);
            assert(concat(own).len() <= 319);
        }
        inline_is_whole(own, max);
        let parent = posix + seq![up];
        match dir.relocation {
            DirectoryRelocation::Moved { logical_parent, .. } => {
                let key = DirKey { id: logical_parent, ty: c.ty };
                let at = if c.refs.dom().contains(key) {
                    c.refs[key]
                } else {
                    crate::iso::types::empty_ref()
                };
                let pl = pl_field(at.extent.0 as u32);
                assert(pl.len() == 12) by {
                    assert(crate::bytes::be32(0).len() == 4);
                }
                let all = parent.push(pl);
                assert(all.drop_last() =~= parent);
                assert(all.last() == pl);
                assert(concat(all).len() <= 87);
                inline_is_whole(all, max);
            },
            _ => {
                inline_is_whole(parent, max);
            },
        }
    }
}

proof fn area_joins(a: Seq<EntryView>, b: Seq<EntryView>, ty: EntryType)
    ensures
        area_total(a + b, ty) == area_total(a, ty) + area_total(b, ty) - area_total(
            Seq::empty(),
            ty,
        ),
    decreases b.len(),
{
    if b.len() == 0 {
        assert(a + b =~= a);
        assert(b =~= Seq::empty());
    } else {
        area_joins(a, b.drop_last(), ty);
        assert((a + b).drop_last() =~= a + b.drop_last());
        assert((a + b).last() == b.last());
    }
}

/// What two lists take together is what they take, but for the records of the directory.
pub proof fn totals_join(a: Seq<EntryView>, b: Seq<EntryView>, ty: EntryType, n: int)
    ensures
        dir_total(a + b, ty, n) == dir_total(a, ty, n) + dir_total(b, ty, n) - dir_total(
            Seq::empty(),
            ty,
            n,
        ),
        area_total(a + b, ty) == area_total(a, ty) + area_total(b, ty) - area_total(
            Seq::empty(),
            ty,
        ),
    decreases b.len(),
{
    area_joins(a, b, ty);
    if b.len() == 0 {
        assert(a + b =~= a);
        assert(b =~= Seq::empty());
    } else {
        totals_join(a, b.drop_last(), ty, n);
        assert((a + b).drop_last() =~= a + b.drop_last());
        assert((a + b).last() == b.last());
    }
}

/// The records of a directory take no more sectors than estimated for what it lists, and
/// its continuation area no more bytes, where the estimate is made for a directory with at
/// most two entries less.
pub proof fn records_are_within(
    dir: DirView,
    is_root: bool,
    ty: EntryType,
    inode: int,
    rrip: Option<RripOptions>,
    time: Seq<u8>,
    refs: Map<DirKey, DirectoryRef>,
    n: int,
)
    requires
        time.len() == 7,
        records_of(dir, is_root, ty, inode, rrip, time, refs) is Ok,
        files_are_sized(dir.files),
        n >= 0,
    ensures
        ({
            let r = records_of(dir, is_root, ty, inode, rrip, time, refs)->Ok_0;
            &&& shows_names(dir.dirs) && dir.dirs.len() + dir.files.len() <= n + 2 ==> align_up(
                pack_end(0, r, 2048),
                2048,
            ) <= 2048 * packed_sectors(
                dir_total(listing(dir), ty, n),
                widest_record(ty, n),
                2048,
            )
            &&& shows_names(dir.dirs) ==> overflow_total(r) <= area_total(listing(dir), ty) + (
            if is_root {
                320
            } else {
                0int
            })
            &&& !ty.rrip() ==> overflow_total(r) == 0
            &&& dir.files.len() == 0 && !is_root ==> align_up(pack_end(0, r, 2048), 2048) <= 2048
                * packed_sectors(255 * (2 + dir.dirs.len() as int), 255, 2048) && overflow_total(r)
                <= children_fields_len(dir.dirs)
        }),
{
    let c = context(ty, rrip, time, refs);
    let m = if dir.dirs.len() + dir.files.len() <= n + 2 {
        n
    } else {
        (dir.dirs.len() + dir.files.len()) as int
    };
    let room = suffix_room(ty, m);
    let raw = raw_records(dir, is_root, inode, c)->Ok_0;
    let dots = seq![dot_record(dir, is_root, c), dotdot_record(dir, c)];
    let children = child_records(dir.dirs, inode, c)->Ok_0;
    let files = files_records(dir.files, inode + dir.dirs.len(), c);
    assert(raw == dots + children + files);
    dots_are_covered(dir, is_root, c, room);
    assert(narrow(dots, ty, m)) by {
        widest_bounds(ty, m);
    }
    children_are_covered(dir.dirs, inode, c, m);
    files_are_covered(dir.files, inode + dir.dirs.len(), c, m);
    assert(flags_of(raw) =~= flags_of(dots) + flags_of(children) + flags_of(files));
    lasts_join(flags_of(dots), flags_of(children));
    lasts_join(flags_of(dots) + flags_of(children), flags_of(files));
    flag_values();
    let front = dots + children;
    assert(is_uniform(front, 0)) by {
        assert forall|i: int|
            0 <= i && 0 <= i < front.len() - 1 && continues(
                (#[trigger] front[i]).flags,
            ) implies front[i + 1].name == front[i].name by {
            if i < 2 {
                assert(front[i] == dots[i]);
            } else {
                assert(front[i] == children[i - 2]);
            }
        }
    }
    assert(!continues(front.last().flags)) by {
        if children.len() == 0 {
            assert(front.last() == dots[1]);
        } else {
            assert(front.last() == children[children.len() - 1]);
        }
    }
    uniform_joins(front, files);
    assert forall|i: int|
        0 <= i < raw.len() - 1 && continues((#[trigger] raw[i]).flags) implies !is_special(
        raw[i + 1].name,
    ) by {
        if i < 2 {
            assert(raw[i] == dots[i]);
        } else if i + 1 < 2 + children.len() {
            assert(raw[i + 1] == children[i - 1]);
        } else {
            assert(raw[i + 1] == files[i - 1 - children.len()]);
        }
    }
    narrow_joins(dots, children, ty, m);
    narrow_joins(front, files, ty, m);
    sorted_is_covered(raw, ty, m);
    grown_joins(dots, children, room);
    grown_joins(front, files, room);
    let r = records_of(dir, is_root, ty, inode, rrip, time, refs)->Ok_0;
    assert(r == sorted(deduped(raw, ty)));
    assert forall|i: int| 0 <= i < r.len() implies record_size(#[trigger] r[i]) <= 255 by {}
    let (x, y) = (dir_entries(dir.dirs), file_entries(dir.files));
    assert(listing(dir) =~= x + y);
    totals_join(x, y, ty, m);
    if shows_names(dir.dirs) && dir.dirs.len() + dir.files.len() <= n + 2 {
        widest_bounds(ty, n);
        packing_is_covered(r, dir_total(listing(dir), ty, n), widest_record(ty, n));
    }
    if dir.files.len() == 0 {
        assert(files =~= Seq::empty());
        assert(overflow_total(files) == 0);
        size_is_count(r);
        packing_is_covered(r, 255 * (2 + dir.dirs.len() as int), 255);
    }
}

proof fn size_is_count(records: Seq<RecordView>)
    requires
        forall|i: int| 0 <= i < records.len() ==> record_size(#[trigger] records[i]) <= 255,
    ensures
        total_size(records) <= 255 * records.len(),
    decreases records.len(),
{
    let sizes = Seq::new(records.len(), |i: int| record_size(records[i]));
    if records.len() == 0 {
        assert(sizes =~= Seq::empty());
    } else {
        let init = records.drop_last();
        assert forall|i: int| 0 <= i < init.len() implies record_size(#[trigger] init[i])
            <= 255 by {
            assert(records[i] == init[i]);
        }
        size_is_count(init);
        assert(sizes.drop_last() =~= Seq::new(init.len(), |i: int| record_size(init[i])));
        assert(record_size(records[records.len() - 1]) <= 255);
    }
}

} // verus!
