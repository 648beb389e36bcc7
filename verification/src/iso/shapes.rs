//! The sizes of a directory's records do not depend on where anything lies.

#[allow(unused_imports)]
use crate::iso::layout::{pack_end, record_size};
#[allow(unused_imports)]
use crate::iso::order::{stable_order, stable_order_exists};
#[allow(unused_imports)]
use crate::iso::records::{
    child_record, child_records, dedup_from, deduped, dir_posix, dot_record, dotdot_record,
    file_records, files_records, group_end, group_end_bounds, is_special, overflow_total, permuted,
    raw_records, renamed, sort_keys, sorted, su_space, unique_name, Context, RecordView,
};
#[allow(unused_imports)]
use crate::iso::rrip::{mode_of, posix_fields, special_fields};
#[allow(unused_imports)]
use crate::iso::susp::{
    cl_field, concat, er_field, fitting, inline_count, nm_field, nm_fields, pl_field, sp_field,
    split_inline, split_overflow,
};
#[allow(unused_imports)]
use crate::iso::types::{EntryType, FileFlags};
#[allow(unused_imports)]
use crate::iso::written::{DirView, DirectoryRelocation, FileView};
use vstd::prelude::*;
#[allow(unused_imports)]
use vstd::utf8::encode_utf8;

verus! {

/// What the layout of a record depends on.
pub struct Shape {
    /// Identifier.
    pub name: Seq<u8>,
    /// Bytes of System Use data in the record.
    pub inline: nat,
    /// Bytes of System Use data in the continuation area.
    pub overflow: nat,
    /// File flags.
    pub flags: FileFlags,
}

/// What the layout of a record depends on.
pub open spec fn shape(r: RecordView) -> Shape {
    Shape { name: r.name, inline: r.inline.len(), overflow: r.overflow.len(), flags: r.flags }
}

/// What the layout of records depends on.
pub open spec fn shapes(records: Seq<RecordView>) -> Seq<Shape> {
    Seq::new(records.len(), |i: int| shape(records[i]))
}

/// Whether two files differ at most in where they lie.
pub open spec fn same_file_shape(a: FileView, b: FileView) -> bool {
    &&& a.name == b.name
    &&& a.kind == b.kind
    &&& a.metadata == b.metadata
    &&& a.additional_extents.len() == b.additional_extents.len()
}

/// Whether two directories differ at most in where they and their children lie.
pub open spec fn same_dir_shape(a: DirView, b: DirView) -> bool {
    &&& a.name == b.name
    &&& a.rrip_name == b.rrip_name
    &&& a.metadata == b.metadata
    &&& a.relocation == b.relocation
    &&& a.dirs.len() == b.dirs.len()
    &&& a.files.len() == b.files.len()
    &&& forall|i: int| 0 <= i < a.files.len() ==> same_file_shape(#[trigger] a.files[i], b.files[i])
    &&& forall|i: int| 0 <= i < a.dirs.len() ==> same_child_shape(#[trigger] a.dirs[i], b.dirs[i])
}

/// Whether two child directories have the same record but for where they lie.
pub open spec fn same_child_shape(a: DirView, b: DirView) -> bool {
    &&& a.name == b.name
    &&& a.rrip_name == b.rrip_name
    &&& a.metadata == b.metadata
    &&& a.relocation == b.relocation
    &&& a.dirs.len() == b.dirs.len()
}

/// Whether two contexts differ at most in where directories lie and in the time.
pub open spec fn same_context(a: Context, b: Context) -> bool {
    &&& a.ty == b.ty
    &&& a.has_rrip == b.has_rrip
    &&& a.options == b.options
    &&& a.fallback.len() == b.fallback.len()
    &&& a.refs.dom() == b.refs.dom()
}

spec fn same_lengths(a: Seq<Seq<u8>>, b: Seq<Seq<u8>>) -> bool {
    &&& a.len() == b.len()
    &&& forall|i: int| 0 <= i < a.len() ==> (#[trigger] a[i]).len() == b[i].len()
}

proof fn concat_length(a: Seq<Seq<u8>>, b: Seq<Seq<u8>>)
    requires
        same_lengths(a, b),
    ensures
        concat(a).len() == concat(b).len(),
    decreases a.len(),
{
    if a.len() > 0 {
        assert(same_lengths(a.drop_last(), b.drop_last())) by {
            assert forall|i: int| 0 <= i < a.len() - 1 implies (#[trigger] a.drop_last()[i]).len()
                == b.drop_last()[i].len() by {
                assert(a[i].len() == b[i].len());
            }
        }
        concat_length(a.drop_last(), b.drop_last());
        assert(a[a.len() - 1].len() == b[a.len() - 1].len());
    }
}

proof fn fitting_length(a: Seq<Seq<u8>>, b: Seq<Seq<u8>>, budget: int)
    requires
        same_lengths(a, b),
    ensures
        fitting(a, budget) == fitting(b, budget),
        fitting(a, budget) <= a.len(),
    decreases a.len(),
{
    if a.len() > 0 && a[0].len() <= budget {
        assert(same_lengths(a.drop_first(), b.drop_first())) by {
            assert forall|i: int| 0 <= i < a.len() - 1 implies (
            #[trigger] a.drop_first()[i]).len() == b.drop_first()[i].len() by {
                assert(a[i + 1].len() == b[i + 1].len());
            }
        }
        assert(a[0].len() == b[0].len());
        fitting_length(a.drop_first(), b.drop_first(), budget - a[0].len());
    } else if a.len() > 0 {
        assert(a[0].len() == b[0].len());
    }
}

proof fn split_length(a: Seq<Seq<u8>>, b: Seq<Seq<u8>>, max: int)
    requires
        same_lengths(a, b),
    ensures
        split_inline(a, max).len() == split_inline(b, max).len(),
        split_overflow(a, max).len() == split_overflow(b, max).len(),
{
    fitting_length(a, b, max);
    fitting_length(a, b, 0);
    fitting_length(a, b, max - 28);
    let n = inline_count(a, max) as int;
    assert(same_lengths(a.take(n), b.take(n))) by {
        assert forall|i: int| 0 <= i < n implies (#[trigger] a.take(n)[i]).len()
            == b.take(n)[i].len() by {
            assert(a[i].len() == b[i].len());
        }
    }
    assert(same_lengths(a.skip(n), b.skip(n))) by {
        assert forall|i: int| 0 <= i < a.len() - n implies (#[trigger] a.skip(n)[i]).len()
            == b.skip(n)[i].len() by {
            assert(a[i + n].len() == b[i + n].len());
        }
    }
    concat_length(a.take(n), b.take(n));
    concat_length(a.skip(n), b.skip(n));
}

proof fn lengths_join(a: Seq<Seq<u8>>, b: Seq<Seq<u8>>, c: Seq<Seq<u8>>, d: Seq<Seq<u8>>)
    requires
        same_lengths(a, b),
        same_lengths(c, d),
    ensures
        same_lengths(a + c, b + d),
{
    assert forall|i: int| 0 <= i < (a + c).len() implies (#[trigger] (a + c)[i]).len() == (b
        + d)[i].len() by {
        if i < a.len() {
            assert(a[i].len() == b[i].len());
        } else {
            assert(c[i - a.len()].len() == d[i - a.len()].len());
        }
    }
}

proof fn child_shape(a: DirView, b: DirView, i: u32, j: u32, c: Context, d: Context)
    requires
        same_child_shape(a, b),
        same_context(c, d),
    ensures
        child_record(a, i, c) is Ok <==> child_record(b, j, d) is Ok,
        child_record(a, i, c) is Err ==> child_record(a, i, c)->Err_0 == child_record(
            b,
            j,
            d,
        )->Err_0,
        child_record(a, i, c) is Ok ==> shape(child_record(a, i, c)->Ok_0) == shape(
            child_record(b, j, d)->Ok_0,
        ),
{
    reveal(child_record);
    if c.has_rrip {
        let name = encode_utf8(a.rrip_name);
        let (p, q) = (dir_posix(a, i, c), dir_posix(b, j, d));
        assert(same_lengths(p, q));
        assert(same_lengths(nm_fields(name), nm_fields(name)));
        lengths_join(p, q, nm_fields(name), nm_fields(name));
        let (f, g) = (p + nm_fields(name), q + nm_fields(name));
        let max = su_space(crate::iso::name::base_identifier(c.ty, a.name).len() as int);
        match a.relocation {
            DirectoryRelocation::Placeholder { target } => {
                let key = crate::iso::refmap::DirKey { id: target, ty: c.ty };
                assert(c.refs.dom().contains(key) <==> d.refs.dom().contains(key));
                if c.refs.dom().contains(key) {
                    let x = cl_field(c.refs[key].extent.0 as u32);
                    let y = cl_field(d.refs[key].extent.0 as u32);
                    assert(same_lengths(f.push(x), g.push(y)));
                    split_length(f.push(x), g.push(y), max);
                }
            },
            DirectoryRelocation::Moved { .. } => {
                let x = crate::iso::susp::re_field();
                assert(same_lengths(f.push(x), g.push(x)));
                split_length(f.push(x), g.push(x), max);
            },
            DirectoryRelocation::InPlace => {
                split_length(f, g, max);
            },
        }
    }
}

proof fn children_shape(a: Seq<DirView>, b: Seq<DirView>, i: int, j: int, c: Context, d: Context)
    requires
        a.len() == b.len(),
        forall|k: int| 0 <= k < a.len() ==> same_child_shape(#[trigger] a[k], b[k]),
        same_context(c, d),
    ensures
        child_records(a, i, c) is Ok <==> child_records(b, j, d) is Ok,
        child_records(a, i, c) is Err ==> child_records(a, i, c)->Err_0 == child_records(
            b,
            j,
            d,
        )->Err_0,
        child_records(a, i, c) is Ok ==> shapes(child_records(a, i, c)->Ok_0) == shapes(
            child_records(b, j, d)->Ok_0,
        ),
    decreases a.len(),
{
    if a.len() > 0 {
        let n = a.len() - 1;
        assert forall|k: int| 0 <= k < n implies same_child_shape(
            #[trigger] a.drop_last()[k],
            b.drop_last()[k],
        ) by {
            assert(same_child_shape(a[k], b[k]));
        }
        children_shape(a.drop_last(), b.drop_last(), i, j, c, d);
        assert(same_child_shape(a[n], b[n]));
        child_shape(a[n], b[n], (i + a.len() - 1) as u32, (j + b.len() - 1) as u32, c, d);
        if child_records(a, i, c) is Ok {
            let r = child_records(a.drop_last(), i, c)->Ok_0;
            let s = child_records(b.drop_last(), j, d)->Ok_0;
            assert(r.len() == shapes(r).len() && s.len() == shapes(s).len());
            let x = child_record(a[n], (i + a.len() - 1) as u32, c)->Ok_0;
            let y = child_record(b[n], (j + b.len() - 1) as u32, d)->Ok_0;
            shapes_push(r, s, x, y);
        }
    } else {
        assert(shapes(child_records(a, i, c)->Ok_0) =~= shapes(child_records(b, j, d)->Ok_0));
    }
}

proof fn shapes_push(r: Seq<RecordView>, s: Seq<RecordView>, x: RecordView, y: RecordView)
    requires
        shapes(r) == shapes(s),
        shape(x) == shape(y),
    ensures
        shapes(r.push(x)) == shapes(s.push(y)),
{
    assert(shapes(r.push(x)) =~= shapes(r).push(shape(x)));
    assert(shapes(s.push(y)) =~= shapes(s).push(shape(y)));
}

proof fn shapes_join(
    a: Seq<RecordView>,
    b: Seq<RecordView>,
    c: Seq<RecordView>,
    d: Seq<RecordView>,
)
    requires
        shapes(a) == shapes(b),
        shapes(c) == shapes(d),
    ensures
        shapes(a + c) == shapes(b + d),
{
    assert(shapes(a + c) =~= shapes(a) + shapes(c));
    assert(shapes(b + d) =~= shapes(b) + shapes(d));
}

proof fn file_shape(a: FileView, b: FileView, i: u32, j: u32, c: Context, d: Context)
    requires
        same_file_shape(a, b),
        same_context(c, d),
    ensures
        shapes(file_records(a, i, c)) == shapes(file_records(b, j, d)),
{
    let (r, s) = (file_records(a, i, c), file_records(b, j, d));
    if c.has_rrip {
        let (mode, permissions) = mode_of(a.kind);
        let p = posix_fields(c.options, c.fallback, i, a.metadata, mode, permissions, 1);
        let q = posix_fields(d.options, d.fallback, j, b.metadata, mode, permissions, 1);
        let names = nm_fields(encode_utf8(a.name));
        let rest = special_fields(a.kind);
        assert(same_lengths(p, q));
        assert(same_lengths(names, names));
        assert(same_lengths(rest, rest));
        lengths_join(p, q, names, names);
        lengths_join(p + names, q + names, rest, rest);
        split_length(
            p + names + rest,
            q + names + rest,
            su_space(crate::iso::name::file_identifier(c.ty, a.name).len() as int),
        );
    }
    assert(shape(r[0]) == shape(s[0]));
    assert(shapes(r) =~= shapes(s));
}

proof fn files_shape(a: Seq<FileView>, b: Seq<FileView>, i: int, j: int, c: Context, d: Context)
    requires
        a.len() == b.len(),
        forall|k: int| 0 <= k < a.len() ==> same_file_shape(#[trigger] a[k], b[k]),
        same_context(c, d),
    ensures
        shapes(files_records(a, i, c)) == shapes(files_records(b, j, d)),
    decreases a.len(),
{
    if a.len() > 0 {
        let n = a.len() - 1;
        assert forall|k: int| 0 <= k < n implies same_file_shape(
            #[trigger] a.drop_last()[k],
            b.drop_last()[k],
        ) by {
            assert(same_file_shape(a[k], b[k]));
        }
        files_shape(a.drop_last(), b.drop_last(), i, j, c, d);
        assert(same_file_shape(a[n], b[n]));
        file_shape(a[n], b[n], (i + a.len() - 1) as u32, (j + b.len() - 1) as u32, c, d);
        shapes_join(
            files_records(a.drop_last(), i, c),
            files_records(b.drop_last(), j, d),
            file_records(a[n], (i + a.len() - 1) as u32, c),
            file_records(b[n], (j + b.len() - 1) as u32, d),
        );
    } else {
        assert(shapes(files_records(a, i, c)) =~= shapes(files_records(b, j, d)));
    }
}

proof fn dots_shape(a: DirView, b: DirView, is_root: bool, c: Context, d: Context)
    requires
        same_dir_shape(a, b),
        same_context(c, d),
    ensures
        shape(dot_record(a, is_root, c)) == shape(dot_record(b, is_root, d)),
        shape(dotdot_record(a, c)) == shape(dotdot_record(b, d)),
{
    if c.has_rrip {
        let (p, q) = (dir_posix(a, 0, c), dir_posix(b, 0, d));
        let none = Seq::<u8>::empty();
        let (here, up) = (seq![nm_field(2, none)], seq![nm_field(4, none)]);
        assert(same_lengths(p, q));
        if is_root {
            let first = seq![sp_field(0)];
            let rest = seq![nm_field(2, none), er_field()];
            lengths_join(first, first, p, q);
            lengths_join(first + p, first + q, rest, rest);
            split_length(first + p + rest, first + q + rest, su_space(1));
        } else {
            lengths_join(p, q, here, here);
            split_length(p + here, q + here, su_space(1));
        }
        lengths_join(p, q, up, up);
        let (f, g) = (p + up, q + up);
        match a.relocation {
            DirectoryRelocation::Moved { logical_parent, .. } => {
                let key = crate::iso::refmap::DirKey { id: logical_parent, ty: c.ty };
                let x = if c.refs.dom().contains(key) {
                    c.refs[key]
                } else {
                    crate::iso::types::empty_ref()
                };
                let y = if d.refs.dom().contains(key) {
                    d.refs[key]
                } else {
                    crate::iso::types::empty_ref()
                };
                let (f, g) = (
                    f.push(pl_field(x.extent.0 as u32)),
                    g.push(pl_field(y.extent.0 as u32)),
                );
                assert(same_lengths(f, g));
                split_length(f, g, su_space(1));
            },
            _ => {
                split_length(f, g, su_space(1));
            },
        }
    }
}

proof fn raw_shapes(a: DirView, b: DirView, is_root: bool, i: int, j: int, c: Context, d: Context)
    requires
        same_dir_shape(a, b),
        same_context(c, d),
    ensures
        raw_records(a, is_root, i, c) is Ok <==> raw_records(b, is_root, j, d) is Ok,
        raw_records(a, is_root, i, c) is Err ==> raw_records(a, is_root, i, c)->Err_0
            == raw_records(b, is_root, j, d)->Err_0,
        raw_records(a, is_root, i, c) is Ok ==> shapes(raw_records(a, is_root, i, c)->Ok_0)
            == shapes(raw_records(b, is_root, j, d)->Ok_0),
{
    dots_shape(a, b, is_root, c, d);
    children_shape(a.dirs, b.dirs, i, j, c, d);
    files_shape(a.files, b.files, i + a.dirs.len(), j + b.dirs.len(), c, d);
    if raw_records(a, is_root, i, c) is Ok {
        let x = seq![dot_record(a, is_root, c), dotdot_record(a, c)];
        let y = seq![dot_record(b, is_root, d), dotdot_record(b, d)];
        assert(shapes(x) =~= shapes(y)) by {
            assert(shape(x[0]) == shape(y[0]));
            assert(shape(x[1]) == shape(y[1]));
        }
        let (p, q) = (child_records(a.dirs, i, c)->Ok_0, child_records(b.dirs, j, d)->Ok_0);
        shapes_join(x, y, p, q);
        shapes_join(
            x + p,
            y + q,
            files_records(a.files, i + a.dirs.len(), c),
            files_records(b.files, j + b.dirs.len(), d),
        );
    }
}

proof fn shapes_at(a: Seq<RecordView>, b: Seq<RecordView>)
    requires
        shapes(a) == shapes(b),
    ensures
        a.len() == b.len(),
        forall|k: int|
            #![trigger a[k]]
            #![trigger b[k]]
            0 <= k < a.len() ==> shape(a[k]) == shape(b[k]),
{
    assert(a.len() == shapes(a).len() && b.len() == shapes(b).len());
    assert forall|k: int|
        #![trigger a[k]]
        #![trigger b[k]]
        0 <= k < a.len() implies shape(a[k]) == shape(b[k]) by {
        assert(shapes(a)[k] == shape(a[k]));
        assert(shapes(b)[k] == shape(b[k]));
    }
}

proof fn group_end_shape(a: Seq<RecordView>, b: Seq<RecordView>, start: int)
    requires
        shapes(a) == shapes(b),
        0 <= start,
    ensures
        group_end(a, start) == group_end(b, start),
    decreases a.len() - start,
{
    shapes_at(a, b);
    if start < a.len() {
                assert(shape(a[start]) == shape(b[start]));
        if start + 1 < a.len() {
            group_end_shape(a, b, start + 1);
        }
    }
}

proof fn dedup_shape(
    a: Seq<RecordView>,
    b: Seq<RecordView>,
    start: int,
    seen: Set<Seq<u8>>,
    ty: EntryType,
)
    requires
        shapes(a) == shapes(b),
        0 <= start,
    ensures
        shapes(dedup_from(a, start, seen, ty)) == shapes(dedup_from(b, start, seen, ty)),
    decreases a.len() - start,
{
    shapes_at(a, b);
    if start < a.len() {
                assert(shape(a[start]) == shape(b[start]));
        assert(a[start].name == b[start].name);
        if is_special(a[start].name) {
            dedup_shape(a, b, start + 1, seen, ty);
        } else {
            group_end_shape(a, b, start);
            group_end_bounds(a, start);
            let end = group_end(a, start);
            let name = unique_name(a[start].name, seen, ty);
            let (x, y) = (renamed(a, start, end, name), renamed(b, start, end, name));
            assert(shapes(x) =~= shapes(y)) by {
                assert forall|k: int| 0 <= k < x.len() implies shape(#[trigger] x[k])
                    == shape(y[k]) by {
                assert(shape(a[k]) == shape(b[k]));
                }
            }
            dedup_shape(x, y, end, seen.insert(name), ty);
        }
    }
}

proof fn sorted_shape(a: Seq<RecordView>, b: Seq<RecordView>)
    requires
        shapes(a) == shapes(b),
    ensures
        shapes(sorted(a)) == shapes(sorted(b)),
        sorted(a).len() == a.len(),
{
    shapes_at(a, b);
    assert(sort_keys(a) =~= sort_keys(b)) by {
        assert forall|k: int| 0 <= k < a.len() implies #[trigger] sort_keys(a)[k]
            == sort_keys(b)[k] by {
                assert(shape(a[k]) == shape(b[k]));
        }
    }
    stable_order_exists(sort_keys(a));
    let p = choose|perm: Seq<int>| stable_order(sort_keys(a), perm);
    assert(stable_order(sort_keys(a), p));
    assert(sorted(a) == permuted(a, p));
    assert(sorted(b) == permuted(b, p));
    assert(shapes(sorted(a)) =~= shapes(sorted(b))) by {
        assert forall|k: int| 0 <= k < p.len() implies shape(#[trigger] sorted(a)[k])
            == shape(sorted(b)[k]) by {
            assert(0 <= p[k] < a.len());
                assert(shape(a[p[k]]) == shape(b[p[k]]));
        }
    }
}

/// Records of one shape take the same space.
pub proof fn shape_decides_size(a: Seq<RecordView>, b: Seq<RecordView>, pos: int, s: int)
    requires
        shapes(a) == shapes(b),
    ensures
        pack_end(pos, a, s) == pack_end(pos, b, s),
        overflow_total(a) == overflow_total(b),
        a.len() == b.len(),
        forall|i: int| 0 <= i < a.len() ==> record_size(#[trigger] a[i]) == record_size(b[i]),
    decreases a.len(),
{
    shapes_at(a, b);
    assert forall|i: int| 0 <= i < a.len() implies record_size(#[trigger] a[i]) == record_size(
        b[i],
    ) by {
                assert(shape(a[i]) == shape(b[i]));
    }
    if a.len() > 0 {
        assert(shapes(a.drop_last()) =~= shapes(a).drop_last());
        assert(shapes(b.drop_last()) =~= shapes(b).drop_last());
        shape_decides_size(a.drop_last(), b.drop_last(), pos, s);
                assert(shape(a[a.len() - 1]) == shape(b[a.len() - 1]));
    }
}

/// The records of a directory can be built, and have the same identifiers, flags and
/// sizes, wherever the directory, its children and its files lie, and whatever serial
/// numbers they get.
pub proof fn sizes_do_not_depend_on_extents(
    a: DirView,
    b: DirView,
    is_root: bool,
    i: int,
    j: int,
    c: Context,
    d: Context,
)
    requires
        same_dir_shape(a, b),
        same_context(c, d),
    ensures
        raw_records(a, is_root, i, c) is Ok <==> raw_records(b, is_root, j, d) is Ok,
        raw_records(a, is_root, i, c) is Err ==> raw_records(a, is_root, i, c)->Err_0
            == raw_records(b, is_root, j, d)->Err_0,
        raw_records(a, is_root, i, c) is Ok ==> shapes(
            sorted(deduped(raw_records(a, is_root, i, c)->Ok_0, c.ty)),
        ) == shapes(sorted(deduped(raw_records(b, is_root, j, d)->Ok_0, d.ty))),
{
    raw_shapes(a, b, is_root, i, j, c, d);
    if raw_records(a, is_root, i, c) is Ok {
        let x = raw_records(a, is_root, i, c)->Ok_0;
        let y = raw_records(b, is_root, j, d)->Ok_0;
        dedup_shape(x, y, 0, Set::empty(), c.ty);
        sorted_shape(deduped(x, c.ty), deduped(y, c.ty));
    }
}

/// Whether overflow is announced by a CE field, which ends the record's part.
pub open spec fn announced(records: Seq<RecordView>) -> bool {
    forall|i: int|
        0 <= i < records.len() && (#[trigger] records[i]).overflow.len() > 0
            ==> records[i].inline.len() >= 28
}

proof fn split_is_announced(fields: Seq<Seq<u8>>, max: int)
    ensures
        split_overflow(fields, max).len() > 0 ==> split_inline(fields, max).len() >= 28,
{
    let n = inline_count(fields, max) as int;
    if n == fields.len() {
        assert(fields.skip(n) =~= Seq::empty());
    }
}

/// In every directory as it is built, overflow is announced.
pub proof fn raw_overflow_is_announced(dir: DirView, is_root: bool, inode: int, c: Context)
    requires
        raw_records(dir, is_root, inode, c) is Ok,
    ensures
        announced(raw_records(dir, is_root, inode, c)->Ok_0),
{
    let raw = raw_records(dir, is_root, inode, c)->Ok_0;
    let dots = seq![dot_record(dir, is_root, c), dotdot_record(dir, c)];
    let children = child_records(dir.dirs, inode, c)->Ok_0;
    let files = files_records(dir.files, inode + dir.dirs.len(), c);
    dots_are_announced(dir, is_root, c);
    children_are_announced(dir.dirs, inode, c);
    files_are_announced(dir.files, inode + dir.dirs.len(), c);
    assert(raw == dots + children + files);
    assert forall|i: int|
        0 <= i < raw.len() && (#[trigger] raw[i]).overflow.len() > 0 implies raw[i].inline.len()
        >= 28 by {
        if i < 2 {
            assert(raw[i] == dots[i]);
        } else if i < 2 + children.len() {
            assert(raw[i] == children[i - 2]);
        } else {
            assert(raw[i] == files[i - 2 - children.len()]);
        }
    }
}

proof fn dots_are_announced(dir: DirView, is_root: bool, c: Context)
    ensures
        dot_record(dir, is_root, c).overflow.len() > 0 ==> dot_record(
            dir,
            is_root,
            c,
        ).inline.len() >= 28,
        dotdot_record(dir, c).overflow.len() > 0 ==> dotdot_record(dir, c).inline.len() >= 28,
{
    if c.has_rrip {
        let fields = if is_root {
            seq![crate::iso::susp::sp_field(0)] + dir_posix(dir, 0, c) + seq![
                nm_field(2, Seq::empty()),
                crate::iso::susp::er_field(),
            ]
        } else {
            dir_posix(dir, 0, c) + seq![nm_field(2, Seq::empty())]
        };
        split_is_announced(fields, su_space(1));
        let up = dir_posix(dir, 0, c) + seq![nm_field(4, Seq::empty())];
        match dir.relocation {
            DirectoryRelocation::Moved { logical_parent, .. } => {
                let key = crate::iso::refmap::DirKey { id: logical_parent, ty: c.ty };
                let parent = if c.refs.dom().contains(key) {
                    c.refs[key]
                } else {
                    crate::iso::types::empty_ref()
                };
                split_is_announced(up.push(pl_field(parent.extent.0 as u32)), su_space(1));
            },
            _ => {
                split_is_announced(up, su_space(1));
            },
        }
    }
}

proof fn child_is_announced(dir: DirView, inode: u32, c: Context)
    requires
        child_record(dir, inode, c) is Ok,
    ensures
        child_record(dir, inode, c)->Ok_0.overflow.len() > 0 ==> child_record(
            dir,
            inode,
            c,
        )->Ok_0.inline.len() >= 28,
{
    reveal(child_record);
    if c.has_rrip {
        let max = su_space(crate::iso::name::base_identifier(c.ty, dir.name).len() as int);
        let fields = dir_posix(dir, inode, c) + nm_fields(encode_utf8(dir.rrip_name));
        match dir.relocation {
            DirectoryRelocation::Placeholder { target } => {
                let key = crate::iso::refmap::DirKey { id: target, ty: c.ty };
                split_is_announced(fields.push(cl_field(c.refs[key].extent.0 as u32)), max);
            },
            DirectoryRelocation::Moved { .. } => {
                split_is_announced(fields.push(crate::iso::susp::re_field()), max);
            },
            DirectoryRelocation::InPlace => {
                split_is_announced(fields, max);
            },
        }
    }
}

proof fn children_are_announced(dirs: Seq<DirView>, inode: int, c: Context)
    requires
        child_records(dirs, inode, c) is Ok,
    ensures
        announced(child_records(dirs, inode, c)->Ok_0),
    decreases dirs.len(),
{
    if dirs.len() > 0 {
        children_are_announced(dirs.drop_last(), inode, c);
        child_is_announced(dirs.last(), (inode + dirs.len() - 1) as u32, c);
    }
}

proof fn file_is_announced(file: FileView, inode: u32, c: Context)
    ensures
        announced(file_records(file, inode, c)),
{
    let records = file_records(file, inode, c);
    if c.has_rrip {
        let (mode, permissions) = mode_of(file.kind);
        let fields = posix_fields(
            c.options,
            c.fallback,
            inode,
            file.metadata,
            mode,
            permissions,
            1,
        ) + nm_fields(encode_utf8(file.name)) + special_fields(file.kind);
        split_is_announced(
            fields,
            su_space(crate::iso::name::file_identifier(c.ty, file.name).len() as int),
        );
    }
    assert forall|i: int|
        0 <= i < records.len() && (#[trigger] records[i]).overflow.len()
            > 0 implies records[i].inline.len() >= 28 by {
        if i > 0 {
            assert(records[i].overflow.len() == 0);
        }
    }
}

proof fn files_are_announced(files: Seq<FileView>, inode: int, c: Context)
    ensures
        announced(files_records(files, inode, c)),
    decreases files.len(),
{
    if files.len() > 0 {
        files_are_announced(files.drop_last(), inode, c);
        let a = files_records(files.drop_last(), inode, c);
        let b = file_records(files.last(), (inode + files.len() - 1) as u32, c);
        file_is_announced(files.last(), (inode + files.len() - 1) as u32, c);
        assert forall|i: int|
            0 <= i < (a + b).len() && (#[trigger] (a + b)[i]).overflow.len() > 0 implies (a
            + b)[i].inline.len() >= 28 by {
            if i < a.len() {
                assert((a + b)[i] == a[i]);
            } else {
                assert((a + b)[i] == b[i - a.len()]);
            }
        }
    }
}

/// Keeping identifiers apart keeps overflow announced.
pub proof fn dedup_keeps_announcements(
    records: Seq<RecordView>,
    start: int,
    seen: Set<Seq<u8>>,
    ty: EntryType,
)
    requires
        announced(records),
        0 <= start,
    ensures
        announced(dedup_from(records, start, seen, ty)),
    decreases records.len() - start,
{
    if start < records.len() {
        if is_special(records[start].name) {
            dedup_keeps_announcements(records, start + 1, seen, ty);
        } else {
            group_end_bounds(records, start);
            let end = group_end(records, start);
            let name = unique_name(records[start].name, seen, ty);
            let next = renamed(records, start, end, name);
            assert forall|i: int|
                0 <= i < next.len() && (#[trigger] next[i]).overflow.len()
                    > 0 implies next[i].inline.len() >= 28 by {
                assert(records[i].overflow.len() > 0);
            }
            dedup_keeps_announcements(next, end, seen.insert(name), ty);
        }
    }
}

/// Sorting keeps overflow announced.
pub proof fn sorted_keeps_announcements(records: Seq<RecordView>)
    requires
        announced(records),
    ensures
        announced(sorted(records)),
{
    stable_order_exists(sort_keys(records));
    let p = choose|perm: Seq<int>| stable_order(sort_keys(records), perm);
    assert(stable_order(sort_keys(records), p));
    assert(sorted(records) == permuted(records, p));
    assert forall|i: int|
        0 <= i < sorted(records).len() && (#[trigger] sorted(records)[i]).overflow.len()
            > 0 implies sorted(records)[i].inline.len() >= 28 by {
        assert(0 <= p[i] < records.len());
        assert(sorted(records)[i] == records[p[i]]);
    }
}

} // verus!
