//! What holds of the records of every directory.

#[allow(unused_imports)]
use crate::iso::dedup::{dedup_name, dedup_names_differ, suffix};
#[allow(unused_imports)]
use crate::iso::name::{base_identifier, file_identifier};
#[allow(unused_imports)]
use crate::iso::order::{before, lex_lt, lex_lt_total, stable_order};
#[allow(unused_imports)]
use crate::iso::records::{
    child_record, child_records, dedup_from, deduped, dot_record, dotdot_record, file_records,
    files_records, first_unseen, group_end, group_end_bounds, is_special, permuted, raw_records,
    renamed, sort_keys, unique_name, Context, RecordView,
};
#[allow(unused_imports)]
use crate::iso::types::{continues, EntryType, FileFlags};
#[allow(unused_imports)]
use crate::iso::written::{DirView, FileView};
#[allow(unused_imports)]
use crate::text::decimal_is_digits;
use vstd::prelude::*;

verus! {

/// Whether the records of the directory itself and its parent stand alone: none of them
/// is continued, and none follows a record that is.
pub open spec fn dots_stand_alone(records: Seq<RecordView>) -> bool {
    forall|k: int|
        0 <= k < records.len() && is_special((#[trigger] records[k]).name) ==> {
            &&& !continues(records[k].flags)
            &&& k > 0 ==> !continues(records[k - 1].flags)
        }
}

/// Whether the records from `i` to `j` belong to one file: each but the last is continued.
pub open spec fn same_file(records: Seq<RecordView>, i: int, j: int) -> bool {
    forall|k: int| i <= k < j ==> continues((#[trigger] records[k]).flags)
}

/// Whether a new file starts at `start`.
spec fn starts_file(records: Seq<RecordView>, start: int) -> bool {
    start <= 0 || start >= records.len() || !continues(records[start - 1].flags)
}

/// Some suffix gives an identifier that was not seen.
pub proof fn unseen_exists(name: Seq<u8>, k: nat, seen: Set<Seq<u8>>, ty: EntryType)
    requires
        seen.finite(),
        k >= 1,
        forall|j: nat| 1 <= j < k ==> seen.contains(#[trigger] dedup_name(name, j, ty)),
    ensures
        exists|m: nat| first_unseen(name, m, seen, ty),
    decreases seen.len() + 2 - k,
{
    let picks = Seq::new((k - 1) as nat, |j: int| dedup_name(name, (j + 1) as nat, ty));
    assert(picks.no_duplicates()) by {
        assert forall|i: int, j: int|
            0 <= i < picks.len() && 0 <= j < picks.len() && i != j implies picks[i]
            != picks[j] by {
            if picks[i] == picks[j] {
                dedup_names_differ(name, (i + 1) as nat, (j + 1) as nat, ty);
            }
        }
    }
    picks.unique_seq_to_set();
    assert forall|x: Seq<u8>| picks.to_set().contains(x) implies seen.contains(x) by {
        let i = choose|i: int| 0 <= i < picks.len() && picks[i] == x;
        assert(seen.contains(dedup_name(name, (i + 1) as nat, ty)));
    }
    vstd::set_lib::lemma_len_subset(picks.to_set(), seen);
    if seen.contains(dedup_name(name, k, ty)) {
        unseen_exists(name, k + 1, seen, ty);
    } else {
        assert(first_unseen(name, k, seen, ty));
    }
}

proof fn unique_name_is_new(name: Seq<u8>, seen: Set<Seq<u8>>, ty: EntryType)
    requires
        seen.finite(),
        !is_special(name),
    ensures
        !seen.contains(unique_name(name, seen, ty)),
        !is_special(unique_name(name, seen, ty)),
{
    if seen.contains(name) {
        unseen_exists(name, 1, seen, ty);
        let k = choose|k: nat| first_unseen(name, k, seen, ty);
        decimal_is_digits(k);
        assert(suffix(k).len() >= 2);
        assert(dedup_name(name, k, ty).len() >= 2);
    }
}

proof fn dedup_from_law(
    records: Seq<RecordView>,
    start: int,
    seen: Set<Seq<u8>>,
    ty: EntryType,
)
    requires
        seen.finite(),
        0 <= start,
        dots_stand_alone(records),
        starts_file(records, start),
    ensures
        ({
            let out = dedup_from(records, start, seen, ty);
            &&& out.len() == records.len()
            &&& forall|i: int|
                0 <= i < out.len() ==> (#[trigger] out[i]) == (RecordView {
                    name: out[i].name,
                    ..records[i]
                })
            &&& forall|i: int| 0 <= i < start && i < out.len() ==> (#[trigger] out[i]) == records[i]
            &&& forall|i: int|
                start <= i < out.len() ==> is_special((#[trigger] out[i]).name) == is_special(
                    records[i].name,
                )
            &&& forall|i: int|
                start <= i < out.len() && !is_special((#[trigger] out[i]).name)
                    ==> !seen.contains(out[i].name)
            &&& forall|i: int, j: int|
                start <= i < j < out.len() && !is_special(out[i].name) && !is_special(out[j].name)
                    ==> (((#[trigger] out[i]).name == (#[trigger] out[j]).name) <==> same_file(
                    records,
                    i,
                    j,
                ))
        }),
    decreases records.len() - start,
{
    let out = dedup_from(records, start, seen, ty);
    if start >= records.len() {
    } else if is_special(records[start].name) {
        dedup_from_law(records, start + 1, seen, ty);
    } else {
        group_end_bounds(records, start);
        let end = group_end(records, start);
        let name = unique_name(records[start].name, seen, ty);
        unique_name_is_new(records[start].name, seen, ty);
        let next = renamed(records, start, end, name);
        assert forall|k: int| start <= k < end implies !is_special(
            (#[trigger] records[k]).name,
        ) by {
            if k > start {
                assert(continues(records[k - 1].flags));
            }
        }
        assert(dots_stand_alone(next)) by {
            assert forall|k: int|
                0 <= k < next.len() && is_special((#[trigger] next[k]).name) implies !continues(
                next[k].flags,
            ) && (k > 0 ==> !continues(next[k - 1].flags)) by {
                assert(is_special(records[k].name));
            }
        }
        dedup_from_law(next, end, seen.insert(name), ty);
        assert(out == dedup_from(next, end, seen.insert(name), ty));
        assert forall|i: int, j: int|
            start <= i < j < out.len() && !is_special(out[i].name) && !is_special(
                out[j].name,
            ) implies (((#[trigger] out[i]).name == (#[trigger] out[j]).name) <==> same_file(
            records,
            i,
            j,
        )) by {
            if j < end {
                assert(out[i] == next[i] && out[j] == next[j]);
                assert(same_file(records, i, j));
            } else if i < end {
                assert(out[i] == next[i]);
                assert(!seen.insert(name).contains(out[j].name));
                assert(!continues(records[end - 1].flags));
                assert(!same_file(records, i, j));
            } else {
                assert(same_file(records, i, j) == same_file(next, i, j)) by {
                    if same_file(records, i, j) {
                        assert forall|k: int| i <= k < j implies continues(
                            (#[trigger] next[k]).flags,
                        ) by {
                            assert(continues(records[k].flags));
                        }
                    }
                    if same_file(next, i, j) {
                        assert forall|k: int| i <= k < j implies continues(
                            (#[trigger] records[k]).flags,
                        ) by {
                            assert(continues(next[k].flags));
                        }
                    }
                }
            }
        }
    }
}

/// After duplicates are kept apart, two records have the same identifier exactly where
/// they belong to one file, and nothing but identifiers has changed.
pub proof fn dedup_separates_files(records: Seq<RecordView>, ty: EntryType)
    requires
        dots_stand_alone(records),
    ensures
        ({
            let out = deduped(records, ty);
            &&& out.len() == records.len()
            &&& forall|i: int|
                0 <= i < out.len() ==> (#[trigger] out[i]) == (RecordView {
                    name: out[i].name,
                    ..records[i]
                })
            &&& forall|i: int|
                0 <= i < out.len() ==> is_special((#[trigger] out[i]).name) == is_special(
                    records[i].name,
                )
            &&& forall|i: int, j: int|
                0 <= i < j < out.len() && !is_special(out[i].name) && !is_special(out[j].name) ==> (
                ((#[trigger] out[i]).name == (#[trigger] out[j]).name) <==> same_file(
                    records,
                    i,
                    j,
                ))
        }),
{
    dedup_from_law(records, 0, Set::empty(), ty);
}

/// An identifier that keeps its own name is the first of its name.
pub proof fn dedup_keeps_the_first(records: Seq<RecordView>, ty: EntryType)
    requires
        records.len() > 0,
        dots_stand_alone(records),
        !is_special(records[0].name),
    ensures
        deduped(records, ty)[0].name == records[0].name,
{
    group_end_bounds(records, 0);
    let end = group_end(records, 0);
    let name = records[0].name;
    let next = renamed(records, 0, end, name);
    assert(next =~= renamed(records, 0, end, unique_name(name, Set::empty(), ty)));
    assert(dots_stand_alone(next)) by {
        assert forall|k: int|
            0 <= k < next.len() && is_special((#[trigger] next[k]).name) implies !continues(
            next[k].flags,
        ) && (k > 0 ==> !continues(next[k - 1].flags)) by {
            if k < end {
                assert(next[k].name == name);
            } else {
                assert(is_special(records[k].name));
            }
        }
    }
    dedup_from_law(next, end, Set::empty().insert(name), ty);
}

/// No identifier stands for the directory itself or its parent.
pub proof fn no_special_identifier(ty: EntryType, name: Seq<char>)
    ensures
        !is_special(base_identifier(ty, name)),
        !is_special(file_identifier(ty, name)),
{
    let id = base_identifier(ty, name);
    match ty {
        EntryType::Joliet { .. } => {
            assert(id.len() % 2 == 0);
        },
        _ => {
            assert(id.len() > 0 ==> id[0] >= 0x2E);
        },
    }
}

/// Which flags say that a record is continued.
pub proof fn flag_values()
    ensures
        !continues(FileFlags { bits: 0x02 }),
        !continues(FileFlags { bits: 0 }),
        continues(FileFlags { bits: 0x80 }),
{
    assert(0x02u8 & 0x80u8 != 0x80u8) by (bit_vector);
    assert(0u8 & 0x80u8 != 0x80u8) by (bit_vector);
    assert(0x80u8 & 0x80u8 == 0x80u8) by (bit_vector);
}

proof fn child_records_plain(dirs: Seq<DirView>, inode: int, c: Context)
    requires
        child_records(dirs, inode, c) is Ok,
    ensures
        child_records(dirs, inode, c)->Ok_0.len() == dirs.len(),
        forall|i: int|
            0 <= i < dirs.len() ==> {
                let r = #[trigger] child_records(dirs, inode, c)->Ok_0[i];
                !is_special(r.name) && r.flags == (FileFlags { bits: 0x02 })
            },
    decreases dirs.len(),
{
    if dirs.len() > 0 {
        child_records_plain(dirs.drop_last(), inode, c);
        reveal(child_record);
        no_special_identifier(c.ty, dirs.last().name);
    }
}

proof fn files_records_plain(files: Seq<FileView>, inode: int, c: Context)
    ensures
        forall|i: int|
            0 <= i < files_records(files, inode, c).len() ==> !is_special(
                (#[trigger] files_records(files, inode, c)[i]).name,
            ),
    decreases files.len(),
{
    if files.len() > 0 {
        files_records_plain(files.drop_last(), inode, c);
        no_special_identifier(c.ty, files.last().name);
        let a = files_records(files.drop_last(), inode, c);
        let b = file_records(files.last(), (inode + files.len() - 1) as u32, c);
        assert forall|i: int| 0 <= i < (a + b).len() implies !is_special(
            (#[trigger] (a + b)[i]).name,
        ) by {
            if i >= a.len() {
                assert((a + b)[i] == b[i - a.len()]);
            }
        }
    }
}

/// In every directory as it is built, only the first two records are those of the
/// directory itself and its parent, and they stand alone.
pub proof fn built_records_are_proper(dir: DirView, is_root: bool, inode: int, c: Context)
    requires
        raw_records(dir, is_root, inode, c) is Ok,
    ensures
        ({
            let raw = raw_records(dir, is_root, inode, c)->Ok_0;
            &&& dots_stand_alone(raw)
            &&& raw.len() >= 2
            &&& raw[0].name == seq![0u8]
            &&& raw[1].name == seq![1u8]
            &&& forall|i: int| 2 <= i < raw.len() ==> !is_special((#[trigger] raw[i]).name)
        }),
{
    let raw = raw_records(dir, is_root, inode, c)->Ok_0;
    let dots = seq![dot_record(dir, is_root, c), dotdot_record(dir, c)];
    let children = child_records(dir.dirs, inode, c)->Ok_0;
    let files = files_records(dir.files, inode + dir.dirs.len(), c);
    flag_values();
    child_records_plain(dir.dirs, inode, c);
    files_records_plain(dir.files, inode + dir.dirs.len(), c);
    assert(raw == dots + children + files);
    assert(raw[0] == dots[0] && raw[1] == dots[1]);
    assert forall|i: int| 2 <= i < raw.len() implies !is_special((#[trigger] raw[i]).name) by {
        if i < 2 + children.len() {
            assert(raw[i] == children[i - 2]);
        } else {
            assert(raw[i] == files[i - 2 - children.len()]);
        }
    }
}

/// Of the records of a directory in ascending order, the first is that of the directory
/// itself, the second that of its parent, and the identifiers of the others ascend.
pub proof fn ascending_order_starts_with_dots(records: Seq<RecordView>, perm: Seq<int>)
    requires
        stable_order(sort_keys(records), perm),
        records.len() >= 2,
        records[0].name == seq![0u8],
        records[1].name == seq![1u8],
        forall|i: int| 2 <= i < records.len() ==> !is_special((#[trigger] records[i]).name),
    ensures
        ({
            let out = permuted(records, perm);
            &&& out[0] == records[0]
            &&& out[1] == records[1]
            &&& forall|i: int, j: int|
                2 <= i < j < out.len() ==> !lex_lt(
                    (#[trigger] out[j]).name,
                    (#[trigger] out[i]).name,
                )
        }),
{
    let keys = sort_keys(records);
    let out = permuted(records, perm);
    assert(keys[0] =~= seq![0u8, 0u8]);
    assert(keys[1] =~= seq![1u8, 1u8]);
    assert forall|i: int| 2 <= i < records.len() implies (#[trigger] keys[i])[0] == 2 by {
        assert(!is_special(records[i].name));
        assert(records[i].name != seq![0u8] && records[i].name != seq![1u8]);
    }
    // Whatever is not the directory itself comes after it; likewise for its parent.
    assert(perm.contains(0) && perm.contains(1));
    let a = choose|a: int| 0 <= a < perm.len() && perm[a] == 0;
    let b = choose|b: int| 0 <= b < perm.len() && perm[b] == 1;
    if a > 0 {
        assert(before(keys, perm[0], perm[a]));
        lex_lt_total(keys[perm[0]], keys[0]);
        if perm[0] >= 2 {
            assert(keys[perm[0]][0] == 2);
        }
        assert(false);
    }
    if b != 1 {
        assert(b > 1);
        assert(before(keys, perm[1], perm[b]));
        assert(before(keys, perm[0], perm[1]));
        lex_lt_total(keys[0], keys[0]);
        lex_lt_total(keys[1], keys[1]);
        if perm[1] >= 2 {
            assert(keys[perm[1]][0] == 2);
        }
        assert(false);
    }
    assert forall|i: int, j: int| 2 <= i < j < out.len() implies !lex_lt(
        (#[trigger] out[j]).name,
        (#[trigger] out[i]).name,
    ) by {
        let (p, q) = (perm[i], perm[j]);
        assert(before(keys, perm[1], p) && before(keys, perm[0], p));
        assert(before(keys, perm[1], q) && before(keys, perm[0], q));
        lex_lt_total(keys[0], keys[0]);
        lex_lt_total(keys[1], keys[1]);
        assert(p >= 2 && q >= 2);
        assert(before(keys, p, q));
        assert(keys[p].drop_first() =~= records[p].name);
        assert(keys[q].drop_first() =~= records[q].name);
        assert(keys[p][0] == 2 && keys[q][0] == 2);
        lex_lt_total(records[p].name, records[q].name);
    }
}

} // verus!
