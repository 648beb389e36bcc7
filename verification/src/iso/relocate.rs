//! Relocation of directories that lie too deep for the format, and the order in which
//! directories and files are laid out.

use std::sync::Arc;

use crate::iso::refmap::RefMap;
#[allow(unused_imports)]
use crate::iso::tree::{name_len, KindView};
use crate::iso::types::{DirectoryRef, EntryType};
use crate::iso::written::{
    DirectoryId, DirectoryRelocation, WrittenDirectory, WrittenFile, WrittenFiles,
};
#[allow(unused_imports)]
use crate::iso::written::{
    dir_at, dirs_view, new_dir, path_goes_down, valid_path, DirView, FileView,
};
use crate::bytes::push_all;
use crate::text::{decimal_bytes, share, str_equal, string_of_bytes, zero_pad};
#[allow(unused_imports)]
use crate::text::{
    ascii_chars, decimal, decimal_injective, decimal_is_digits, decimal_len_usize, pigeonhole,
    zero_padded,
};
use vstd::prelude::*;

verus! {

/// `RRD`
pub open spec fn relocated_prefix() -> Seq<u8> {
    seq![0x52u8, 0x52u8, 0x44u8]
}

/// The name of the relocated directory number `n`: `RRD` and at least six digits.
pub open spec fn relocated_name(n: nat) -> Seq<char> {
    ascii_chars(relocated_prefix() + zero_padded(decimal(n), 6))
}

/// `RR_MOVED`
pub open spec fn holder_base() -> Seq<u8> {
    seq![0x52u8, 0x52u8, 0x5Fu8, 0x4Du8, 0x4Fu8, 0x56u8, 0x45u8, 0x44u8]
}

/// A candidate for the name of the directory that holds the relocated ones: `RR_MOVED`,
/// and then `RR_MOVED_1`, `RR_MOVED_2` and so on.
pub open spec fn holder_name(k: nat) -> Seq<char> {
    if k == 0 {
        ascii_chars(holder_base())
    } else {
        ascii_chars(holder_base() + seq![0x5Fu8] + decimal(k))
    }
}

/// Whether a directory of the given name is among `dirs`.
pub open spec fn name_taken(dirs: Seq<DirView>, name: Seq<char>) -> bool {
    exists|i: int| 0 <= i < dirs.len() && (#[trigger] dirs[i]).name == name
}

/// Whether candidate `k` is the first that is not taken.
pub open spec fn first_free(dirs: Seq<DirView>, k: nat) -> bool {
    &&& !name_taken(dirs, holder_name(k))
    &&& forall|j: nat| j < k ==> name_taken(dirs, #[trigger] holder_name(j))
}

/// The length of the path to a child.
pub open spec fn child_path_len(path_len: nat, name: Seq<char>) -> nat {
    if path_len == 0 {
        name_len(name)
    } else {
        path_len + 1 + name_len(name)
    }
}

/// What relocation makes of the children of a directory.
pub struct Relocated {
    /// The children that stay, with placeholders for those that do not.
    pub retained: Seq<DirView>,
    /// The relocated directories so far.
    pub moved: Seq<DirView>,
    /// The number of the next relocated directory.
    pub next: nat,
}

/// A placeholder for a relocated directory.
pub open spec fn placeholder(dir: DirView) -> DirView {
    DirView {
        relocation: DirectoryRelocation::Placeholder { target: dir.id },
        ..new_dir(dir.rrip_name)
    }
}

/// Relocation of `dirs`, children of the directory number `parent` at `depth` (the root
/// has depth 1) whose path has `path_len` bytes. A child whose depth would exceed 8 or
/// whose path would exceed 255 bytes gets a new name, goes to the relocated ones and
/// leaves a placeholder; its own children are counted from depth 3 on.
pub open spec fn relocate_list(
    dirs: Seq<DirView>,
    parent: usize,
    depth: nat,
    path_len: nat,
    moved: Seq<DirView>,
    next: nat,
) -> Relocated
    decreases dirs,
{
    if dirs.len() == 0 {
        Relocated { retained: Seq::empty(), moved, next }
    } else {
        let r = relocate_list(dirs.drop_last(), parent, depth, path_len, moved, next);
        let child = dirs.last();
        let len = child_path_len(path_len, child.name);
        if depth + 1 > 8 || len > 255 {
            let name = relocated_name(r.next);
            let sub = relocate_list(
                child.dirs,
                child.id,
                3,
                9 + name_len(name),
                r.moved,
                r.next + 1,
            );
            Relocated {
                retained: r.retained.push(placeholder(child)),
                moved: sub.moved.push(
                    DirView {
                        name,
                        relocation: DirectoryRelocation::Moved {
                            id: child.id,
                            logical_parent: parent,
                        },
                        dirs: sub.retained,
                        ..child
                    },
                ),
                next: sub.next,
            }
        } else {
            let sub = relocate_list(child.dirs, child.id, depth + 1, len, r.moved, r.next);
            Relocated {
                retained: r.retained.push(DirView { dirs: sub.retained, ..child }),
                moved: sub.moved,
                next: sub.next,
            }
        }
    }
}

/// Relocation of a whole tree: the relocated directories stand in a directory of their
/// own, which comes first in the root.
pub open spec fn relocated_root(root: DirView) -> DirView {
    let r = relocate_list(root.dirs, root.id, 1, 0, Seq::empty(), 1);
    if r.moved.len() == 0 {
        DirView { dirs: r.retained, ..root }
    } else {
        let k = choose|k: nat| first_free(r.retained, k);
        DirView {
            dirs: seq![
                DirView { id: usize::MAX, dirs: r.moved, ..new_dir(holder_name(k)) },
            ] + r.retained,
            ..root
        }
    }
}

/// How many directories there are, at any depth.
pub open spec fn tree_size(dirs: Seq<DirView>) -> nat
    decreases dirs,
{
    if dirs.len() == 0 {
        0
    } else {
        tree_size(dirs.drop_last()) + 1 + tree_size(dirs.last().dirs)
    }
}

proof fn tree_size_prefix(dirs: Seq<DirView>, k: int)
    requires
        0 <= k < dirs.len(),
    ensures
        tree_size(dirs.take(k)) + 1 + tree_size(dirs[k].dirs) == tree_size(dirs.take(k + 1)),
        tree_size(dirs.take(k + 1)) <= tree_size(dirs),
    decreases dirs.len() - k,
{
    assert(dirs.take(k + 1).drop_last() =~= dirs.take(k));
    if k + 1 < dirs.len() {
        tree_size_prefix(dirs, k + 1);
    } else {
        assert(dirs.take(k + 1) =~= dirs);
    }
}

/// The name of a relocated directory has at most 23 bytes.
pub proof fn relocated_name_len(n: usize)
    ensures
        name_len(relocated_name(n as nat)) <= 23,
{
    decimal_len_usize(n);
    decimal_is_digits(n as nat);
    zero_padded_digits(decimal(n as nat), 6);
    let s = relocated_prefix() + zero_padded(decimal(n as nat), 6);
    ascii_name_len(s);
}

proof fn zero_padded_digits(s: Seq<u8>, width: nat)
    requires
        forall|i: int| 0 <= i < s.len() ==> 48 <= #[trigger] s[i] <= 57,
    ensures
        zero_padded(s, width).len() <= s.len() + width,
        forall|i: int|
            0 <= i < zero_padded(s, width).len() ==> 48 <= #[trigger] zero_padded(s, width)[i]
                <= 57,
        zero_padded(s, width).len() == (if s.len() < width {
            width
        } else {
            s.len()
        }),
    decreases width - s.len(),
{
    if s.len() < width {
        zero_padded_digits(seq![48u8] + s, width);
    }
}

proof fn ascii_name_len(s: Seq<u8>)
    requires
        forall|i: int| 0 <= i < s.len() ==> #[trigger] s[i] < 128,
    ensures
        name_len(ascii_chars(s)) == s.len(),
{
    assert(vstd::utf8::is_ascii_chars(ascii_chars(s)));
    vstd::utf8::is_ascii_chars_encode_utf8(ascii_chars(s));
}

/// The name of a relocated directory has nine characters as long as its number has six
/// digits, and never more than 23, one byte each.
pub proof fn relocated_name_is_short(n: nat)
    requires
        n <= usize::MAX,
    ensures
        relocated_name(n).len() <= (if n < 1000000 {
            9int
        } else {
            23
        }),
        name_len(relocated_name(n)) == relocated_name(n).len(),
{
    decimal_len_usize(n as usize);
    decimal_is_digits(n);
    if n < 1000000 {
        reveal_with_fuel(vstd::arithmetic::power::pow, 7);
        assert(vstd::arithmetic::power::pow(10, 6) == 1000000);
        crate::text::decimal_len(n, 6);
    }
    zero_padded_digits(decimal(n), 6);
    let s = relocated_prefix() + zero_padded(decimal(n), 6);
    ascii_name_len(s);
}

/// The name of the directory that holds the relocated ones has at most 29 bytes.
pub proof fn holder_name_len(k: usize)
    ensures
        holder_name(k as nat).len() <= 29,
        name_len(holder_name(k as nat)) == holder_name(k as nat).len(),
        vstd::utf8::is_ascii_chars(holder_name(k as nat)),
{
    decimal_len_usize(k);
    decimal_is_digits(k as nat);
    ascii_name_len(holder_base());
    ascii_name_len(holder_base() + seq![0x5Fu8] + decimal(k as nat));
}

/// Some name is not taken.
pub proof fn some_name_is_free(dirs: Seq<DirView>, k: nat)
    requires
        forall|j: nat| j < k ==> name_taken(dirs, #[trigger] holder_name(j)),
    ensures
        exists|m: nat| first_free(dirs, m),
    decreases dirs.len() + 1 - k,
{
    free_name_soon(dirs, k);
    if name_taken(dirs, holder_name(k)) {
        some_name_is_free(dirs, k + 1);
    } else {
        assert(first_free(dirs, k));
    }
}

fn make_relocated_name(n: usize) -> (r: String)
    ensures
        r@ == relocated_name(n as nat),
{
    let mut bytes: Vec<u8> = Vec::new();
    bytes.push(0x52);
    bytes.push(0x52);
    bytes.push(0x44);
    assert(bytes@ =~= relocated_prefix());
    let digits: Vec<u8> = zero_pad(decimal_bytes(n), 6);
    push_all(&mut bytes, digits.as_slice());
    string_of_bytes(bytes.as_slice())
}

fn make_holder_name(k: usize) -> (r: String)
    ensures
        r@ == holder_name(k as nat),
{
    let mut bytes: Vec<u8> = Vec::new();
    bytes.push(0x52);
    bytes.push(0x52);
    bytes.push(0x5F);
    bytes.push(0x4D);
    bytes.push(0x4F);
    bytes.push(0x56);
    bytes.push(0x45);
    bytes.push(0x44);
    assert(bytes@ =~= holder_base());
    if k > 0 {
        bytes.push(0x5F);
        let digits: Vec<u8> = decimal_bytes(k);
        push_all(&mut bytes, digits.as_slice());
        assert(bytes@ =~= holder_base() + seq![0x5Fu8] + decimal(k as nat));
    }
    string_of_bytes(bytes.as_slice())
}

proof fn ascii_chars_injective(a: Seq<u8>, b: Seq<u8>)
    requires
        ascii_chars(a) == ascii_chars(b),
    ensures
        a == b,
{
    assert(ascii_chars(a).len() == a.len() && ascii_chars(b).len() == b.len());
    assert forall|i: int| 0 <= i < a.len() implies a[i] == b[i] by {
        assert(ascii_chars(a)[i] == a[i] as char);
        assert(ascii_chars(b)[i] == b[i] as char);
    }
    assert(a =~= b);
}

/// Different candidates for the holder's name are different names.
pub proof fn holder_names_differ(a: nat, b: nat)
    requires
        holder_name(a) == holder_name(b),
    ensures
        a == b,
{
    let base = holder_base();
    let sa = if a == 0 {
        base
    } else {
        base + seq![0x5Fu8] + decimal(a)
    };
    let sb = if b == 0 {
        base
    } else {
        base + seq![0x5Fu8] + decimal(b)
    };
    ascii_chars_injective(sa, sb);
    assert(sa.len() == sb.len());
    if a > 0 && b > 0 {
        assert(sa.skip(9) =~= decimal(a));
        assert(sb.skip(9) =~= decimal(b));
        decimal_injective(a, b);
    }
}

/// As many names are taken at most as there are directories.
pub proof fn free_name_soon(dirs: Seq<DirView>, k: nat)
    requires
        forall|j: nat| j < k ==> name_taken(dirs, #[trigger] holder_name(j)),
    ensures
        k <= dirs.len(),
{
    let pool = Seq::new(dirs.len(), |i: int| dirs[i].name);
    let picks = Seq::new(k, |j: int| holder_name(j as nat));
    assert(picks.no_duplicates()) by {
        assert forall|i: int, j: int| 0 <= i < picks.len() && 0 <= j < picks.len() && i != j implies
            picks[i] != picks[j] by {
            if picks[i] == picks[j] {
                holder_names_differ(i as nat, j as nat);
            }
        }
    }
    assert forall|j: int| 0 <= j < picks.len() implies pool.contains(#[trigger] picks[j]) by {
        assert(name_taken(dirs, holder_name(j as nat)));
        let i = choose|i: int|
            0 <= i < dirs.len() && (#[trigger] dirs[i]).name == holder_name(j as nat);
        assert(pool[i] == picks[j]);
    }
    pigeonhole(pool, picks);
}

fn is_name_taken(dirs: &Vec<WrittenDirectory>, name: &str) -> (r: bool)
    ensures
        r == name_taken(dirs_view(dirs@), name@),
{
    let ghost all = dirs_view(dirs@);
    let mut i: usize = 0;
    while i < dirs.len()
        invariant
            i <= dirs@.len(),
            all == dirs_view(dirs@),
            forall|j: int| 0 <= j < i ==> (#[trigger] all[j]).name != name@,
        decreases dirs.len() - i,
    {
        assert(all[i as int] == dirs@[i as int].view());
        if str_equal(dirs[i].name.as_str(), name) {
            assert(all[i as int].name == name@);
            return true;
        }
        i += 1;
    }
    false
}

/// Relocates the children of one directory. See [`relocate_list`].
fn relocate_children(
    dirs: Vec<WrittenDirectory>,
    parent: usize,
    depth: usize,
    path_len: usize,
    moved: &mut Vec<WrittenDirectory>,
    next: &mut usize,
) -> (retained: Vec<WrittenDirectory>)
    requires
        depth <= 8,
        *old(next) + tree_size(dirs_view(dirs@)) <= usize::MAX,
    ensures
        ({
            let r = relocate_list(
                dirs_view(dirs@),
                parent,
                depth as nat,
                path_len as nat,
                dirs_view(old(moved)@),
                *old(next) as nat,
            );
            &&& dirs_view(retained@) == r.retained
            &&& dirs_view(final(moved)@) == r.moved
            &&& *final(next) == r.next
        }),
        *final(next) <= *old(next) + tree_size(dirs_view(dirs@)),
    decreases dirs,
{
    let ghost input = dirs;
    let ghost all = dirs_view(input@);
    let ghost moved0 = dirs_view(moved@);
    let ghost next0 = *next;
    let mut retained: Vec<WrittenDirectory> = Vec::new();
    assert(dirs_view(retained@) =~= Seq::empty());
    assert(all.take(0) =~= Seq::empty());
    for child in it: dirs
        invariant
            it.seq() == input@,
            all == dirs_view(input@),
            depth <= 8,
            next0 + tree_size(all) <= usize::MAX,
            *next <= next0 + tree_size(all.take(it.index())),
            ({
                let r = relocate_list(
                    all.take(it.index()),
                    parent,
                    depth as nat,
                    path_len as nat,
                    moved0,
                    next0 as nat,
                );
                &&& dirs_view(retained@) == r.retained
                &&& dirs_view(moved@) == r.moved
                &&& *next == r.next
            }),
    {
        let ghost i = it.index();
        let ghost was = child.view();
        let ghost kids = child.dirs;
        let ghost retained1 = dirs_view(retained@);
        proof {
            assert(child == input@[i]);
            assert(all[i] == was);
            assert(was.dirs =~= dirs_view(kids@));
            assert(decreases_to!(input => input@[i]));
            tree_size_prefix(all, i);
            assert(all.take(i + 1).drop_last() =~= all.take(i));
        }
        let own_len: usize = child.name.as_str().as_bytes().len();
        let child_len: usize = if path_len == 0 {
            own_len
        } else {
            path_len.saturating_add(1).saturating_add(own_len)
        };
        let WrittenDirectory {
            id,
            name,
            rrip_name,
            entries,
            dirs: grandchildren,
            files,
            metadata,
            relocation,
        } = child;
        if depth + 1 > 8 || child_len > 255 {
            let original_name: Arc<String> = share(&rrip_name);
            let new_name: String = make_relocated_name(*next);
            proof {
                relocated_name_len(*next);
            }
            let relocated_len: usize = 9 + new_name.as_str().as_bytes().len();
            *next += 1;
            let kept: Vec<WrittenDirectory> = relocate_children(
                grandchildren,
                id,
                3,
                relocated_len,
                moved,
                next,
            );
            let ghost moved1 = dirs_view(moved@);
            let there: WrittenDirectory = WrittenDirectory {
                id,
                name: Arc::new(new_name),
                rrip_name,
                entries,
                dirs: kept,
                files,
                metadata,
                relocation: DirectoryRelocation::Moved { id, logical_parent: parent },
            };
            assert(there.view().dirs =~= dirs_view(kept@));
            moved.push(there);
            assert(dirs_view(moved@) =~= moved1.push(there.view()));
            let mut here: WrittenDirectory = WrittenDirectory::new(original_name);
            here.relocation = DirectoryRelocation::Placeholder { target: id };
            assert(here.view().dirs =~= Seq::empty());
            assert(here.view() == placeholder(was));
            retained.push(here);
            assert(dirs_view(retained@) =~= retained1.push(here.view()));
        } else {
            let kept: Vec<WrittenDirectory> = relocate_children(
                grandchildren,
                id,
                depth + 1,
                child_len,
                moved,
                next,
            );
            let here: WrittenDirectory = WrittenDirectory {
                id,
                name,
                rrip_name,
                entries,
                dirs: kept,
                files,
                metadata,
                relocation,
            };
            assert(here.view().dirs =~= dirs_view(kept@));
            assert(here.view() == (DirView { dirs: dirs_view(kept@), ..was }));
            retained.push(here);
            assert(dirs_view(retained@) =~= retained1.push(here.view()));
        }
    }
    assert(all.take(all.len() as int) =~= all);
    retained
}

/// Moves directories that lie too deep, or whose paths are too long, to a directory of
/// their own in the root, and leaves placeholders.
pub fn relocate_deep_directories(files: &mut WrittenFiles)
    requires
        tree_size(old(files)@.dirs) < usize::MAX,
    ensures
        final(files)@ == relocated_root(old(files)@),
{
    let ghost before = files@;
    let mut dirs: Vec<WrittenDirectory> = Vec::new();
    core::mem::swap(&mut dirs, &mut files.root.dirs);
    assert(before.dirs =~= dirs_view(dirs@));
    let mut moved: Vec<WrittenDirectory> = Vec::new();
    let mut internal_id: usize = 1;
    assert(dirs_view(moved@) =~= Seq::empty());
    let id: usize = files.root.id;
    let retained: Vec<WrittenDirectory> = relocate_children(
        dirs,
        id,
        1,
        0,
        &mut moved,
        &mut internal_id,
    );
    let ghost kept = dirs_view(retained@);
    if moved.len() == 0 {
        files.root.dirs = retained;
        assert(files@.dirs =~= kept);
        return ;
    }
    let ghost held = dirs_view(moved@);
    let count: usize = retained.len();
    let mut k: usize = 0;
    let mut relocation_name: String = make_holder_name(0);
    while is_name_taken(&retained, relocation_name.as_str())
        invariant
            kept == dirs_view(retained@),
            count == kept.len(),
            relocation_name@ == holder_name(k as nat),
            forall|j: nat| j < k ==> name_taken(kept, #[trigger] holder_name(j)),
            k <= kept.len(),
        decreases kept.len() - k,
    {
        proof {
            assert forall|j: nat| j < k + 1 implies name_taken(kept, #[trigger] holder_name(j)) by {
                if j == k {
                    assert(name_taken(kept, holder_name(k as nat)));
                }
            }
            free_name_soon(kept, (k + 1) as nat);
        }
        k += 1;
        relocation_name = make_holder_name(k);
    }
    proof {
        assert(first_free(kept, k as nat));
        let c = choose|c: nat| first_free(kept, c);
        assert(c == k) by {
            if c < k {
                assert(name_taken(kept, holder_name(c)));
            } else if c > k {
                assert(name_taken(kept, holder_name(k as nat)));
            }
        }
    }
    let mut relocation_dir: WrittenDirectory = WrittenDirectory::new(Arc::new(relocation_name));
    relocation_dir.id = usize::MAX;
    relocation_dir.dirs = moved;
    assert(relocation_dir.view().dirs =~= held);
    assert(relocation_dir.view() == (DirView {
        id: usize::MAX,
        dirs: held,
        ..new_dir(holder_name(k as nat))
    }));
    let mut new_dirs: Vec<WrittenDirectory> = retained;
    new_dirs.insert(0, relocation_dir);
    files.root.dirs = new_dirs;
    assert(files@.dirs =~= seq![relocation_dir.view()] + kept);
}

/// Whether every directory among `dirs`, children of a directory at `depth` whose path has
/// `path_len` bytes, lies at depth 8 at most with a path of 255 bytes at most, at any level.
/// Placeholders are no directories.
pub open spec fn within_limits(dirs: Seq<DirView>, depth: nat, path_len: nat) -> bool
    decreases dirs,
{
    dirs.len() > 0 ==> {
        let d = dirs.last();
        &&& within_limits(dirs.drop_last(), depth, path_len)
        &&& !(d.relocation is Placeholder) ==> {
            &&& depth + 1 <= 8
            &&& child_path_len(path_len, d.name) <= 255
            &&& within_limits(d.dirs, depth + 1, child_path_len(path_len, d.name))
        }
    }
}

proof fn within_limits_push(dirs: Seq<DirView>, d: DirView, depth: nat, path_len: nat)
    requires
        within_limits(dirs, depth, path_len),
        !(d.relocation is Placeholder) ==> {
            &&& depth + 1 <= 8
            &&& child_path_len(path_len, d.name) <= 255
            &&& within_limits(d.dirs, depth + 1, child_path_len(path_len, d.name))
        },
    ensures
        within_limits(dirs.push(d), depth, path_len),
{
    assert(dirs.push(d).drop_last() =~= dirs);
}

proof fn within_limits_concat(a: Seq<DirView>, b: Seq<DirView>, depth: nat, path_len: nat)
    requires
        within_limits(a, depth, path_len),
        within_limits(b, depth, path_len),
    ensures
        within_limits(a + b, depth, path_len),
    decreases b.len(),
{
    if b.len() == 0 {
        assert(a + b =~= a);
    } else {
        assert((a + b).drop_last() =~= a + b.drop_last());
        within_limits_concat(a, b.drop_last(), depth, path_len);
    }
}

proof fn relocate_list_within_limits(
    dirs: Seq<DirView>,
    parent: usize,
    depth: nat,
    path_len: nat,
    moved: Seq<DirView>,
    next: nat,
)
    requires
        depth <= 8,
        within_limits(moved, 2, 8),
        next + tree_size(dirs) <= usize::MAX,
    ensures
        ({
            let r = relocate_list(dirs, parent, depth, path_len, moved, next);
            &&& within_limits(r.retained, depth, path_len)
            &&& within_limits(r.moved, 2, 8)
            &&& r.next <= next + tree_size(dirs)
        }),
    decreases dirs,
{
    if dirs.len() > 0 {
        relocate_list_within_limits(dirs.drop_last(), parent, depth, path_len, moved, next);
        let r = relocate_list(dirs.drop_last(), parent, depth, path_len, moved, next);
        let child = dirs.last();
        let len = child_path_len(path_len, child.name);
        if depth + 1 > 8 || len > 255 {
            let name = relocated_name(r.next);
            relocated_name_len(r.next as usize);
            relocate_list_within_limits(
                child.dirs,
                child.id,
                3,
                9 + name_len(name),
                r.moved,
                r.next + 1,
            );
            let sub = relocate_list(
                child.dirs,
                child.id,
                3,
                9 + name_len(name),
                r.moved,
                r.next + 1,
            );
            let there = DirView {
                name,
                relocation: DirectoryRelocation::Moved { id: child.id, logical_parent: parent },
                dirs: sub.retained,
                ..child
            };
            assert(child_path_len(8, name) == 9 + name_len(name));
            within_limits_push(sub.moved, there, 2, 8);
            within_limits_push(r.retained, placeholder(child), depth, path_len);
        } else {
            relocate_list_within_limits(child.dirs, child.id, depth + 1, len, r.moved, r.next);
            let sub = relocate_list(child.dirs, child.id, depth + 1, len, r.moved, r.next);
            within_limits_push(
                r.retained,
                DirView { dirs: sub.retained, ..child },
                depth,
                path_len,
            );
        }
    }
}

/// Whether every directory among `dirs`, children of a directory at `depth`, lies at depth 8
/// at most, at any level. Placeholders are no directories.
pub open spec fn within_depth(dirs: Seq<DirView>, depth: nat) -> bool
    decreases dirs,
{
    dirs.len() > 0 ==> {
        let d = dirs.last();
        &&& within_depth(dirs.drop_last(), depth)
        &&& !(d.relocation is Placeholder) ==> depth + 1 <= 8 && within_depth(d.dirs, depth + 1)
    }
}

proof fn limits_bound_the_depth(dirs: Seq<DirView>, depth: nat, path_len: nat)
    requires
        within_limits(dirs, depth, path_len),
    ensures
        within_depth(dirs, depth),
    decreases dirs,
{
    if dirs.len() > 0 {
        let d = dirs.last();
        limits_bound_the_depth(dirs.drop_last(), depth, path_len);
        if !(d.relocation is Placeholder) {
            limits_bound_the_depth(d.dirs, depth + 1, child_path_len(path_len, d.name));
        }
    }
}

proof fn within_depth_behind(holder: DirView, dirs: Seq<DirView>)
    requires
        within_depth(holder.dirs, 2),
        within_depth(dirs, 1),
    ensures
        within_depth(seq![holder] + dirs, 1),
    decreases dirs.len(),
{
    let all = seq![holder] + dirs;
    if dirs.len() == 0 {
        assert(all.drop_last() =~= Seq::empty());
        assert(within_depth(all.drop_last(), 1));
        assert(all.last() == holder);
    } else {
        within_depth_behind(holder, dirs.drop_last());
        assert(all.drop_last() =~= seq![holder] + dirs.drop_last());
        assert(all.last() == dirs.last());
    }
}

/// After relocation no directory lies deeper than eight levels, and of the directories that
/// stay in place no path has more than 255 bytes.
pub proof fn relocation_bounds_the_depth(root: DirView)
    requires
        tree_size(root.dirs) < usize::MAX,
    ensures
        within_depth(relocated_root(root).dirs, 1),
        within_limits(
            relocate_list(root.dirs, root.id, 1, 0, Seq::empty(), 1).retained,
            1,
            0,
        ),
{
    relocate_list_within_limits(root.dirs, root.id, 1, 0, Seq::empty(), 1);
    let r = relocate_list(root.dirs, root.id, 1, 0, Seq::empty(), 1);
    limits_bound_the_depth(r.retained, 1, 0);
    limits_bound_the_depth(r.moved, 2, 8);
    if r.moved.len() > 0 {
        let k = choose|k: nat| first_free(r.retained, k);
        let holder = DirView { id: usize::MAX, dirs: r.moved, ..new_dir(holder_name(k)) };
        within_depth_behind(holder, r.retained);
    }
}

/// After relocation no directory lies deeper than eight levels and no path has more than
/// 255 bytes, provided that the root has no directory of its own called `RR_MOVED`.
pub proof fn relocation_respects_the_limits(root: DirView)
    requires
        tree_size(root.dirs) < usize::MAX,
        !name_taken(
            relocate_list(root.dirs, root.id, 1, 0, Seq::empty(), 1).retained,
            holder_name(0),
        ),
    ensures
        within_limits(relocated_root(root).dirs, 1, 0),
{
    relocate_list_within_limits(root.dirs, root.id, 1, 0, Seq::empty(), 1);
    let r = relocate_list(root.dirs, root.id, 1, 0, Seq::empty(), 1);
    if r.moved.len() > 0 {
        assert(first_free(r.retained, 0));
        let k = choose|k: nat| first_free(r.retained, k);
        assert(k == 0);
        let holder = DirView { id: usize::MAX, dirs: r.moved, ..new_dir(holder_name(0)) };
        ascii_name_len(holder_base());
        within_limits_push(Seq::empty(), holder, 1, 0);
        assert(Seq::<DirView>::empty().push(holder) =~= seq![holder]);
        within_limits_concat(seq![holder], r.retained, 1, 0);
    }
}

/// A relocated directory with its extents.
#[derive(Debug)]
pub struct MovedDirectory {
    /// Its number.
    pub id: usize,
    /// The number of the directory that it belongs to.
    pub logical_parent: usize,
    /// Its extents.
    pub entries: RefMap<EntryType>,
}

/// The mathematical value of a [`MovedDirectory`].
pub struct MovedView {
    /// Its number.
    pub id: usize,
    /// The number of the directory that it belongs to.
    pub logical_parent: usize,
    /// Its extents.
    pub entries: Map<EntryType, DirectoryRef>,
}

/// The relocated directories in a tree, each before those below it.
pub open spec fn moved_in(dir: DirView) -> Seq<MovedView>
    decreases dir,
{
    let own: Seq<MovedView> = match dir.relocation {
        DirectoryRelocation::Moved { id, logical_parent } => seq![
            MovedView { id, logical_parent, entries: dir.entries },
        ],
        _ => Seq::empty(),
    };
    own + moved_in_list(dir.dirs)
}

/// The relocated directories in trees, in order.
pub open spec fn moved_in_list(dirs: Seq<DirView>) -> Seq<MovedView>
    decreases dirs,
{
    if dirs.len() == 0 {
        Seq::empty()
    } else {
        moved_in_list(dirs.drop_last()) + moved_in(dirs.last())
    }
}

/// The values of relocated directories.
pub open spec fn moved_views(dirs: Seq<MovedDirectory>) -> Seq<MovedView> {
    Seq::new(dirs.len(), |i: int| dirs[i].view())
}

impl MovedDirectory {
    /// The mathematical value.
    pub open spec fn view(&self) -> MovedView {
        MovedView { id: self.id, logical_parent: self.logical_parent, entries: self.entries@ }
    }

    /// A relocated directory.
    pub fn new(id: usize, logical_parent: usize, entries: RefMap<EntryType>) -> (r: Self)
        ensures
            r.view() == (MovedView { id, logical_parent, entries: entries@ }),
    {
        MovedDirectory { id, logical_parent, entries }
    }

    /// The relocated directories in a tree.
    pub fn collect(directory: &WrittenDirectory) -> (r: Vec<MovedDirectory>)
        ensures
            moved_views(r@) == moved_in(directory.view()),
    {
        let mut output: Vec<MovedDirectory> = Vec::new();
        collect_moved_recursive(directory, &mut output);
        assert(moved_views(output@) =~= moved_in(directory.view()));
        output
    }
}

fn collect_moved_recursive(directory: &WrittenDirectory, output: &mut Vec<MovedDirectory>)
    ensures
        moved_views(final(output)@) == moved_views(old(output)@) + moved_in(directory.view()),
    decreases *directory,
{
    let ghost start = moved_views(output@);
    let ghost all = directory.view().dirs;
    let ghost own: Seq<MovedView> = match directory.relocation {
        DirectoryRelocation::Moved { id, logical_parent } => seq![
            MovedView { id, logical_parent, entries: directory.entries@ },
        ],
        _ => Seq::empty(),
    };
    match directory.relocation {
        DirectoryRelocation::Moved { id, logical_parent } => {
            output.push(MovedDirectory::new(id, logical_parent, directory.entries.duplicate()));
        },
        _ => {},
    }
    assert(moved_views(output@) =~= start + own + moved_in_list(all.take(0)));
    let mut i: usize = 0;
    while i < directory.dirs.len()
        invariant
            i <= directory.dirs@.len(),
            all == directory.view().dirs,
            moved_views(output@) == start + own + moved_in_list(all.take(i as int)),
        decreases directory.dirs.len() - i,
    {
        assert(decreases_to!(directory.dirs => directory.dirs@[i as int]));
        collect_moved_recursive(&directory.dirs[i], output);
        assert(all[i as int] == directory.dirs@[i as int].view());
        assert(all.take(i + 1).drop_last() =~= all.take(i as int));
        i += 1;
        assert(moved_views(output@) =~= start + own + moved_in_list(all.take(i as int)));
    }
    assert(all.take(i as int) =~= all);
    assert(moved_views(output@) =~= start + moved_in(directory.view()));
}

/// The ways to a directory and to those below it that are not placeholders, each
/// directory before its children.
pub open spec fn preorder(dir: DirView, path: Seq<usize>) -> Seq<Seq<usize>>
    decreases dir, 0nat,
{
    seq![path] + preorder_children(dir.dirs, path)
}

/// The ways to children that are not placeholders and to those below them.
pub open spec fn preorder_children(dirs: Seq<DirView>, path: Seq<usize>) -> Seq<Seq<usize>>
    decreases dirs, 1nat,
{
    if dirs.len() == 0 {
        Seq::empty()
    } else {
        let last = dirs.last();
        preorder_children(dirs.drop_last(), path) + (if last.relocation is Placeholder {
            Seq::empty()
        } else {
            preorder(last, path.push((dirs.len() - 1) as usize))
        })
    }
}

/// Whether a file has data to lay out.
pub open spec fn has_data(file: FileView) -> bool {
    match file.kind {
        KindView::File(contents) => contents.len() > 0,
        _ => false,
    }
}

/// A file's directory and its index there.
pub type FileOrder = (DirectoryId, usize);

/// The files with data among the first `n` of a directory.
pub open spec fn data_files(files: Seq<FileView>, path: Seq<usize>, n: int) -> Seq<
    (Seq<usize>, usize),
>
    decreases n,
{
    if n <= 0 {
        Seq::empty()
    } else if has_data(files[n - 1]) {
        data_files(files, path, n - 1).push((path, (n - 1) as usize))
    } else {
        data_files(files, path, n - 1)
    }
}

/// The files with data in the directories that the ways lead to, in order.
pub open spec fn data_files_in(root: DirView, paths: Seq<Seq<usize>>) -> Seq<(Seq<usize>, usize)>
    decreases paths.len(),
{
    if paths.len() == 0 {
        Seq::empty()
    } else {
        let dir = dir_at(root, paths.last());
        data_files_in(root, paths.drop_last()) + data_files(
            dir.files,
            paths.last(),
            dir.files.len() as int,
        )
    }
}

/// The ways as values.
pub open spec fn ids_view(ids: Seq<DirectoryId>) -> Seq<Seq<usize>> {
    Seq::new(ids.len(), |i: int| ids[i]@)
}

/// The positions of files as values.
pub open spec fn order_view(files: Seq<FileOrder>) -> Seq<(Seq<usize>, usize)> {
    Seq::new(files.len(), |i: int| (files[i].0@, files[i].1))
}

/// The directories below one in the order in which they are laid out, and the files with
/// data in them. Parents come before children, so that extents ascend.
pub fn collect_preorder(files: &WrittenFiles, id: &DirectoryId) -> (r: (
    Vec<DirectoryId>,
    Vec<FileOrder>,
))
    requires
        valid_path(files@, id@),
    ensures
        ids_view(r.0@) == preorder(dir_at(files@, id@), id@),
        order_view(r.1@) == data_files_in(files@, ids_view(r.0@)),
        forall|i: int| 0 <= i < r.0@.len() ==> valid_path(files@, (#[trigger] r.0@[i])@),
        forall|i: int|
            0 <= i < r.1@.len() ==> valid_path(files@, (#[trigger] r.1@[i]).0@) && r.1@[i].1
                < dir_at(files@, r.1@[i].0@).files.len(),
{
    let mut order: Vec<DirectoryId> = Vec::new();
    collect_preorder_recursive(files, files.get(id), id, &mut order);
    assert(ids_view(order@) =~= preorder(dir_at(files@, id@), id@));
    let mut file_order: Vec<FileOrder> = Vec::new();
    let ghost paths = ids_view(order@);
    let mut i: usize = 0;
    assert(order_view(file_order@) =~= data_files_in(files@, paths.take(0)));
    while i < order.len()
        invariant
            i <= order@.len(),
            paths == ids_view(order@),
            forall|k: int| 0 <= k < order@.len() ==> valid_path(files@, (#[trigger] order@[k])@),
            order_view(file_order@) == data_files_in(files@, paths.take(i as int)),
            forall|k: int|
                0 <= k < file_order@.len() ==> valid_path(
                    files@,
                    (#[trigger] file_order@[k]).0@,
                ) && file_order@[k].1 < dir_at(files@, file_order@[k].0@).files.len(),
        decreases order.len() - i,
    {
        let dir: &WrittenDirectory = files.get(&order[i]);
        let ghost before = order_view(file_order@);
        let ghost path = order@[i as int]@;
        let ghost fv = dir.view().files;
        let mut n: usize = 0;
        assert(before + data_files(fv, path, 0) =~= before);
        while n < dir.files.len()
            invariant
                i < order@.len(),
                n <= dir.files@.len(),
                fv == dir.view().files,
                path == order@[i as int]@,
                valid_path(files@, path),
                dir.view() == dir_at(files@, path),
                order_view(file_order@) == before + data_files(fv, path, n as int),
                forall|k: int|
                    0 <= k < file_order@.len() ==> valid_path(
                        files@,
                        (#[trigger] file_order@[k]).0@,
                    ) && file_order@[k].1 < dir_at(files@, file_order@[k].0@).files.len(),
            decreases dir.files.len() - n,
        {
            let file: &WrittenFile = &dir.files[n];
            assert(fv[n as int] == file.view());
            let data: bool = match &file.kind {
                crate::iso::tree::InputEntryKind::File(contents) => contents.len() > 0,
                _ => false,
            };
            assert(data == has_data(file.view()));
            let ghost so_far = order_view(file_order@);
            if data {
                file_order.push((order[i].duplicate(), n));
                assert(order_view(file_order@) =~= so_far.push((path, n)));
                assert(order_view(file_order@) =~= before + data_files(fv, path, n + 1));
            }
            n += 1;
        }
        assert(paths.take(i + 1).drop_last() =~= paths.take(i as int));
        assert(paths.take(i + 1).last() == path);
        i += 1;
    }
    assert(paths.take(i as int) =~= paths);
    (order, file_order)
}

fn collect_preorder_recursive(
    files: &WrittenFiles,
    dir: &WrittenDirectory,
    id: &DirectoryId,
    output: &mut Vec<DirectoryId>,
)
    requires
        valid_path(files@, id@),
        dir.view() == dir_at(files@, id@),
        forall|i: int| 0 <= i < old(output)@.len() ==> valid_path(
            files@,
            (#[trigger] old(output)@[i])@,
        ),
    ensures
        ids_view(final(output)@) == ids_view(old(output)@) + preorder(dir.view(), id@),
        forall|i: int|
            0 <= i < final(output)@.len() ==> valid_path(files@, (#[trigger] final(output)@[i])@),
    decreases *dir,
{
    let ghost start = ids_view(output@);
    let ghost all = dir.view().dirs;
    output.push(id.duplicate());
    assert(ids_view(output@) =~= start + seq![id@] + preorder_children(all.take(0), id@));
    let mut index: usize = 0;
    while index < dir.dirs.len()
        invariant
            index <= dir.dirs@.len(),
            all == dir.view().dirs,
            valid_path(files@, id@),
            dir.view() == dir_at(files@, id@),
            forall|i: int|
                0 <= i < output@.len() ==> valid_path(files@, (#[trigger] output@[i])@),
            ids_view(output@) == start + seq![id@] + preorder_children(
                all.take(index as int),
                id@,
            ),
        decreases dir.dirs.len() - index,
    {
        let child: &WrittenDirectory = &dir.dirs[index];
        let ghost so_far = ids_view(output@);
        proof {
            assert(all[index as int] == child.view());
            assert(all.take(index + 1).drop_last() =~= all.take(index as int));
            assert(decreases_to!(dir.dirs => dir.dirs@[index as int]));
            path_goes_down(files@, id@, index);
        }
        let skip: bool = match child.relocation {
            DirectoryRelocation::Placeholder { .. } => true,
            _ => false,
        };
        if !skip {
            let mut child_id: DirectoryId = id.duplicate();
            child_id.push(index);
            collect_preorder_recursive(files, child, &child_id, output);
        }
        index += 1;
        assert(ids_view(output@) =~= start + seq![id@] + preorder_children(
            all.take(index as int),
            id@,
        ));
    }
    assert(all.take(index as int) =~= all);
    assert(ids_view(output@) =~= start + preorder(dir.view(), id@));
}

} // verus!
