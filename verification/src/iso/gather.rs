//! What is derived from a file system when an input tree is gathered from it.

use crate::iso::order::sort_positions;
#[allow(unused_imports)]
use crate::iso::order::{key_views, positions, stable_order, stable_order_is_unique};
use crate::iso::tree::InputEntry;
#[allow(unused_imports)]
use crate::iso::tree::{entries_view, EntryView};
use vstd::prelude::*;
#[allow(unused_imports)]
use vstd::utf8::encode_utf8;

verus! {

/// The major and minor number in a device number: the major one has bits 8 to 19 and 44 to
/// 63, the minor one bits 0 to 7 and 20 to 43.
pub open spec fn device_parts(device: u64) -> (u32, u32) {
    (
        (device / 0x100 % 0x1000 + device / 0x1000_0000_0000 * 0x1000) as u32,
        (device % 0x100 + device / 0x10_0000 % 0x100_0000 * 0x100) as u32,
    )
}

/// The major and minor number in a device number.
pub fn device_numbers(device: u64) -> (r: (u32, u32))
    ensures
        r == device_parts(device),
{
    let major: u64 = device / 0x100 % 0x1000 + device / 0x1000_0000_0000 * 0x1000;
    let minor: u64 = device % 0x100 + device / 0x10_0000 % 0x100_0000 * 0x100;
    (major as u32, minor as u32)
}

/// Seconds since the start of 1970, where they fit.
pub fn timestamp_of(secs: u64) -> (r: Option<i64>)
    ensures
        r == (if secs <= i64::MAX {
            Some(secs as i64)
        } else {
            None
        }),
{
    if secs <= 0x7FFF_FFFF_FFFF_FFFF {
        Some(secs as i64)
    } else {
        None
    }
}

/// An ASCII letter in lowercase.
pub open spec fn lower(b: u8) -> u8 {
    if 0x41 <= b <= 0x5A {
        (b + 32) as u8
    } else {
        b
    }
}

/// A name by which entries are ordered: its UTF-8 with ASCII letters in lowercase.
pub open spec fn name_key(name: Seq<char>) -> Seq<u8> {
    let bytes = encode_utf8(name);
    Seq::new(bytes.len(), |i: int| lower(bytes[i]))
}

/// The names by which entries are ordered.
pub open spec fn name_keys(entries: Seq<EntryView>) -> Seq<Seq<u8>> {
    Seq::new(entries.len(), |i: int| name_key(entries[i].name))
}

/// The entries in the given order.
pub open spec fn arranged(entries: Seq<EntryView>, perm: Seq<int>) -> Seq<EntryView> {
    Seq::new(perm.len(), |i: int| entries[perm[i]])
}

/// The entries by name, those with one name in the order they had.
pub open spec fn by_name(entries: Seq<EntryView>) -> Seq<EntryView> {
    arranged(entries, choose|perm: Seq<int>| stable_order(name_keys(entries), perm))
}

fn make_key(entry: &InputEntry) -> (r: Vec<u8>)
    ensures
        r@ == name_key(entry.view().name),
{
    let bytes: &[u8] = entry.name.as_str().as_bytes();
    let ghost all = name_key(entry.view().name);
    let mut r: Vec<u8> = Vec::new();
    let mut i: usize = 0;
    while i < bytes.len()
        invariant
            i <= bytes@.len(),
            bytes@ == encode_utf8(entry.view().name),
            all == name_key(entry.view().name),
            r@ == all.take(i as int),
        decreases bytes.len() - i,
    {
        let b: u8 = bytes[i];
        r.push(
            if 0x41 <= b && b <= 0x5A {
                b + 32
            } else {
                b
            },
        );
        i += 1;
        assert(r@ =~= all.take(i as int));
    }
    assert(r@ =~= all);
    r
}

/// Orders entries by name, without regard to the case of ASCII letters.
pub fn sort_by_name(entries: Vec<InputEntry>) -> (r: Vec<InputEntry>)
    ensures
        entries_view(r@) == by_name(entries_view(entries@)),
{
    let ghost all = entries_view(entries@);
    let ghost input = entries@;
    let n: usize = entries.len();
    let mut keys: Vec<Vec<u8>> = Vec::new();
    let mut i: usize = 0;
    assert(key_views(keys@) =~= name_keys(all).take(0));
    while i < n
        invariant
            i <= n,
            n == entries@.len(),
            all == entries_view(entries@),
            key_views(keys@) == name_keys(all).take(i as int),
        decreases n - i,
    {
        let ghost before = key_views(keys@);
        assert(all[i as int] == entries@[i as int].view());
        let key: Vec<u8> = make_key(&entries[i]);
        keys.push(key);
        i += 1;
        assert(key_views(keys@) =~= before.push(key@));
        assert(key_views(keys@) =~= name_keys(all).take(i as int));
    }
    assert(key_views(keys@) =~= name_keys(all));
    let perm: Vec<usize> = sort_positions(&keys);
    let ghost p = positions(perm@);
    proof {
        stable_order_is_unique(
            name_keys(all),
            p,
            choose|perm: Seq<int>| stable_order(name_keys(all), perm),
        );
        assert(key_views(keys@).len() == keys@.len());
    }
    let mut rest: Vec<InputEntry> = entries;
    let mut out: Vec<InputEntry> = Vec::new();
    let mut k: usize = 0;
    while k < n
        invariant
            k <= n,
            n == input.len(),
            n == rest@.len(),
            n == perm@.len(),
            all == entries_view(input),
            p == positions(perm@),
            stable_order(name_keys(all), p),
            out@.len() == k,
            forall|j: int| 0 <= j < k ==> (#[trigger] out@[j]) == input[p[j]],
            forall|j: int| k <= j < n ==> rest@[#[trigger] p[j]] == input[p[j]],
        decreases n - k,
    {
        let at: usize = perm[k];
        assert(p[k as int] == at);
        assert(0 <= p[k as int] < name_keys(all).len());
        let mut entry: InputEntry = InputEntry::file("", Vec::new());
        let ghost was = rest@;
        proof {
            assert forall|j: int| k < j < n implies p[j] != at by {
                assert(crate::iso::order::before(name_keys(all), p[k as int], p[j]));
                crate::iso::order::lex_lt_total(name_keys(all)[at as int], name_keys(all)[p[j]]);
            }
        }
        core::mem::swap(&mut entry, &mut rest[at]);
        assert(entry == was[at as int]);
        out.push(entry);
        k += 1;
    }
    assert(entries_view(out@) =~= by_name(all)) by {
        assert forall|j: int| 0 <= j < n implies #[trigger] entries_view(out@)[j]
            == by_name(all)[j] by {
            assert(out@[j] == input[p[j]]);
            assert(0 <= p[j] < name_keys(all).len());
        }
    }
    out
}

} // verus!
