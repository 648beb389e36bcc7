//! Suffixes that keep identifiers in a directory apart.

use crate::bytes::{copy_range, push_all};
#[allow(unused_imports)]
use crate::iso::name::{head, version};
use crate::iso::types::EntryType;
use crate::text::decimal_bytes;
#[allow(unused_imports)]
use crate::text::{decimal, decimal_injective, decimal_is_digits};
use vstd::prelude::*;

verus! {

/// `a - b`, and 0 where `b` is larger.
pub open spec fn minus(a: int, b: int) -> int {
    if a < b {
        0
    } else {
        a - b
    }
}

/// The suffix number `n`: `_` and the number.
pub open spec fn suffix(n: nat) -> Seq<u8> {
    seq![0x5Fu8] + decimal(n)
}

/// ASCII bytes as big-endian code units.
pub open spec fn widen(s: Seq<u8>) -> Seq<u8> {
    Seq::new(
        2 * s.len(),
        |i: int|
            if i % 2 == 0 {
                0u8
            } else {
                s[i / 2]
            },
    )
}

/// Position of the last dot, or -1.
pub open spec fn last_dot(s: Seq<u8>) -> int
    decreases s.len(),
{
    if s.len() == 0 {
        -1
    } else if s.last() == 0x2E {
        s.len() - 1
    } else {
        last_dot(s.drop_last())
    }
}

/// Where the extension starts: at the last dot, or at the end.
pub open spec fn ext_start(s: Seq<u8>) -> int {
    if last_dot(s) < 0 {
        s.len() as int
    } else {
        last_dot(s)
    }
}

/// Whether the identifier ends in a version.
pub open spec fn has_version(name: Seq<u8>) -> bool {
    name.len() >= 2 && name[name.len() - 2] == 0x3B && name[name.len() - 1] == 0x31
}

/// The identifier without its version.
pub open spec fn unversioned(name: Seq<u8>) -> Seq<u8> {
    if has_version(name) {
        name.take(name.len() - 2)
    } else {
        name
    }
}

/// What follows the basename of an ISO identifier: extension and version.
pub open spec fn iso_tail(name: Seq<u8>) -> Seq<u8> {
    let base = unversioned(name);
    base.skip(ext_start(base)) + (if has_version(name) {
        version()
    } else {
        Seq::empty()
    })
}

/// How many bytes basename and suffix may have.
pub open spec fn iso_limit(name: Seq<u8>, ty: EntryType) -> int {
    let base = unversioned(name);
    let ext_len = base.len() - ext_start(base);
    match ty {
        EntryType::Level1 { .. } => 8,
        EntryType::Level2 { .. } => minus(30, ext_len),
        _ => minus(
            207,
            ext_len + (if has_version(name) {
                2int
            } else {
                0int
            }),
        ),
    }
}

/// Where the extension of a Joliet identifier starts: at the first code unit that is a
/// dot, or at the end.
pub open spec fn joliet_ext(name: Seq<u8>, from: int) -> int
    decreases name.len() - from,
{
    if from + 1 >= name.len() {
        name.len() as int
    } else if name[from] == 0 && name[from + 1] == 0x2E {
        from
    } else {
        joliet_ext(name, from + 2)
    }
}

/// The even number at or just below `x`.
pub open spec fn even(x: int) -> int {
    x - x % 2
}

/// How much of the basename of a Joliet identifier is kept beside a suffix of the given
/// length: what fits into 206 bytes, in whole code units.
pub open spec fn joliet_kept(name: Seq<u8>, suffix_len: int) -> int {
    let p = joliet_ext(name, 0);
    let limit = minus(206, name.len() - p + suffix_len);
    even(
        if p < limit {
            p
        } else {
            limit
        },
    )
}

/// The identifier with suffix number `n` before its extension, the basename cut so that it
/// stays within the limits of the namespace.
pub open spec fn dedup_name(name: Seq<u8>, n: nat, ty: EntryType) -> Seq<u8> {
    match ty {
        EntryType::Joliet { .. } => {
            let s = widen(suffix(n));
            name.take(joliet_kept(name, s.len() as int)) + s + name.skip(joliet_ext(name, 0))
        },
        _ => {
            let base = unversioned(name);
            head(base.take(ext_start(base)), minus(iso_limit(name, ty), suffix(n).len() as int))
                + suffix(n) + iso_tail(name)
        },
    }
}

/// Where the extension starts.
pub proof fn last_dot_bounds(s: Seq<u8>)
    ensures
        -1 <= last_dot(s) < s.len(),
        0 <= ext_start(s) <= s.len(),
    decreases s.len(),
{
    if s.len() > 0 && s.last() != 0x2E {
        last_dot_bounds(s.drop_last());
    }
}

/// Where the extension of a Joliet identifier starts.
pub proof fn joliet_ext_bounds(name: Seq<u8>, from: int)
    requires
        0 <= from <= name.len() + 1,
    ensures
        joliet_ext(name, from) <= name.len(),
        from <= name.len() ==> from <= joliet_ext(name, from),
    decreases name.len() - from,
{
    if from + 1 < name.len() {
        joliet_ext_bounds(name, from + 2);
    }
}

/// Suffixes with different numbers end differently: the shorter is no end of the longer.
proof fn suffix_not_tail(a: nat, b: nat)
    requires
        suffix(a).len() < suffix(b).len(),
    ensures
        suffix(a)[0] == 0x5F,
        suffix(b)[suffix(b).len() - suffix(a).len()] != 0x5F,
{
    decimal_is_digits(b);
    let i = suffix(b).len() - suffix(a).len();
    assert(suffix(b)[i] == decimal(b)[i - 1]);
}

proof fn parted_by_suffix(
    pa: Seq<u8>,
    pb: Seq<u8>,
    sa: Seq<u8>,
    sb: Seq<u8>,
    tail: Seq<u8>,
    i: int,
)
    requires
        sa.len() < sb.len(),
        0 <= i < sa.len(),
        sa[i] != sb[sb.len() - sa.len() + i],
    ensures
        pa + sa + tail != pb + sb + tail,
{
    let x = pa + sa + tail;
    let y = pb + sb + tail;
    if x == y {
        assert(x.len() == pa.len() + sa.len() + tail.len());
        assert(y.len() == pb.len() + sb.len() + tail.len());
        assert(pa.len() + sa.len() == pb.len() + sb.len());
        assert(x[pa.len() + i] == sa[i]);
        assert(y[pa.len() + i] == sb[pa.len() + i - pb.len()]);
    }
}

/// Different suffix numbers give different identifiers.
pub proof fn dedup_names_differ(name: Seq<u8>, a: nat, b: nat, ty: EntryType)
    requires
        dedup_name(name, a, ty) == dedup_name(name, b, ty),
    ensures
        a == b,
{
    let na = dedup_name(name, a, ty);
    let nb = dedup_name(name, b, ty);
    match ty {
        EntryType::Joliet { .. } => {
            joliet_ext_bounds(name, 0);
            let tail = name.skip(joliet_ext(name, 0));
            let (sa, sb) = (widen(suffix(a)), widen(suffix(b)));
            let pa = name.take(joliet_kept(name, sa.len() as int));
            let pb = name.take(joliet_kept(name, sb.len() as int));
            if suffix(a).len() < suffix(b).len() {
                suffix_not_tail(a, b);
                let d = suffix(b).len() - suffix(a).len();
                assert(sb[sb.len() - sa.len() + 1] == suffix(b)[d]) by {
                    assert((2 * d + 1) / 2 == d);
                }
                parted_by_suffix(pa, pb, sa, sb, tail, 1);
            } else if suffix(b).len() < suffix(a).len() {
                suffix_not_tail(b, a);
                let d = suffix(a).len() - suffix(b).len();
                assert(sa[sa.len() - sb.len() + 1] == suffix(a)[d]) by {
                    assert((2 * d + 1) / 2 == d);
                }
                parted_by_suffix(pb, pa, sb, sa, tail, 1);
            } else {
                let k = pa.len();
                assert forall|i: int| 0 <= i < suffix(a).len() implies suffix(a)[i] == suffix(
                    b,
                )[i] by {
                    assert((2 * i + 1) / 2 == i && (2 * i + 1) % 2 == 1);
                    assert(na[k + 2 * i + 1] == sa[2 * i + 1]);
                    assert(nb[k + 2 * i + 1] == sb[2 * i + 1]);
                }
                assert(suffix(a) =~= suffix(b));
                assert(suffix(a).skip(1) =~= decimal(a));
                assert(suffix(b).skip(1) =~= decimal(b));
                decimal_injective(a, b);
            }
        },
        _ => {
            let base = unversioned(name);
            last_dot_bounds(base);
            let tail = iso_tail(name);
            let stem = base.take(ext_start(base));
            let (sa, sb) = (suffix(a), suffix(b));
            let pa = head(stem, minus(iso_limit(name, ty), sa.len() as int));
            let pb = head(stem, minus(iso_limit(name, ty), sb.len() as int));
            if sa.len() < sb.len() {
                suffix_not_tail(a, b);
                parted_by_suffix(pa, pb, sa, sb, tail, 0);
            } else if sb.len() < sa.len() {
                suffix_not_tail(b, a);
                parted_by_suffix(pb, pa, sb, sa, tail, 0);
            } else {
                let k = pa.len();
                assert forall|i: int| 0 <= i < sa.len() implies sa[i] == sb[i] by {
                    assert(na[k + i] == sa[i]);
                    assert(nb[k + i] == sb[i]);
                }
                assert(sa =~= sb);
                assert(sa.skip(1) =~= decimal(a));
                assert(sb.skip(1) =~= decimal(b));
                decimal_injective(a, b);
            }
        },
    }
}

/// A suffix keeps an 8.3 identifier within 8.3, as long as the suffix itself fits.
pub proof fn dedup_keeps_short_names_short(name: Seq<u8>, n: nat, ty: EntryType)
    requires
        ty is Level1,
        suffix(n).len() <= 8,
    ensures
        dedup_name(name, n, ty).len() <= 8 + iso_tail(name).len(),
{
    last_dot_bounds(unversioned(name));
}

fn make_suffix(n: usize) -> (r: Vec<u8>)
    ensures
        r@ == suffix(n as nat),
{
    let mut r: Vec<u8> = Vec::new();
    r.push(0x5F);
    let digits: Vec<u8> = decimal_bytes(n);
    push_all(&mut r, digits.as_slice());
    assert(r@ =~= suffix(n as nat));
    r
}

/// The identifier with the suffix `_n` before its extension and version, the basename cut
/// where needed.
pub fn apply_dedup_suffix(name: &[u8], n: usize, ty: EntryType) -> (r: Vec<u8>)
    ensures
        r@ == dedup_name(name@, n as nat, ty),
{
    let s: Vec<u8> = make_suffix(n);
    match ty {
        EntryType::Joliet { .. } => apply_joliet_dedup_suffix(name, s.as_slice(), Ghost(n as nat)),
        _ => apply_iso_dedup_suffix(name, s.as_slice(), ty, Ghost(n as nat)),
    }
}

fn apply_joliet_dedup_suffix(name: &[u8], s: &[u8], Ghost(n): Ghost<nat>) -> (r: Vec<u8>)
    requires
        s@ == suffix(n),
    ensures
        r@ == name@.take(joliet_kept(name@, widen(suffix(n)).len() as int)) + widen(suffix(n))
            + name@.skip(joliet_ext(name@, 0)),
{
    let mut wide: Vec<u8> = Vec::new();
    let mut k: usize = 0;
    while k < s.len()
        invariant
            k <= s@.len(),
            wide@ == widen(s@.take(k as int)),
        decreases s.len() - k,
    {
        wide.push(0);
        wide.push(s[k]);
        k += 1;
        assert(wide@ =~= widen(s@.take(k as int)));
    }
    assert(s@.take(k as int) =~= s@);
    let mut i: usize = 0;
    let len: usize = name.len();
    while i < len && len - i > 1 && !(name[i] == 0x00 && name[i + 1] == 0x2E)
        invariant
            i <= len + 1,
            len == name@.len(),
            joliet_ext(name@, i as int) == joliet_ext(name@, 0),
        decreases len + 1 - i,
    {
        if len - i == 2 {
            i = len;
        } else {
            i += 2;
        }
    }
    let p: usize = if i < len && len - i > 1 {
        i
    } else {
        len
    };
    assert(p == joliet_ext(name@, 0));
    let limit: usize = 206usize.saturating_sub(len - p).saturating_sub(wide.len());
    let kept: usize = if p < limit {
        p - p % 2
    } else {
        limit - limit % 2
    };
    assert(kept == joliet_kept(name@, wide@.len() as int));
    let mut r: Vec<u8> = copy_range(name, 0, kept);
    push_all(&mut r, wide.as_slice());
    let tail: Vec<u8> = copy_range(name, p, len);
    push_all(&mut r, tail.as_slice());
    assert(name@.subrange(0, kept as int) =~= name@.take(kept as int));
    assert(name@.subrange(p as int, len as int) =~= name@.skip(p as int));
    r
}

proof fn iso_tail_is_rest(name: Seq<u8>)
    ensures
        iso_tail(name) == name.skip(ext_start(unversioned(name))),
{
    let base = unversioned(name);
    last_dot_bounds(base);
    assert(iso_tail(name) =~= name.skip(ext_start(base)));
}

#[verifier::rlimit(40)]
fn apply_iso_dedup_suffix(name: &[u8], s: &[u8], ty: EntryType, Ghost(n): Ghost<nat>) -> (r: Vec<
    u8,
>)
    requires
        s@ == suffix(n),
        !(ty is Joliet),
    ensures
        r@ == dedup_name(name@, n, ty),
{
    let len: usize = name.len();
    let versioned: bool = len >= 2 && name[len - 2] == 0x3B && name[len - 1] == 0x31;
    let base_len: usize = if versioned {
        len - 2
    } else {
        len
    };
    let ghost base = unversioned(name@);
    assert(base =~= name@.take(base_len as int));
    let mut i: usize = base_len;
    assert(base.take(i as int) =~= base);
    while i > 0 && name[i - 1] != 0x2E
        invariant
            i <= base_len <= len,
            len == name@.len(),
            base == name@.take(base_len as int),
            last_dot(base.take(i as int)) == last_dot(base),
        decreases i,
    {
        assert(base.take(i as int).drop_last() =~= base.take(i - 1));
        i -= 1;
    }
    let p: usize = if i > 0 {
        i - 1
    } else {
        base_len
    };
    proof {
        last_dot_bounds(base);
        assert(p == ext_start(base));
    }
    let ext_len: usize = base_len - p;
    let limit: usize = match ty {
        EntryType::Level1 { .. } => 8,
        EntryType::Level2 { .. } => 30usize.saturating_sub(ext_len),
        _ => if versioned {
            207usize.saturating_sub(ext_len).saturating_sub(2)
        } else {
            207usize.saturating_sub(ext_len)
        },
    };
    assert(limit == iso_limit(name@, ty));
    let max_basename: usize = limit.saturating_sub(s.len());
    let kept: usize = if p < max_basename {
        p
    } else {
        max_basename
    };
    let mut r: Vec<u8> = copy_range(name, 0, kept);
    proof {
        let stem = base.take(p as int);
        assert(name@.subrange(0, kept as int) =~= head(stem, max_basename as int));
    }
    push_all(&mut r, s);
    let tail: Vec<u8> = copy_range(name, p, len);
    push_all(&mut r, tail.as_slice());
    proof {
        iso_tail_is_rest(name@);
        assert(tail@ =~= name@.skip(p as int));
    }
    r
}

} // verus!
