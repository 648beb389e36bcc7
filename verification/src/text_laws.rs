//! How text is taken apart and put together.

#[allow(unused_imports)]
use crate::text::{
    ascii_chars, decimal, is_separator, name_parts, name_scan, path_parts, path_scan, zero_padded,
};
use vstd::prelude::*;

verus! {

proof fn scan_goes_on(a: Seq<char>, b: Seq<char>)
    ensures
        ({
            let joined = name_scan(a.push('/') + b);
            let (done, open) = name_scan(b);
            joined.0 == name_parts(a) + done && joined.1 == open
        }),
    decreases b.len(),
{
    let s = a.push('/') + b;
    if b.len() == 0 {
        assert(s =~= a.push('/'));
        assert(s.drop_last() =~= a);
        assert(s.last() == '/');
        assert(name_scan(s).0 =~= name_parts(a) + Seq::<Seq<char>>::empty());
    } else {
        scan_goes_on(a, b.drop_last());
        assert(s.drop_last() =~= a.push('/') + b.drop_last());
        assert(s.last() == b.last());
        let (done, open) = name_scan(b.drop_last());
        assert(name_parts(a) + done.push(open) =~= (name_parts(a) + done).push(open));
    }
}

proof fn scan_without_slash(s: Seq<char>)
    requires
        forall|i: int| 0 <= i < s.len() ==> s[i] != '/',
    ensures
        name_scan(s) == (Seq::<Seq<char>>::empty(), s),
    decreases s.len(),
{
    if s.len() > 0 {
        scan_without_slash(s.drop_last());
        assert(s.drop_last().push(s.last()) =~= s);
    } else {
        assert(s =~= Seq::empty());
    }
}

/// The names of a path are those before a slash, then those behind it. What holds no slash is one
/// name, unless it is empty or a single dot, which name nothing.
pub proof fn paths_are_names_between_slashes(a: Seq<char>, b: Seq<char>)
    ensures
        name_parts(a.push('/') + b) == name_parts(a) + name_parts(b),
        (forall|i: int| 0 <= i < a.len() ==> a[i] != '/') ==> name_parts(a) == (if a.len() == 0
            || (a.len() == 1 && a[0] == '.') {
            Seq::<Seq<char>>::empty()
        } else {
            seq![a]
        }),
{
    scan_goes_on(a, b);
    let (done, open) = name_scan(b);
    assert(name_parts(a) + done.push(open) =~= (name_parts(a) + done).push(open));
    if forall|i: int| 0 <= i < a.len() ==> a[i] != '/' {
        scan_without_slash(a);
        if a.len() == 1 && a[0] == '.' {
            assert(a =~= seq!['.']);
        } else if a == seq!['.'] {
            assert(a.len() == 1 && a[0] == '.');
        }
        assert(Seq::<Seq<char>>::empty().push(a) =~= seq![a]);
    }
}

proof fn byte_scan_goes_on(a: Seq<u8>, sep: u8, b: Seq<u8>, backslash: bool)
    requires
        is_separator(sep, backslash),
    ensures
        ({
            let joined = path_scan(a.push(sep) + b, backslash);
            let (done, open) = path_scan(b, backslash);
            joined.0 == path_parts(a, backslash) + done && joined.1 == open
        }),
    decreases b.len(),
{
    let s = a.push(sep) + b;
    if b.len() == 0 {
        assert(s =~= a.push(sep));
        assert(s.drop_last() =~= a);
        assert(s.last() == sep);
        assert(path_scan(s, backslash).0 =~= path_parts(a, backslash) + Seq::<Seq<u8>>::empty());
    } else {
        byte_scan_goes_on(a, sep, b.drop_last(), backslash);
        assert(s.drop_last() =~= a.push(sep) + b.drop_last());
        assert(s.last() == b.last());
        let (done, open) = path_scan(b.drop_last(), backslash);
        assert(path_parts(a, backslash) + done.push(open) =~= (path_parts(a, backslash)
            + done).push(open));
    }
}

proof fn byte_scan_without_separator(s: Seq<u8>, backslash: bool)
    requires
        forall|i: int| 0 <= i < s.len() ==> !is_separator(s[i], backslash),
    ensures
        path_scan(s, backslash) == (Seq::<Seq<u8>>::empty(), s),
    decreases s.len(),
{
    if s.len() > 0 {
        byte_scan_without_separator(s.drop_last(), backslash);
        assert(s.drop_last().push(s.last()) =~= s);
    } else {
        assert(s =~= Seq::empty());
    }
}

/// The parts of a path are those before a separator, then those behind it. What holds no separator
/// is one part, unless it is empty. A slash separates, and a backslash where it is asked for.
pub proof fn paths_are_parts_between_separators(a: Seq<u8>, b: Seq<u8>, backslash: bool)
    ensures
        path_parts(a.push('/' as u8) + b, backslash) == path_parts(a, backslash) + path_parts(
            b,
            backslash,
        ),
        backslash ==> path_parts(a.push('\\' as u8) + b, backslash) == path_parts(a, backslash)
            + path_parts(b, backslash),
        (forall|i: int|
            0 <= i < a.len() ==> a[i] != '/' as u32 && (backslash ==> a[i] != '\\' as u32))
            ==> path_parts(a, backslash) == (if a.len() == 0 {
            Seq::<Seq<u8>>::empty()
        } else {
            seq![a]
        }),
{
    byte_scan_goes_on(a, '/' as u8, b, backslash);
    if backslash {
        byte_scan_goes_on(a, '\\' as u8, b, backslash);
    }
    let (done, open) = path_scan(b, backslash);
    assert(path_parts(a, backslash) + done.push(open) =~= (path_parts(a, backslash) + done).push(
        open,
    ));
    if forall|i: int|
        0 <= i < a.len() ==> a[i] != '/' as u32 && (backslash ==> a[i] != '\\' as u32) {
        assert forall|i: int| 0 <= i < a.len() implies !is_separator(a[i], backslash) by {}
        byte_scan_without_separator(a, backslash);
        assert(Seq::<Seq<u8>>::empty().push(a) =~= seq![a]);
    }
}

/// A digit behind a number makes ten times the number and the digit.
pub proof fn digits_count_tens(n: nat, d: nat)
    requires
        d < 10,
    ensures
        decimal(d) == seq![('0' as u32 + d) as u8],
        n > 0 ==> decimal(10 * n + d) == decimal(n).push(('0' as u32 + d) as u8),
{
    assert((10 * n + d) / 10 == n && (10 * n + d) % 10 == d);
}

/// A number that is brought to a width has zeros in front of it and is not cut.
pub proof fn zeros_stand_in_front(s: Seq<u8>, width: nat)
    ensures
        ({
            let r = zero_padded(s, width);
            let front = r.len() - s.len();
            &&& r.len() >= s.len()
            &&& s.len() >= width ==> r == s
            &&& s.len() < width ==> r.len() == width
            &&& forall|i: int| 0 <= i < front ==> #[trigger] r[i] == '0' as u32
            &&& forall|i: int| 0 <= i < s.len() ==> r[front + i] == #[trigger] s[i]
        }),
    decreases width - s.len(),
{
    if s.len() < width {
        let t = seq![48u8] + s;
        zeros_stand_in_front(t, width);
        let r = zero_padded(s, width);
        let front = r.len() - t.len();
        assert forall|i: int| 0 <= i < front + 1 implies #[trigger] r[i] == '0' as u32 by {
            if i == front {
                assert(r[front + 0] == t[0]);
            }
        }
        assert forall|i: int| 0 <= i < s.len() implies r[front + 1 + i] == #[trigger] s[i] by {
            assert(t[i + 1] == s[i]);
            assert(r[front + (i + 1)] == t[i + 1]);
        }
    }
}

/// Text of bytes has one character for each, with the byte's number.
pub proof fn bytes_are_characters(s: Seq<u8>, i: int)
    requires
        0 <= i < s.len(),
    ensures
        ascii_chars(s).len() == s.len(),
        ascii_chars(s)[i] as u32 == s[i],
{
}

} // verus!
