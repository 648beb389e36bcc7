//! Characters, code units and decimal numerals.

use std::sync::Arc;
use vstd::prelude::*;

verus! {

/// `String::push`: the character goes to the end of the string.
pub assume_specification[ String::push ](s: &mut String, c: char)
    ensures
        final(s)@ == old(s)@.push(c),
;

/// `Arc::clone`: the new pointer refers to the value that the old one refers to.
#[verifier::external_body]
pub(crate) fn share<T>(value: &Arc<T>) -> (r: Arc<T>)
    ensures
        r == *value,
{
    value.clone()
}

/// The UTF-16 code units of one character.
pub open spec fn utf16_char(c: char) -> Seq<u16> {
    if (c as u32) < 0x10000 {
        seq![(c as u32) as u16]
    } else {
        let v = (c as u32) - 0x10000;
        seq![(0xD800 + v / 0x400) as u16, (0xDC00 + v % 0x400) as u16]
    }
}

/// The UTF-16 code units of a string.
pub open spec fn utf16(s: Seq<char>) -> Seq<u16>
    decreases s.len(),
{
    if s.len() == 0 {
        Seq::empty()
    } else {
        utf16(s.drop_last()) + utf16_char(s.last())
    }
}

/// A character of the basic plane is one code unit, its own number.
pub proof fn units_of_the_basic_plane(s: Seq<char>)
    requires
        forall|i: int| 0 <= i < s.len() ==> (#[trigger] s[i] as u32) < 0x10000,
    ensures
        utf16(s).len() == s.len(),
        forall|i: int| 0 <= i < s.len() ==> #[trigger] utf16(s)[i] == s[i] as u32,
    decreases s.len(),
{
    if s.len() > 0 {
        units_of_the_basic_plane(s.drop_last());
        assert forall|i: int| 0 <= i < s.len() implies #[trigger] utf16(s)[i] == s[i] as u32 by {
            if i < s.len() - 1 {
                assert(utf16(s)[i] == utf16(s.drop_last())[i]);
            }
        }
    }
}

/// A character beyond the basic plane is two code units: one of 0xD800 to 0xDBFF with the upper
/// ten bits of what it exceeds the plane by, then one of 0xDC00 to 0xDFFF with the lower ten. The
/// units of a string are those of its characters one behind the other.
pub proof fn units_beyond_the_basic_plane(s: Seq<char>, c: char)
    ensures
        utf16(s.push(c)) == utf16(s) + utf16(seq![c]),
        (c as u32) < 0x10000 ==> utf16(seq![c]) == seq![(c as u32) as u16],
        c as u32 >= 0x10000 ==> {
            let u = utf16(seq![c]);
            &&& u.len() == 2
            &&& 0xD800 <= u[0] <= 0xDBFF
            &&& 0xDC00 <= u[1] <= 0xDFFF
            &&& 0x10000 + 0x400 * (u[0] - 0xD800) + (u[1] - 0xDC00) == c as u32
        },
{
    assert(s.push(c).drop_last() =~= s);
    let one = seq![c];
    assert(one.drop_last() =~= Seq::empty());
    assert(utf16(one.drop_last()) =~= Seq::empty());
    assert(utf16(one) =~= utf16_char(one.last()));
}

/// The ASCII digits of `n`, most significant first.
pub open spec fn decimal(n: nat) -> Seq<u8>
    decreases n,
{
    if n < 10 {
        seq![(48 + n) as u8]
    } else {
        decimal(n / 10).push((48 + n % 10) as u8)
    }
}

/// `s` behind as many zero digits as bring it to `width`.
pub open spec fn zero_padded(s: Seq<u8>, width: nat) -> Seq<u8>
    decreases width - s.len(),
{
    if s.len() >= width {
        s
    } else {
        zero_padded(seq![48u8] + s, width)
    }
}

/// The characters whose code points are the given bytes.
pub open spec fn ascii_chars(s: Seq<u8>) -> Seq<char> {
    s.map_values(|b: u8| b as char)
}

/// Every byte of a decimal numeral is a digit, and there is at least one.
pub proof fn decimal_is_digits(n: nat)
    ensures
        decimal(n).len() > 0,
        forall|i: int| 0 <= i < decimal(n).len() ==> 48 <= #[trigger] decimal(n)[i] <= 57,
    decreases n,
{
    if n >= 10 {
        decimal_is_digits(n / 10);
    }
}

/// Different numbers have different numerals.
pub proof fn decimal_injective(a: nat, b: nat)
    requires
        decimal(a) == decimal(b),
    ensures
        a == b,
    decreases a,
{
    decimal_is_digits(a / 10);
    decimal_is_digits(b / 10);
    if a < 10 {
        assert(decimal(a).len() == 1);
        if b >= 10 {
            assert(decimal(b).len() == decimal(b / 10).len() + 1);
        } else {
            assert(decimal(a)[0] == (48 + a) as u8);
            assert(decimal(b)[0] == (48 + b) as u8);
        }
    } else {
        assert(decimal(a).len() == decimal(a / 10).len() + 1);
        assert(b >= 10);
        assert(decimal(a).last() == (48 + a % 10) as u8);
        assert(decimal(b).last() == (48 + b % 10) as u8);
        assert(decimal(a).drop_last() =~= decimal(a / 10));
        assert(decimal(b).drop_last() =~= decimal(b / 10));
        decimal_injective(a / 10, b / 10);
    }
}

/// A numeral of a number below a power of ten has at most that many digits.
pub proof fn decimal_len(n: nat, k: nat)
    requires
        k > 0,
        n < vstd::arithmetic::power::pow(10, k),
    ensures
        decimal(n).len() <= k,
    decreases k,
{
    vstd::arithmetic::power::lemma_pow1(10);
    if n >= 10 {
        assert(k > 1);
        reveal(vstd::arithmetic::power::pow);
        assert(vstd::arithmetic::power::pow(10, k) == 10 * vstd::arithmetic::power::pow(
            10,
            (k - 1) as nat,
        ));
        decimal_len(n / 10, (k - 1) as nat);
    }
}

/// A numeral of a machine number has at most 20 digits.
pub proof fn decimal_len_usize(n: usize)
    ensures
        decimal(n as nat).len() <= 20,
{
    reveal_with_fuel(vstd::arithmetic::power::pow, 21);
    assert(vstd::arithmetic::power::pow(10, 20) == 100000000000000000000);
    decimal_len(n as nat, 20);
}

/// Among distinct picks from a pool there are no more than the pool holds.
pub proof fn pigeonhole<A>(pool: Seq<A>, picks: Seq<A>)
    requires
        picks.no_duplicates(),
        forall|i: int| 0 <= i < picks.len() ==> pool.contains(#[trigger] picks[i]),
    ensures
        picks.len() <= pool.len(),
{
    picks.unique_seq_to_set();
    pool.lemma_cardinality_of_set();
    assert(picks.to_set().subset_of(pool.to_set()));
    vstd::set_lib::lemma_len_subset(picks.to_set(), pool.to_set());
}

/// The characters of a string.
pub fn chars_of(s: &str) -> (r: Vec<char>)
    ensures
        r@ == s@,
{
    broadcast use vstd::string::group_string_axioms;

    let mut r: Vec<char> = Vec::new();
    for c in it: s.chars()
        invariant
            r@ == it.seq().take(it.index()),
            it.seq() == s@,
    {
        r.push(c);
        assert(r@ =~= it.seq().take(it.index() + 1));
    }
    assert(s@.take(s@.len() as int) =~= s@);
    r
}

/// The UTF-16 code units of a string.
pub fn encode_utf16(s: &str) -> (r: Vec<u16>)
    ensures
        r@ == utf16(s@),
{
    let chars: Vec<char> = chars_of(s);
    let mut r: Vec<u16> = Vec::new();
    let mut i: usize = 0;
    while i < chars.len()
        invariant
            i <= chars.len(),
            r@ == utf16(chars@.take(i as int)),
        decreases chars.len() - i,
    {
        let ghost before = r@;
        let v: u32 = chars[i] as u32;
        if v < 0x10000 {
            r.push(v as u16);
            assert(r@ =~= before + utf16_char(chars@[i as int]));
        } else {
            assert(v <= 0x10FFFF) by {
                vstd::utf8::char_is_scalar(chars@[i as int]);
            }
            let w: u32 = v - 0x10000;
            r.push((0xD800 + w / 0x400) as u16);
            r.push((0xDC00 + w % 0x400) as u16);
            assert(r@ =~= before + utf16_char(chars@[i as int]));
        }
        assert(chars@.take(i + 1).drop_last() =~= chars@.take(i as int));
        i += 1;
    }
    assert(chars@.take(i as int) =~= chars@);
    r
}

/// The ASCII digits of `n`, most significant first.
pub fn decimal_bytes(n: usize) -> (r: Vec<u8>)
    ensures
        r@ == decimal(n as nat),
    decreases n,
{
    if n < 10 {
        let mut r: Vec<u8> = Vec::new();
        r.push(48 + n as u8);
        assert(r@ =~= decimal(n as nat));
        r
    } else {
        let mut r: Vec<u8> = decimal_bytes(n / 10);
        r.push(48 + (n % 10) as u8);
        r
    }
}

/// `s` behind as many zero digits as bring it to `width`.
pub fn zero_pad(s: Vec<u8>, width: usize) -> (r: Vec<u8>)
    ensures
        r@ == zero_padded(s@, width as nat),
{
    let mut r: Vec<u8> = s;
    while r.len() < width
        invariant
            zero_padded(r@, width as nat) == zero_padded(s@, width as nat),
        decreases width - r.len(),
    {
        let ghost before = r@;
        r.insert(0, 48);
        assert(r@ =~= seq![48u8] + before);
    }
    r
}

/// The string whose characters have the given bytes as code points.
pub fn string_of_bytes(s: &[u8]) -> (r: String)
    ensures
        r@ == ascii_chars(s@),
{
    let mut r: String = String::new();
    let mut i: usize = 0;
    while i < s.len()
        invariant
            i <= s.len(),
            r@ == ascii_chars(s@.take(i as int)),
        decreases s.len() - i,
    {
        r.push(s[i] as char);
        i += 1;
        assert(r@ =~= ascii_chars(s@.take(i as int)));
    }
    assert(s@.take(i as int) =~= s@);
    r
}

/// The string that bytes in UTF-8 write, if they are that: `String::from_utf8`, which
/// returns an error exactly where its argument is not valid UTF-8.
#[verifier::external_body]
pub(crate) fn string_from_utf8(bytes: Vec<u8>) -> (r: Option<String>)
    ensures
        r is Some <==> vstd::utf8::valid_utf8(bytes@),
        r matches Some(s) ==> s@ == vstd::utf8::decode_utf8(bytes@),
{
    String::from_utf8(bytes).ok()
}

/// Whether two strings hold the same characters.
pub fn str_equal(a: &str, b: &str) -> (r: bool)
    ensures
        r == (a@ == b@),
{
    let x: &[u8] = a.as_bytes();
    let y: &[u8] = b.as_bytes();
    proof {
        vstd::utf8::encode_utf8_decode_utf8(a@);
        vstd::utf8::encode_utf8_decode_utf8(b@);
    }
    crate::bytes::bytes_equal(x, y)
}

/// Whether a byte separates path components: a slash, or a backslash where it counts.
pub open spec fn is_separator(b: u8, backslash: bool) -> bool {
    b == 0x2F || (backslash && b == 0x5C)
}

/// The components that `s` completes, and the one that is still open at its end.
pub open spec fn path_scan(s: Seq<u8>, backslash: bool) -> (Seq<Seq<u8>>, Seq<u8>)
    decreases s.len(),
{
    if s.len() == 0 {
        (Seq::empty(), Seq::empty())
    } else {
        let (done, open) = path_scan(s.drop_last(), backslash);
        if is_separator(s.last(), backslash) {
            (
                if open.len() > 0 {
                    done.push(open)
                } else {
                    done
                },
                Seq::empty(),
            )
        } else {
            (done, open.push(s.last()))
        }
    }
}

/// The components of a path: what stands between separators, without empty ones.
pub open spec fn path_parts(s: Seq<u8>, backslash: bool) -> Seq<Seq<u8>> {
    let (done, open) = path_scan(s, backslash);
    if open.len() > 0 {
        done.push(open)
    } else {
        done
    }
}

/// The components of a path: what stands between separators, without empty ones.
pub fn path_components(s: &[u8], backslash: bool) -> (r: Vec<Vec<u8>>)
    ensures
        Seq::new(r@.len(), |i: int| r@[i]@) == path_parts(s@, backslash),
{
    let mut done: Vec<Vec<u8>> = Vec::new();
    let mut open: Vec<u8> = Vec::new();
    let mut i: usize = 0;
    assert(Seq::new(done@.len(), |i: int| done@[i]@) =~= path_scan(s@.take(0), backslash).0);
    assert(open@ =~= path_scan(s@.take(0), backslash).1);
    while i < s.len()
        invariant
            i <= s.len(),
            Seq::new(done@.len(), |i: int| done@[i]@) == path_scan(
                s@.take(i as int),
                backslash,
            ).0,
            open@ == path_scan(s@.take(i as int), backslash).1,
        decreases s.len() - i,
    {
        let ghost before = Seq::new(done@.len(), |i: int| done@[i]@);
        let ghost was_open = open@;
        let b: u8 = s[i];
        assert(s@.take(i + 1).drop_last() =~= s@.take(i as int));
        if b == 0x2F || (backslash && b == 0x5C) {
            if open.len() > 0 {
                done.push(open);
                open = Vec::new();
                assert(Seq::new(done@.len(), |i: int| done@[i]@) =~= before.push(was_open));
            }
            assert(open@ =~= Seq::<u8>::empty());
        } else {
            open.push(b);
        }
        i += 1;
    }
    assert(s@.take(i as int) =~= s@);
    let ghost before = Seq::new(done@.len(), |i: int| done@[i]@);
    let ghost was_open = open@;
    if open.len() > 0 {
        done.push(open);
        assert(Seq::new(done@.len(), |i: int| done@[i]@) =~= before.push(was_open));
    }
    done
}

/// The components of a path that a slash completes, and the one that is still open.
pub open spec fn name_scan(s: Seq<char>) -> (Seq<Seq<char>>, Seq<char>)
    decreases s.len(),
{
    if s.len() == 0 {
        (Seq::empty(), Seq::empty())
    } else {
        let (done, open) = name_scan(s.drop_last());
        if s.last() == '/' {
            (with_part(done, open), Seq::empty())
        } else {
            (done, open.push(s.last()))
        }
    }
}

/// The components with another one, unless it is empty or stands for the directory itself.
pub open spec fn with_part(done: Seq<Seq<char>>, part: Seq<char>) -> Seq<Seq<char>> {
    if part.len() == 0 || part == seq!['.'] {
        done
    } else {
        done.push(part)
    }
}

/// The components of a path: what stands between slashes, without empty ones and those that
/// stand for the directory itself.
pub open spec fn name_parts(s: Seq<char>) -> Seq<Seq<char>> {
    let (done, open) = name_scan(s);
    with_part(done, open)
}

/// The values of strings.
pub open spec fn string_views(s: Seq<String>) -> Seq<Seq<char>> {
    Seq::new(s.len(), |i: int| s[i]@)
}

fn add_part(done: &mut Vec<String>, part: String)
    ensures
        string_views(final(done)@) == with_part(string_views(old(done)@), part@),
{
    let chars: Vec<char> = chars_of(part.as_str());
    if chars.len() == 0 {
        return ;
    }
    if chars.len() == 1 && chars[0] == '.' {
        assert(part@ =~= seq!['.']);
        return ;
    }
    assert(part@ != seq!['.']);
    done.push(part);
    assert(string_views(done@) =~= string_views(old(done)@).push(part@));
}

/// The components of a path: what stands between slashes, without empty ones and those that
/// stand for the directory itself.
pub fn split_path(path: &str) -> (r: Vec<String>)
    ensures
        string_views(r@) == name_parts(path@),
{
    let chars: Vec<char> = chars_of(path);
    let mut done: Vec<String> = Vec::new();
    let mut open: String = String::new();
    let mut i: usize = 0;
    assert(string_views(done@) =~= name_scan(chars@.take(0)).0);
    while i < chars.len()
        invariant
            i <= chars@.len(),
            chars@ == path@,
            string_views(done@) == name_scan(chars@.take(i as int)).0,
            open@ == name_scan(chars@.take(i as int)).1,
        decreases chars.len() - i,
    {
        assert(chars@.take(i + 1).drop_last() =~= chars@.take(i as int));
        if chars[i] == '/' {
            add_part(&mut done, open);
            open = String::new();
        } else {
            open.push(chars[i]);
        }
        i += 1;
    }
    assert(chars@.take(i as int) =~= path@);
    add_part(&mut done, open);
    done
}

} // verus!
