//! File and directory identifiers of each namespace.

use crate::iso::types::EntryType;
use crate::text::{chars_of, string_of_bytes};
#[allow(unused_imports)]
use crate::exfat::entry::{decode_units, utf16_round_trip};
#[allow(unused_imports)]
use crate::text::{ascii_chars, units_of_the_basic_plane, utf16};
use vstd::prelude::*;
#[allow(unused_imports)]
use vstd::utf8::encode_utf8;

verus! {

/// The d-character that stands for `c`: letters, digits and `_` stay (lowercase
/// letters only where they are kept, else they become uppercase), and anything else
/// becomes `_`.
pub open spec fn d_char(c: u8, lowercase: bool) -> u8 {
    if (0x41 <= c <= 0x5A) || (0x30 <= c <= 0x39) || c == 0x5F {
        c
    } else if 0x61 <= c <= 0x7A {
        if lowercase {
            c
        } else {
            (c - 32) as u8
        }
    } else {
        0x5F
    }
}

/// Each byte as a d-character.
pub open spec fn d_chars(s: Seq<u8>, lowercase: bool) -> Seq<u8> {
    Seq::new(s.len(), |i: int| d_char(s[i], lowercase))
}

/// Position of the first dot, or the length where there is none.
pub open spec fn first_dot(s: Seq<u8>) -> int
    decreases s.len(),
{
    if s.len() == 0 || s[0] == 0x2E {
        0
    } else {
        1 + first_dot(s.drop_first())
    }
}

/// Each byte as a d-character, but for the first dot, which stays.
pub open spec fn dotted_chars(s: Seq<u8>, lowercase: bool) -> Seq<u8> {
    Seq::new(
        s.len(),
        |i: int|
            if i == first_dot(s) {
                0x2Eu8
            } else {
                d_char(s[i], lowercase)
            },
    )
}

/// At most the first `n` bytes.
pub open spec fn head(s: Seq<u8>, n: int) -> Seq<u8> {
    if s.len() <= n {
        s
    } else {
        s.take(n)
    }
}

/// The version suffix of a file identifier.
pub open spec fn version() -> Seq<u8> {
    seq![0x3Bu8, 0x31u8]
}

/// The 8.3 form of a name, without a version.
pub open spec fn short_name(s: Seq<u8>, lowercase: bool) -> Seq<u8> {
    let p = first_dot(s);
    if p < s.len() {
        head(d_chars(s.take(p), lowercase), 8) + seq![0x2Eu8] + head(
            d_chars(s.skip(p + 1), lowercase),
            3,
        )
    } else {
        head(d_chars(s, lowercase), 8)
    }
}

/// The UCS-2 code unit for a character: `_` for one beyond the basic plane.
pub open spec fn ucs2_unit(c: char) -> u16 {
    if (c as u32) < 0x10000 {
        (c as u32) as u16
    } else {
        0x5F
    }
}

/// The bytes of the code units of `s`, big end first.
pub open spec fn ucs2_bytes(s: Seq<char>) -> Seq<u8> {
    Seq::new(
        2 * s.len(),
        |i: int|
            if i % 2 == 0 {
                (ucs2_unit(s[i / 2]) / 256) as u8
            } else {
                (ucs2_unit(s[i / 2]) % 256) as u8
            },
    )
}

/// At most the first 64 characters.
pub open spec fn joliet_chars(s: Seq<char>) -> Seq<char> {
    if s.len() <= 64 {
        s
    } else {
        s.take(64)
    }
}

/// The identifier of a file or directory called `name`, without a version.
pub open spec fn base_identifier(ty: EntryType, name: Seq<char>) -> Seq<u8> {
    let utf8 = encode_utf8(name);
    match ty {
        EntryType::Level1 { supports_lowercase, .. } => short_name(utf8, supports_lowercase),
        EntryType::Level2 { supports_lowercase, .. } => head(
            dotted_chars(utf8, supports_lowercase),
            30,
        ),
        EntryType::Level3 { supports_lowercase, .. } => head(
            dotted_chars(utf8, supports_lowercase),
            207,
        ),
        EntryType::Joliet { .. } => ucs2_bytes(joliet_chars(name)),
    }
}

/// The identifier of a file called `name`.
pub open spec fn file_identifier(ty: EntryType, name: Seq<char>) -> Seq<u8> {
    match ty {
        EntryType::Level1 { .. } => base_identifier(ty, name) + version(),
        EntryType::Level2 { .. } => base_identifier(ty, name) + version(),
        _ => base_identifier(ty, name),
    }
}

/// The longest identifier of a namespace.
pub open spec fn max_identifier_len(ty: EntryType) -> int {
    match ty {
        EntryType::Level1 { .. } => 14,
        EntryType::Level2 { .. } => 32,
        EntryType::Level3 { .. } => 207,
        EntryType::Joliet { .. } => 128,
    }
}

/// The first dot is a dot, and none comes before it.
pub proof fn first_dot_bounds(s: Seq<u8>)
    ensures
        0 <= first_dot(s) <= s.len(),
        first_dot(s) < s.len() ==> s[first_dot(s)] == 0x2E,
        forall|i: int| 0 <= i < first_dot(s) ==> s[i] != 0x2E,
    decreases s.len(),
{
    if s.len() > 0 && s[0] != 0x2E {
        let t = s.drop_first();
        first_dot_bounds(t);
        assert forall|i: int| 0 <= i < first_dot(s) implies s[i] != 0x2E by {
            if i > 0 {
                assert(t[i - 1] == s[i]);
            }
        }
    }
}

proof fn first_dot_is(s: Seq<u8>, p: int)
    requires
        0 <= p <= s.len(),
        p < s.len() ==> s[p] == 0x2E,
        forall|i: int| 0 <= i < p ==> s[i] != 0x2E,
    ensures
        first_dot(s) == p,
{
    first_dot_bounds(s);
}

/// No identifier is longer than its namespace allows, and a directory's identifier
/// holds no version separator.
pub proof fn identifiers_fit(ty: EntryType, name: Seq<char>)
    ensures
        base_identifier(ty, name).len() <= file_identifier(ty, name).len(),
        file_identifier(ty, name).len() <= max_identifier_len(ty),
        !(ty is Joliet) ==> !base_identifier(ty, name).contains(0x3Bu8),
{
    let utf8 = encode_utf8(name);
    first_dot_bounds(utf8);
    assert forall|i: int|
        !(ty is Joliet) && 0 <= i < base_identifier(ty, name).len() implies base_identifier(
        ty,
        name,
    )[i] != 0x3Bu8 by {}
}

/// A Joliet identifier holds the first 64 characters of a name, two bytes for each, big end first:
/// the character's number, or `_` in place of one beyond the basic plane.
pub proof fn joliet_identifiers_hold_the_characters(ty: EntryType, name: Seq<char>)
    requires
        ty is Joliet,
    ensures
        ({
            let id = file_identifier(ty, name);
            &&& id == base_identifier(ty, name)
            &&& name.len() <= 64 ==> id.len() == 2 * name.len()
            &&& name.len() > 64 ==> id.len() == 128
            &&& forall|i: int|
                0 <= i < name.len() && i < 64 && (#[trigger] name[i] as u32) < 0x10000 ==> 256
                    * id[2 * i] + id[2 * i + 1] == name[i] as u32
            &&& forall|i: int|
                0 <= i < name.len() && i < 64 && (#[trigger] name[i] as u32) >= 0x10000 ==> id[2
                    * i] == 0 && id[2 * i + 1] == '_' as u32
        }),
{
    let id = file_identifier(ty, name);
    assert forall|i: int| 0 <= i < name.len() && i < 64 implies 256 * id[2 * i] + id[2 * i + 1]
        == ucs2_unit(#[trigger] name[i]) by {
        assert((2 * i) % 2 == 0 && (2 * i) / 2 == i);
        assert((2 * i + 1) % 2 == 1 && (2 * i + 1) / 2 == i);
        assert(joliet_chars(name)[i] == name[i]);
    }
}

/// A name of at most 64 characters of the basic plane is read back from its Joliet identifier:
/// its bytes, taken as UTF-16 with the big end first, are the name.
pub proof fn joliet_identifiers_are_read_back(ty: EntryType, name: Seq<char>)
    requires
        ty is Joliet,
        name.len() <= 64,
        forall|i: int| 0 <= i < name.len() ==> (#[trigger] name[i] as u32) < 0x10000,
    ensures
        ({
            let id = file_identifier(ty, name);
            let units = Seq::new(
                (id.len() / 2) as nat,
                |i: int| (256 * id[2 * i] + id[2 * i + 1]) as u16,
            );
            decode_units(units) == name
        }),
{
    let id = file_identifier(ty, name);
    let units = Seq::new((id.len() / 2) as nat, |i: int| (256 * id[2 * i] + id[2 * i + 1]) as u16);
    joliet_identifiers_hold_the_characters(ty, name);
    units_of_the_basic_plane(name);
    assert forall|i: int| 0 <= i < name.len() implies units[i] == utf16(name)[i] by {
        assert((name[i] as u32) < 0x10000);
    }
    assert(units =~= utf16(name));
    utf16_round_trip(name);
}

/// Different names of at most 64 characters of the basic plane have different Joliet identifiers.
pub proof fn joliet_identifiers_differ(ty: EntryType, a: Seq<char>, b: Seq<char>)
    requires
        ty is Joliet,
        a.len() <= 64,
        b.len() <= 64,
        forall|i: int| 0 <= i < a.len() ==> (#[trigger] a[i] as u32) < 0x10000,
        forall|i: int| 0 <= i < b.len() ==> (#[trigger] b[i] as u32) < 0x10000,
        a != b,
    ensures
        file_identifier(ty, a) != file_identifier(ty, b),
{
    joliet_identifiers_are_read_back(ty, a);
    joliet_identifiers_are_read_back(ty, b);
}

/// What becomes of a byte of a name: capital letters, digits and `_` stay, small letters stay
/// where they are kept and else become the capital of the same letter, and anything else becomes
/// `_`. Doing it again changes nothing.
pub proof fn letters_digits_and_the_rest(c: u8, lowercase: bool)
    ensures
        'A' as u32 <= c <= 'Z' as u32 || '0' as u32 <= c <= '9' as u32 || c == '_' as u32
            ==> d_char(c, lowercase) == c,
        'a' as u32 <= c <= 'z' as u32 && lowercase ==> d_char(c, lowercase) == c,
        'a' as u32 <= c <= 'z' as u32 && !lowercase ==> d_char(c, lowercase) - 'A' as u32 == c
            - 'a' as u32,
        c < '0' as u32 || ('9' as u32) < c < 'A' as u32 || ('Z' as u32) < c < '_' as u32 || c
            == '`' as u32 || c > 'z' as u32 ==> d_char(c, lowercase) == '_' as u32,
        d_char(d_char(c, lowercase), lowercase) == d_char(c, lowercase),
{
}

/// The 8.3 form of a base and an extension: at most the first 8 bytes of what stands before the
/// first dot, the dot, and at most the first 3 bytes of what stands behind it, each as the
/// d-character that stands for it.
pub proof fn short_names_keep_eight_and_three(base: Seq<u8>, ext: Seq<u8>, lowercase: bool)
    requires
        !base.contains(0x2Eu8),
    ensures
        ({
            let r = short_name(base.push('.' as u8) + ext, lowercase);
            let b = if base.len() < 8 {
                base.len() as int
            } else {
                8
            };
            let e = if ext.len() < 3 {
                ext.len() as int
            } else {
                3
            };
            &&& r.len() == b + 1 + e
            &&& r[b] == '.' as u32
            &&& forall|i: int| 0 <= i < b ==> #[trigger] r[i] == d_char(base[i], lowercase)
            &&& forall|i: int|
                0 <= i < e ==> r[b + 1 + i] == d_char(#[trigger] ext[i], lowercase)
        }),
        ({
            let r = short_name(base, lowercase);
            &&& r.len() <= 8
            &&& base.len() <= 8 ==> r.len() == base.len()
            &&& base.len() > 8 ==> r.len() == 8
            &&& forall|i: int| 0 <= i < r.len() ==> #[trigger] r[i] == d_char(base[i], lowercase)
        }),
{
    let s = base.push(0x2E) + ext;
    assert forall|i: int| 0 <= i < base.len() implies s[i] != 0x2E by {
        assert(base.contains(base[i]));
    }
    first_dot_is(s, base.len() as int);
    assert(s.take(base.len() as int) =~= base);
    assert(s.skip(base.len() as int + 1) =~= ext);
    assert forall|i: int| 0 <= i < base.len() implies base[i] != 0x2E by {
        assert(base.contains(base[i]));
    }
    first_dot_is(base, base.len() as int);
}

/// The shortest form of a name is its 8.3 form, with small letters where they are kept.
pub proof fn the_first_form_is_short(ty: EntryType, name: Seq<char>)
    ensures
        ty matches EntryType::Level1 { supports_lowercase, .. } ==> base_identifier(ty, name)
            == short_name(encode_utf8(name), supports_lowercase),
{
}

/// The identifier of the longer forms: the first dot stays, every other byte becomes the
/// d-character that stands for it, and what exceeds 30 bytes (207 where the form has no version)
/// is cut off.
pub proof fn long_names_keep_their_places(ty: EntryType, name: Seq<char>, at: int)
    requires
        ty is Level2 || ty is Level3,
        0 <= at < encode_utf8(name).len(),
        at < (if ty is Level2 {
            30int
        } else {
            207int
        }),
    ensures
        ({
            let s = encode_utf8(name);
            let id = base_identifier(ty, name);
            let lowercase = match ty {
                EntryType::Level2 { supports_lowercase, .. } => supports_lowercase,
                EntryType::Level3 { supports_lowercase, .. } => supports_lowercase,
                _ => false,
            };
            &&& at < id.len()
            &&& id.len() <= s.len()
            &&& s[at] != '.' as u32 ==> id[at] == d_char(s[at], lowercase)
            &&& s[at] == '.' as u32 && (forall|i: int| 0 <= i < at ==> s[i] != '.' as u32)
                ==> id[at] == '.' as u32
            &&& s[at] == '.' as u32 && (exists|i: int| 0 <= i < at && s[i] == '.' as u32)
                ==> id[at] == '_' as u32
        }),
{
    first_dot_bounds(encode_utf8(name));
}

/// The identifier of a file is that of a directory of that name; in the first two forms `;1`
/// follows.
pub proof fn files_have_a_version(ty: EntryType, name: Seq<char>)
    ensures
        ({
            let id = file_identifier(ty, name);
            let base = base_identifier(ty, name);
            if ty is Level1 || ty is Level2 {
                id == base.push(';' as u8).push('1' as u8)
            } else {
                id == base
            }
        }),
{
}

/// A converted identifier.
#[derive(Debug, Clone)]
pub struct ConvertedName {
    /// The identifier's bytes.
    pub bytes: Vec<u8>,
}

impl ConvertedName {
    /// The identifier's bytes.
    pub fn as_bytes(&self) -> (r: &[u8])
        ensures
            r@ == self.bytes@,
    {
        self.bytes.as_slice()
    }

    /// Number of bytes.
    pub fn len(&self) -> (r: usize)
        ensures
            r == self.bytes@.len(),
    {
        self.bytes.len()
    }

    /// The identifier as text, one character for each byte.
    pub fn as_str(&self) -> (r: String)
        ensures
            r@ == ascii_chars(self.bytes@),
    {
        string_of_bytes(self.bytes.as_slice())
    }
}

/// The d-character that stands for `c`.
pub fn to_d_char(c: u8, lowercase: bool) -> (r: u8)
    ensures
        r == d_char(c, lowercase),
{
    if (0x41 <= c && c <= 0x5A) || (0x30 <= c && c <= 0x39) || c == 0x5F {
        c
    } else if 0x61 <= c && c <= 0x7A {
        if lowercase {
            c
        } else {
            c - 32
        }
    } else {
        0x5F
    }
}

/// Position of the first dot, or the length where there is none.
pub fn find_first_dot(s: &[u8]) -> (r: usize)
    ensures
        r == first_dot(s@),
        r <= s.len(),
{
    let mut i: usize = 0;
    while i < s.len() && s[i] != 0x2E
        invariant
            i <= s.len(),
            forall|k: int| 0 <= k < i ==> s@[k] != 0x2E,
        decreases s.len() - i,
    {
        i += 1;
    }
    proof {
        first_dot_is(s@, i as int);
    }
    i
}

/// Appends the d-characters of `s[from..to]`.
fn push_d_chars(out: &mut Vec<u8>, s: &[u8], from: usize, to: usize, lowercase: bool)
    requires
        from <= to <= s.len(),
    ensures
        final(out)@ == old(out)@ + d_chars(s@.subrange(from as int, to as int), lowercase),
{
    let mut i: usize = from;
    while i < to
        invariant
            from <= i <= to <= s.len(),
            out@ == old(out)@ + d_chars(s@.subrange(from as int, i as int), lowercase),
        decreases to - i,
    {
        out.push(to_d_char(s[i], lowercase));
        i += 1;
        assert(out@ =~= old(out)@ + d_chars(s@.subrange(from as int, i as int), lowercase));
    }
}

fn push_version(out: &mut Vec<u8>)
    ensures
        final(out)@ == old(out)@ + version(),
{
    out.push(0x3B);
    out.push(0x31);
    assert(out@ =~= old(out)@ + version());
}

fn short_bytes(s: &[u8], lowercase: bool) -> (out: Vec<u8>)
    ensures
        out@ == short_name(s@, lowercase),
{
    let mut out: Vec<u8> = Vec::new();
    let p: usize = find_first_dot(s);
    let base_end: usize = if p < 8 {
        p
    } else {
        8
    };
    push_d_chars(&mut out, s, 0, base_end, lowercase);
    assert(out@ =~= head(d_chars(s@.take(p as int), lowercase), 8));
    if p < s.len() {
        let ghost base = out@;
        out.push(0x2E);
        let ext_end: usize = if s.len() - p - 1 < 3 {
            s.len()
        } else {
            p + 4
        };
        push_d_chars(&mut out, s, p + 1, ext_end, lowercase);
        assert(out@ =~= base + seq![0x2Eu8] + head(d_chars(s@.skip(p + 1), lowercase), 3));
    } else {
        assert(s@.take(p as int) =~= s@);
    }
    out
}

fn dotted_bytes(s: &[u8], lowercase: bool, limit: usize) -> (out: Vec<u8>)
    ensures
        out@ == head(dotted_chars(s@, lowercase), limit as int),
{
    let mut out: Vec<u8> = Vec::new();
    let p: usize = find_first_dot(s);
    let n: usize = if s.len() < limit {
        s.len()
    } else {
        limit
    };
    let mut i: usize = 0;
    while i < n
        invariant
            i <= n <= s.len(),
            p == first_dot(s@),
            out@ == dotted_chars(s@, lowercase).take(i as int),
        decreases n - i,
    {
        if i == p {
            out.push(0x2E);
        } else {
            out.push(to_d_char(s[i], lowercase));
        }
        i += 1;
        assert(out@ =~= dotted_chars(s@, lowercase).take(i as int));
    }
    assert(out@ =~= head(dotted_chars(s@, lowercase), limit as int));
    out
}

/// The 8.3 identifier of a file.
pub fn convert_l1(name: &str, supports_lowercase: bool) -> (r: ConvertedName)
    ensures
        r.bytes@ == short_name(encode_utf8(name@), supports_lowercase) + version(),
{
    let mut bytes: Vec<u8> = short_bytes(name.as_bytes(), supports_lowercase);
    push_version(&mut bytes);
    ConvertedName { bytes }
}

/// The identifier of a file where 30 bytes are allowed.
pub fn convert_l2(name: &str, supports_lowercase: bool) -> (r: ConvertedName)
    ensures
        r.bytes@ == head(dotted_chars(encode_utf8(name@), supports_lowercase), 30) + version(),
{
    let mut bytes: Vec<u8> = dotted_bytes(name.as_bytes(), supports_lowercase, 30);
    push_version(&mut bytes);
    ConvertedName { bytes }
}

/// The identifier of a file where 207 bytes are allowed.
pub fn convert_l3(name: &str, supports_lowercase: bool) -> (r: ConvertedName)
    ensures
        r.bytes@ == head(dotted_chars(encode_utf8(name@), supports_lowercase), 207),
{
    ConvertedName { bytes: dotted_bytes(name.as_bytes(), supports_lowercase, 207) }
}

/// The Joliet identifier of a file: at most 64 UCS-2 code units, big end first.
pub fn convert_joliet3(name: &str) -> (r: ConvertedName)
    ensures
        r.bytes@ == ucs2_bytes(joliet_chars(name@)),
{
    let chars: Vec<char> = chars_of(name);
    let n: usize = if chars.len() < 64 {
        chars.len()
    } else {
        64
    };
    let mut bytes: Vec<u8> = Vec::new();
    let mut i: usize = 0;
    while i < n
        invariant
            i <= n <= chars.len(),
            bytes@ == ucs2_bytes(chars@.take(i as int)),
        decreases n - i,
    {
        let v: u32 = chars[i] as u32;
        let unit: u16 = if v < 0x10000 {
            v as u16
        } else {
            0x5F
        };
        bytes.push((unit / 256) as u8);
        bytes.push((unit % 256) as u8);
        i += 1;
        assert(bytes@ =~= ucs2_bytes(chars@.take(i as int)));
    }
    assert(chars@.take(n as int) =~= joliet_chars(name@));
    ConvertedName { bytes }
}

impl EntryType {
    /// The identifier of a file called `name` in this namespace.
    pub fn convert_name(&self, name: &str) -> (r: ConvertedName)
        ensures
            r.bytes@ == file_identifier(*self, name@),
    {
        match self {
            EntryType::Level1 { supports_lowercase, .. } => convert_l1(name, *supports_lowercase),
            EntryType::Level2 { supports_lowercase, .. } => convert_l2(name, *supports_lowercase),
            EntryType::Level3 { supports_lowercase, .. } => convert_l3(name, *supports_lowercase),
            EntryType::Joliet { .. } => convert_joliet3(name),
        }
    }

    /// The identifier of a directory called `name` in this namespace: as for a file,
    /// but without a version.
    pub fn convert_directory_name(&self, name: &str) -> (r: ConvertedName)
        ensures
            r.bytes@ == base_identifier(*self, name@),
    {
        match self {
            EntryType::Level1 { supports_lowercase, .. } => ConvertedName {
                bytes: short_bytes(name.as_bytes(), *supports_lowercase),
            },
            EntryType::Level2 { supports_lowercase, .. } => ConvertedName {
                bytes: dotted_bytes(name.as_bytes(), *supports_lowercase, 30),
            },
            EntryType::Level3 { supports_lowercase, .. } => convert_l3(name, *supports_lowercase),
            EntryType::Joliet { .. } => convert_joliet3(name),
        }
    }
}

} // verus!
