//! The up-case table, by which names are compared.

use crate::bytes::push_le16;
use crate::exfat::device::Device;
use crate::exfat::error::ExFatError;
use crate::exfat::info::{roll32_step, ExFatInfo};
#[allow(unused_imports)]
use crate::exfat::info::roll32;
use crate::text::encode_utf16;
#[allow(unused_imports)]
use crate::text::utf16;
use vstd::prelude::*;

verus! {

/// The most bytes of an up-case table: 65536 entries of two bytes.
pub const UPCASE_TABLE_MAX_BYTES: u64 = 131072;

/// Announces a run of code units that stay as they are.
pub const COMPRESSION_MARKER: u16 = 0xFFFF;

/// An up-case table.
#[derive(Debug)]
pub struct UpcaseTable {
    /// The upper-case form of each code unit.
    pub data: Vec<u16>,
    /// Whether the table was loaded.
    pub valid: bool,
}

/// The code units from `from` to `to`, in order.
pub open spec fn identity(from: int, to: int) -> Seq<u16> {
    if from < to {
        Seq::new((to - from) as nat, |i: int| (from + i) as u16)
    } else {
        Seq::empty()
    }
}

/// The little-endian words of bytes; an odd byte at the end does not count.
pub open spec fn words(raw: Seq<u8>) -> Seq<u16> {
    Seq::new((raw.len() / 2) as nat, |i: int| (raw[2 * i] + 256 * raw[2 * i + 1]) as u16)
}

/// The smaller of two numbers.
pub open spec fn lesser(a: int, b: int) -> int {
    if a < b {
        a
    } else {
        b
    }
}

/// The entries of a compressed table from code unit `at` on. The marker with a count behind
/// it stands for a run of code units that stay as they are, any other word for the upper-case
/// form of one code unit, and what the table does not reach stays as it is.
pub open spec fn expand(table: Seq<u16>, at: int) -> Seq<u16>
    decreases table.len(),
{
    if table.len() == 0 || at >= 65536 {
        identity(at, 65536)
    } else if table[0] == COMPRESSION_MARKER && table.len() >= 2 {
        let end = lesser(at + table[1], 65536);
        identity(at, end) + expand(table.skip(2), end)
    } else {
        seq![table[0]] + expand(table.skip(1), at + 1)
    }
}

/// A table has one entry for each code unit.
pub proof fn expand_len(table: Seq<u16>, at: int)
    requires
        0 <= at <= 65536,
    ensures
        expand(table, at).len() == 65536 - at,
    decreases table.len(),
{
    if table.len() == 0 || at >= 65536 {
    } else if table[0] == COMPRESSION_MARKER && table.len() >= 2 {
        expand_len(table.skip(2), lesser(at + table[1], 65536));
    } else {
        expand_len(table.skip(1), at + 1);
    }
}

/// `x` rotated right by one bit.
pub open spec fn rotr16(x: u16) -> u16 {
    (x / 2 + (x % 2) * 32768) as u16
}

/// One step of the name hash.
pub open spec fn hash_step(hash: u16, byte: int) -> u16 {
    ((rotr16(hash) + byte) % 65536) as u16
}

/// One step of the name hash.
pub fn roll16_step(hash: u16, byte: u16) -> (r: u16)
    requires
        byte < 256,
    ensures
        r == hash_step(hash, byte as int),
{
    let turned: u16 = hash / 2 + (hash % 2) * 32768;
    turned.wrapping_add(byte)
}

/// The hash of upper-case code units: for each the low byte, then the high one.
pub open spec fn hash_units(units: Seq<u16>) -> u16
    decreases units.len(),
{
    if units.len() == 0 {
        0
    } else {
        let u = units.last();
        hash_step(hash_step(hash_units(units.drop_last()), (u % 256) as int), (u / 256) as int)
    }
}

impl UpcaseTable {
    /// The upper-case form of a code unit.
    pub open spec fn upper(&self, c: u16) -> u16 {
        if self.valid && c < self.data@.len() {
            self.data@[c as int]
        } else {
            c
        }
    }

    /// The upper-case form of code units.
    pub open spec fn upper_all(&self, units: Seq<u16>) -> Seq<u16> {
        Seq::new(units.len(), |i: int| self.upper(units[i]))
    }

    /// Whether two names differ in case only.
    pub open spec fn same_name(&self, a: Seq<char>, b: Seq<char>) -> bool {
        self.upper_all(utf16(a)) == self.upper_all(utf16(b))
    }

    /// The hash of a name.
    pub open spec fn hash_of(&self, name: Seq<char>) -> u16 {
        hash_units(self.upper_all(utf16(name)))
    }

    /// An empty table, which is not valid.
    pub fn new() -> (r: Self)
        ensures
            r.data@.len() == 0,
            !r.valid,
    {
        UpcaseTable { data: Vec::new(), valid: false }
    }

    /// Loads the table.
    pub fn load<D: Device>(
        &mut self,
        device: &D,
        info: &ExFatInfo,
        first_cluster: u32,
        size: u64,
        is_contiguous: bool,
    ) -> (r: Result<(), ExFatError>)
        requires
            info.wf(),
        ensures
            load_outcome::<D>(
                *old(self),
                *final(self),
                device@,
                *info,
                first_cluster,
                size,
                is_contiguous,
                None,
                r,
            ),
    {
        self.load_impl(device, info, first_cluster, size, is_contiguous, None)
    }

    /// Loads the table and checks it against its checksum.
    pub fn load_checked<D: Device>(
        &mut self,
        device: &D,
        info: &ExFatInfo,
        first_cluster: u32,
        size: u64,
        is_contiguous: bool,
        expected_checksum: u32,
    ) -> (r: Result<(), ExFatError>)
        requires
            info.wf(),
        ensures
            load_outcome::<D>(
                *old(self),
                *final(self),
                device@,
                *info,
                first_cluster,
                size,
                is_contiguous,
                Some(expected_checksum),
                r,
            ),
    {
        self.load_impl(
            device,
            info,
            first_cluster,
            size,
            is_contiguous,
            Some(expected_checksum),
        )
    }

    fn load_impl<D: Device>(
        &mut self,
        device: &D,
        info: &ExFatInfo,
        first_cluster: u32,
        size: u64,
        is_contiguous: bool,
        expected_checksum: Option<u32>,
    ) -> (r: Result<(), ExFatError>)
        requires
            info.wf(),
        ensures
            load_outcome::<D>(
                *old(self),
                *final(self),
                device@,
                *info,
                first_cluster,
                size,
                is_contiguous,
                expected_checksum,
                r,
            ),
    {
        proof {
            let n = info.cluster_count as int;
            let b = info.bytes_per_cluster as int;
            assert(0 <= n * b <= 0xFFFFFFFF * 33554432) by (nonlinear_arith)
                requires
                    0 <= n <= 0xFFFFFFFF,
                    0 <= b <= 33554432,
            ;
        }
        let capacity: u64 = info.cluster_count as u64 * info.bytes_per_cluster as u64;
        if size > capacity {
            return Err(ExFatError::UpcaseExceedsVolume);
        }
        if size > UPCASE_TABLE_MAX_BYTES {
            return Err(ExFatError::UpcaseTooLarge);
        }
        if !is_contiguous {
            return Err(ExFatError::UpcaseFragmented);
        }
        let offset: u64 = info.cluster_to_offset(first_cluster);
        let raw: Vec<u8> = match device.read_at(offset, size as usize) {
            Ok(data) => data,
            Err(e) => {
                return Err(e);
            },
        };
        match expected_checksum {
            Some(expected) => {
                let found: u32 = compute_upcase_checksum(raw.as_slice());
                if found != expected {
                    return Err(ExFatError::InvalidChecksum { expected, found });
                }
            },
            None => {},
        }
        self.decompress(raw.as_slice());
        self.valid = true;
        Ok(())
    }

    fn decompress(&mut self, raw: &[u8])
        ensures
            final(self).data@ == expand(words(raw@), 0),
            final(self).valid == old(self).valid,
    {
        let ghost all = words(raw@);
        let n: usize = raw.len() / 2;
        let mut out: Vec<u16> = Vec::new();
        let mut i: usize = 0;
        let mut code: u32 = 0;
        assert(all.skip(0) =~= all);
        assert(out@ + expand(all, 0) =~= expand(all, 0));
        while i < n && code < 65536
            invariant
                i <= n,
                n == raw@.len() / 2,
                2 * n <= raw.len(),
                all == words(raw@),
                all.len() == n,
                code <= 65536,
                out@.len() == code,
                out@ + expand(all.skip(i as int), code as int) == expand(all, 0),
            decreases n - i,
        {
            let ghost rest = all.skip(i as int);
            let ghost before = out@;
            let value: u16 = raw[2 * i] as u16 + 256 * raw[2 * i + 1] as u16;
            assert(rest[0] == value);
            i += 1;
            if value == COMPRESSION_MARKER && i < n {
                let count: u32 = raw[2 * i] as u32 + 256 * raw[2 * i + 1] as u32;
                assert(rest[1] == count);
                i += 1;
                let end: u32 = if code + count < 65536 {
                    code + count
                } else {
                    65536
                };
                let ghost start = code as int;
                assert(before + identity(start, start) =~= before);
                while code < end
                    invariant
                        start <= code <= end <= 65536,
                        out@ == before + identity(start, code as int),
                    decreases end - code,
                {
                    out.push(code as u16);
                    code += 1;
                    assert(out@ =~= before + identity(start, code as int));
                }
                assert(rest.skip(2) =~= all.skip(i as int));
                assert(out@ + expand(all.skip(i as int), code as int) =~= before + expand(
                    rest,
                    start,
                ));
            } else {
                out.push(value);
                code += 1;
                assert(rest.skip(1) =~= all.skip(i as int));
                assert(out@ + expand(all.skip(i as int), code as int) =~= before + expand(
                    rest,
                    code - 1,
                ));
            }
        }
        let ghost before = out@;
        let ghost start = code as int;
        assert(expand(all.skip(i as int), start) == identity(start, 65536)) by {
            if i == n {
                assert(all.skip(i as int).len() == 0);
            }
        }
        assert(before + identity(start, start) =~= before);
        while code < 65536
            invariant
                start <= code <= 65536,
                out@ == before + identity(start, code as int),
            decreases 65536 - code,
        {
            out.push(code as u16);
            code += 1;
            assert(out@ =~= before + identity(start, code as int));
        }
        self.data = out;
    }

    /// The upper-case form of a code unit.
    pub fn to_upper(&self, c: u16) -> (r: u16)
        ensures
            r == self.upper(c),
    {
        if self.valid && (c as usize) < self.data.len() {
            self.data[c as usize]
        } else {
            c
        }
    }

    /// Whether two names differ in case only.
    pub fn names_equal(&self, name1: &str, name2: &str) -> (r: bool)
        ensures
            r == self.same_name(name1@, name2@),
    {
        let a: Vec<u16> = encode_utf16(name1);
        let b: Vec<u16> = encode_utf16(name2);
        self.units_equal(&a, &b)
    }

    /// Whether code units differ in case only.
    pub fn units_equal(&self, a: &Vec<u16>, b: &Vec<u16>) -> (r: bool)
        ensures
            r == (self.upper_all(a@) == self.upper_all(b@)),
    {
        let ghost ua = self.upper_all(a@);
        let ghost ub = self.upper_all(b@);
        if a.len() != b.len() {
            assert(ua.len() != ub.len());
            return false;
        }
        let mut i: usize = 0;
        while i < a.len()
            invariant
                i <= a@.len(),
                a@.len() == b@.len(),
                ua == self.upper_all(a@),
                ub == self.upper_all(b@),
                forall|k: int| 0 <= k < i ==> ua[k] == ub[k],
            decreases a.len() - i,
        {
            if self.to_upper(a[i]) != self.to_upper(b[i]) {
                assert(ua[i as int] != ub[i as int]);
                return false;
            }
            i += 1;
        }
        assert(ua =~= ub);
        true
    }

    /// The hash of a name, by which entries are told apart quickly.
    pub fn name_hash(&self, name: &str) -> (r: u16)
        ensures
            r == self.hash_of(name@),
    {
        let units: Vec<u16> = encode_utf16(name);
        let ghost all = self.upper_all(units@);
        let mut hash: u16 = 0;
        let mut i: usize = 0;
        while i < units.len()
            invariant
                i <= units@.len(),
                all == self.upper_all(units@),
                hash == hash_units(all.take(i as int)),
            decreases units.len() - i,
        {
            let upper: u16 = self.to_upper(units[i]);
            assert(all.take(i + 1).drop_last() =~= all.take(i as int));
            assert(all.take(i + 1).last() == upper);
            hash = roll16_step(roll16_step(hash, upper % 256), upper / 256);
            i += 1;
        }
        assert(all.take(i as int) =~= all);
        hash
    }

    /// Whether the table was loaded.
    pub fn is_valid(&self) -> (r: bool)
        ensures
            r == self.valid,
    {
        self.valid
    }

    /// A table that knows the letters of ASCII only.
    pub fn create_default() -> (r: Self)
        ensures
            r.valid,
            r.data@ == ascii_table(),
    {
        let mut data: Vec<u16> = Vec::new();
        let mut i: u32 = 0;
        while i < 65536
            invariant
                i <= 65536,
                data@ == ascii_table().take(i as int),
            decreases 65536 - i,
        {
            let c: u16 = i as u16;
            if 0x61 <= c && c <= 0x7A {
                data.push(c - 0x20);
            } else {
                data.push(c);
            }
            i += 1;
            assert(data@ =~= ascii_table().take(i as int));
        }
        assert(data@ =~= ascii_table());
        UpcaseTable { data, valid: true }
    }
}

impl Default for UpcaseTable {
    fn default() -> (r: Self)
        ensures
            r.data@.len() == 0,
            !r.valid,
    {
        Self::new()
    }
}

/// The table that knows the letters of ASCII only.
pub open spec fn ascii_table() -> Seq<u16> {
    Seq::new(
        65536,
        |i: int|
            if 0x61 <= i <= 0x7A {
                (i - 0x20) as u16
            } else {
                i as u16
            },
    )
}

/// What loading a table comes to. It must not exceed the volume's clusters, nor 65536
/// entries, nor be fragmented, and its checksum must match where one is given. On any error
/// the table stays as it was.
pub open spec fn load_outcome<D: Device>(
    before: UpcaseTable,
    after: UpcaseTable,
    content: Seq<u8>,
    info: ExFatInfo,
    first_cluster: u32,
    size: u64,
    is_contiguous: bool,
    checksum: Option<u32>,
    r: Result<(), ExFatError>,
) -> bool {
    let at = info.offset(first_cluster);
    let raw = content.subrange(at, at + size);
    let found = roll32(raw);
    if size > info.cluster_count * info.bytes_per_cluster {
        r == Err::<(), ExFatError>(ExFatError::UpcaseExceedsVolume) && after == before
    } else if size > UPCASE_TABLE_MAX_BYTES {
        r == Err::<(), ExFatError>(ExFatError::UpcaseTooLarge) && after == before
    } else if !is_contiguous {
        r == Err::<(), ExFatError>(ExFatError::UpcaseFragmented) && after == before
    } else {
        match r {
            Ok(_) => {
                &&& at + size <= content.len()
                &&& checksum is Some ==> checksum == Some(found)
                &&& after.valid
                &&& after.data@ == expand(words(raw), 0)
            },
            Err(ExFatError::Io) => {
                &&& D::infallible() ==> at + size > content.len()
                &&& after == before
            },
            Err(e) => {
                &&& after == before
                &&& at + size <= content.len()
                &&& checksum matches Some(expected) && found != expected && e
                    == (ExFatError::InvalidChecksum { expected, found })
            },
        }
    }
}

/// The checksum of an up-case table.
pub fn compute_upcase_checksum(data: &[u8]) -> (r: u32)
    ensures
        r == roll32(data@),
{
    let mut sum: u32 = 0;
    let mut i: usize = 0;
    while i < data.len()
        invariant
            i <= data@.len(),
            sum == roll32(data@.take(i as int)),
        decreases data.len() - i,
    {
        assert(data@.take(i + 1).drop_last() =~= data@.take(i as int));
        sum = roll32_step(sum, data[i]);
        i += 1;
    }
    assert(data@.take(i as int) =~= data@);
    sum
}

/// The words of the table that formatting writes: the letters of ASCII, and runs of code
/// units that stay as they are.
pub open spec fn standard_words() -> Seq<u16> {
    seq![0xFFFFu16, 97u16] + identity(0x41, 0x5B) + (seq![0xFFFFu16, 32768u16] + seq![
        0xFFFFu16,
        32645u16,
    ])
}

/// The bytes of words, least significant byte first.
pub open spec fn word_bytes(s: Seq<u16>) -> Seq<u8> {
    Seq::new(
        2 * s.len(),
        |i: int|
            if i % 2 == 0 {
                (s[i / 2] % 256) as u8
            } else {
                (s[i / 2] / 256) as u8
            },
    )
}

fn push_word(out: &mut Vec<u8>, w: u16, Ghost(before): Ghost<Seq<u16>>)
    requires
        old(out)@ == word_bytes(before),
    ensures
        final(out)@ == word_bytes(before.push(w)),
{
    push_le16(out, w);
    assert(out@ =~= word_bytes(before.push(w)));
}

fn push_words(out: &mut Vec<u8>, from: u16, to: u16, Ghost(before): Ghost<Seq<u16>>)
    requires
        old(out)@ == word_bytes(before),
        from <= to,
    ensures
        final(out)@ == word_bytes(before + identity(from as int, to as int)),
{
    let mut w: u16 = from;
    assert(before + identity(from as int, from as int) =~= before);
    while w < to
        invariant
            from <= w <= to,
            out@ == word_bytes(before + identity(from as int, w as int)),
        decreases to - w,
    {
        push_word(out, w, Ghost(before + identity(from as int, w as int)));
        w += 1;
        assert((before + identity(from as int, w - 1)).push((w - 1) as u16) =~= before + identity(
            from as int,
            w as int,
        ));
    }
}

/// A compressed up-case table for a new volume, and its checksum. It covers the letters of
/// ASCII; any other character stays as it is.
pub fn generate_compressed_upcase_table() -> (r: (Vec<u8>, u32))
    ensures
        r.0@ == word_bytes(standard_words()),
        r.1 == roll32(r.0@),
        expand(words(r.0@), 0) == ascii_table(),
{
    let mut data: Vec<u8> = Vec::new();
    let ghost mut w: Seq<u16> = Seq::empty();
    assert(data@ =~= word_bytes(w));
    push_word(&mut data, COMPRESSION_MARKER, Ghost(w));
    push_word(&mut data, 97, Ghost(w.push(0xFFFF)));
    proof {
        w = w.push(0xFFFF).push(97);
    }
    push_words(&mut data, 0x41, 0x5B, Ghost(w));
    proof {
        w = w + identity(0x41, 0x5B);
    }
    push_word(&mut data, COMPRESSION_MARKER, Ghost(w));
    push_word(&mut data, 32768, Ghost(w.push(0xFFFF)));
    push_word(&mut data, COMPRESSION_MARKER, Ghost(w.push(0xFFFF).push(32768)));
    push_word(&mut data, 32645, Ghost(w.push(0xFFFF).push(32768).push(0xFFFF)));
    proof {
        w = w.push(0xFFFF).push(32768).push(0xFFFF).push(32645);
        assert(w =~= standard_words());
        standard_table_is_ascii();
    }
    let checksum: u32 = compute_upcase_checksum(data.as_slice());
    (data, checksum)
}

proof fn expand_run(count: u16, rest: Seq<u16>, at: int)
    requires
        0 <= at,
        at + count <= 65536,
        at < 65536,
    ensures
        expand(seq![0xFFFFu16, count] + rest, at) == identity(at, at + count) + expand(
            rest,
            at + count,
        ),
{
    let t = seq![0xFFFFu16, count] + rest;
    assert(t.skip(2) =~= rest);
    assert(t[0] == 0xFFFF && t[1] == count);
}

proof fn expand_direct(values: Seq<u16>, rest: Seq<u16>, at: int)
    requires
        0 <= at,
        at + values.len() <= 65536,
        forall|i: int| 0 <= i < values.len() ==> values[i] != 0xFFFF,
    ensures
        expand(values + rest, at) == values + expand(rest, at + values.len()),
    decreases values.len(),
{
    if values.len() == 0 {
        assert(values + rest =~= rest);
        assert(values + expand(rest, at) =~= expand(rest, at));
    } else {
        let t = values + rest;
        let tail = values.drop_first();
        assert(t.skip(1) =~= tail + rest);
        expand_direct(tail, rest, at + 1);
        assert(seq![values[0]] + (tail + expand(rest, at + values.len())) =~= values + expand(
            rest,
            at + values.len(),
        ));
    }
}

/// The table that formatting writes expands to the one that maps the letters of ASCII to
/// upper case and every other code unit to itself.
pub proof fn standard_table_is_ascii()
    ensures
        words(word_bytes(standard_words())) == standard_words(),
        expand(standard_words(), 0) == ascii_table(),
{
    let w = standard_words();
    assert(words(word_bytes(w)) =~= w) by {
        assert forall|i: int| 0 <= i < w.len() implies words(word_bytes(w))[i] == w[i] by {
            let b = word_bytes(w);
            assert((2 * i) % 2 == 0 && (2 * i) / 2 == i);
            assert((2 * i + 1) % 2 == 1 && (2 * i + 1) / 2 == i);
            assert(b[2 * i] == (w[i] % 256) as u8);
            assert(b[2 * i + 1] == (w[i] / 256) as u8);
        }
    }
    let p3 = seq![0xFFFFu16, 32645u16];
    let p2 = seq![0xFFFFu16, 32768u16] + p3;
    let ascii = identity(0x41, 0x5B);
    assert(w =~= seq![0xFFFFu16, 97u16] + (ascii + p2));
    expand_run(97, ascii + p2, 0);
    expand_direct(ascii, p2, 97);
    expand_run(32768, p3, 123);
    assert(p3 =~= p3 + Seq::<u16>::empty());
    expand_run(32645, Seq::empty(), 32891);
    let e = expand(w, 0);
    let all = identity(0, 97) + (ascii + (identity(123, 32891) + (identity(32891, 65536) + expand(
        Seq::empty(),
        65536,
    ))));
    assert(e == all);
    expand_len(w, 0);
    assert(e =~= ascii_table());
}

/// A loaded table maps each code unit to its entry of the expanded table; there is one for every
/// code unit.
pub proof fn loaded_tables_map_every_unit<D: Device>(
    before: UpcaseTable,
    after: UpcaseTable,
    content: Seq<u8>,
    info: ExFatInfo,
    first_cluster: u32,
    size: u64,
    is_contiguous: bool,
    checksum: Option<u32>,
)
    requires
        load_outcome::<D>(
            before,
            after,
            content,
            info,
            first_cluster,
            size,
            is_contiguous,
            checksum,
            Ok(()),
        ),
    ensures
        ({
            let at = info.offset(first_cluster);
            let table = expand(words(content.subrange(at, at + size)), 0);
            &&& table.len() == 65536
            &&& forall|c: u16| #[trigger] after.upper(c) == table[c as int]
        }),
{
    let at = info.offset(first_cluster);
    expand_len(words(content.subrange(at, at + size)), 0);
}

/// Where the first `n` words of a loaded table are entries and not the marker, the upper-case form
/// of each of the first `n` code units is its word, low byte first, as it stands on the device.
pub proof fn loaded_tables_map_by_their_words<D: Device>(
    before: UpcaseTable,
    after: UpcaseTable,
    content: Seq<u8>,
    info: ExFatInfo,
    first_cluster: u32,
    size: u64,
    is_contiguous: bool,
    checksum: Option<u32>,
    n: int,
)
    requires
        load_outcome::<D>(
            before,
            after,
            content,
            info,
            first_cluster,
            size,
            is_contiguous,
            checksum,
            Ok(()),
        ),
        0 <= 2 * n <= size,
        forall|c: u16|
            c < n ==> (#[trigger] content[info.offset(first_cluster) + 2 * c] != 0xFF
                || content[info.offset(first_cluster) + 2 * c + 1] != 0xFF),
    ensures
        forall|c: u16|
            c < n ==> #[trigger] after.upper(c) == content[info.offset(first_cluster) + 2 * c] + 256
                * content[info.offset(first_cluster) + 2 * c + 1],
{
    let at = info.offset(first_cluster);
    let raw = content.subrange(at, at + size);
    let all = words(raw);
    let direct = all.take(n);
    assert forall|i: int| 0 <= i < n implies all[i] == content[at + 2 * i] + 256 * content[at + 2
        * i + 1] && all[i] != 0xFFFF by {
        assert(raw[2 * i] == content[at + 2 * i]);
        assert(raw[2 * i + 1] == content[at + 2 * i + 1]);
        let c = i as u16;
        assert(content[at + 2 * c] != 0xFF || content[at + 2 * c + 1] != 0xFF);
    }
    expand_direct(direct, all.skip(n), 0);
    assert(direct + all.skip(n) =~= all);
    assert forall|c: u16| c < n implies #[trigger] after.upper(c) == content[at + 2 * c] + 256
        * content[at + 2 * c + 1] by {
        assert(expand(all, 0)[c as int] == direct[c as int]);
    }
}

/// Entries, then a marker with a count, then entries: the first entries are the upper-case forms
/// of the first code units, as many code units as the count says stay as they are, the other
/// entries are the forms of those that follow, and what comes behind them stays as it is.
pub proof fn a_run_stays_as_it_is(table: UpcaseTable, a: Seq<u16>, count: u16, b: Seq<u16>)
    requires
        table.valid,
        table.data@ == expand(a + seq![0xFFFFu16, count] + b, 0),
        forall|i: int| 0 <= i < a.len() ==> a[i] != 0xFFFF,
        forall|i: int| 0 <= i < b.len() ==> b[i] != 0xFFFF,
        a.len() + count + b.len() <= 65535,
    ensures
        forall|c: u16| c < a.len() ==> #[trigger] table.upper(c) == a[c as int],
        forall|c: u16| a.len() <= c < a.len() + count ==> #[trigger] table.upper(c) == c,
        forall|c: u16|
            a.len() + count <= c < a.len() + count + b.len() ==> #[trigger] table.upper(c) == b[c
                - a.len() - count],
        forall|c: u16| a.len() + count + b.len() <= c ==> #[trigger] table.upper(c) == c,
{
    let n = a.len() as int;
    let rest = seq![0xFFFFu16, count] + b;
    assert(a + seq![0xFFFFu16, count] + b =~= a + rest);
    expand_direct(a, rest, 0);
    expand_run(count, b, n);
    expand_direct(b, Seq::empty(), n + count);
    assert(b + Seq::<u16>::empty() =~= b);
}

/// A table that was not loaded maps nothing; otherwise equal names have the same number of code
/// units, and each of them maps to the same code unit as the one at its place.
pub proof fn names_are_compared_unit_by_unit(table: UpcaseTable, a: Seq<char>, b: Seq<char>)
    ensures
        !table.valid ==> (table.same_name(a, b) <==> utf16(a) == utf16(b)),
        table.same_name(a, b) <==> utf16(a).len() == utf16(b).len() && (forall|i: int|
            0 <= i < utf16(a).len() ==> #[trigger] table.upper(utf16(a)[i]) == table.upper(
                utf16(b)[i],
            )),
{
    let (ua, ub) = (table.upper_all(utf16(a)), table.upper_all(utf16(b)));
    if !table.valid {
        assert(ua =~= utf16(a));
        assert(ub =~= utf16(b));
    }
    if table.same_name(a, b) {
        assert(ua.len() == ub.len());
        assert forall|i: int| 0 <= i < utf16(a).len() implies #[trigger] table.upper(utf16(a)[i])
            == table.upper(utf16(b)[i]) by {
            assert(ua[i] == ub[i]);
        }
    } else if utf16(a).len() == utf16(b).len() && (forall|i: int|
        0 <= i < utf16(a).len() ==> #[trigger] table.upper(utf16(a)[i]) == table.upper(
            utf16(b)[i],
        )) {
        assert(ua =~= ub);
    }
}

/// Hashing the next code unit turns the hash by one bit to the right and adds the low byte of the
/// code unit, and then does the same with the high byte.
pub proof fn hashes_turn_and_add(units: Seq<u16>, u: u16)
    ensures
        hash_units(Seq::empty()) == 0,
        ({
            let h = hash_units(units);
            let low = ((((h >> 1) | (h << 15)) as int + (u & 0xFF)) % 65536) as u16;
            hash_units(units.push(u)) == (((low >> 1) | (low << 15)) as int + (u >> 8)) % 65536
        }),
{
    assert(units.push(u).drop_last() =~= units);
    let h = hash_units(units);
    turned_right(h);
    assert(u & 0xFF == u % 256 && u >> 8 == u / 256) by (bit_vector);
    turned_right(hash_step(h, (u % 256) as int));
}

proof fn turned_right(x: u16)
    ensures
        (x >> 1) | (x << 15) == rotr16(x),
{
    assert(((x >> 1) | (x << 15)) as int == x / 2 + (x % 2) * 32768) by (bit_vector);
}

/// Equality of names but for case is an equivalence, and equal names have equal hashes.
pub proof fn name_equality_is_an_equivalence(
    table: UpcaseTable,
    a: Seq<char>,
    b: Seq<char>,
    c: Seq<char>,
)
    ensures
        table.same_name(a, a),
        table.same_name(a, b) == table.same_name(b, a),
        table.same_name(a, b) && table.same_name(b, c) ==> table.same_name(a, c),
        table.same_name(a, b) ==> table.hash_of(a) == table.hash_of(b),
{
}

} // verus!
