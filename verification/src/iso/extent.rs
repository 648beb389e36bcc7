//! How a file is cut into extents.

use crate::iso::types::DirectoryRef;
#[allow(unused_imports)]
use crate::iso::types::LogicalSector;
use vstd::prelude::*;

verus! {

/// The largest extent: the largest multiple of 2048 that fits 32 bits.
pub const MAX_EXTENT_SIZE: u64 = 4294965248;

/// Whether `s` is a sector size, that is, a power of two.
pub open spec fn is_sector_size(s: u64) -> bool {
    s > 0 && s & ((s - 1) as u64) == 0
}

/// The first multiple of `s` that is not below `x`.
pub open spec fn align_up(x: int, s: int) -> int {
    (x + s - 1) / s * s
}

/// The size of the next extent.
pub open spec fn extent_size(len: int) -> int {
    if len > MAX_EXTENT_SIZE {
        MAX_EXTENT_SIZE as int
    } else {
        len
    }
}

/// The extents of `len` bytes from byte `cursor` on: each starts at a sector and all but
/// the last have the largest size.
pub open spec fn extent_list(len: int, cursor: int, s: int) -> Seq<DirectoryRef>
    decreases len,
{
    if len <= 0 {
        Seq::empty()
    } else {
        let chunk = extent_size(len);
        let start = align_up(cursor, s);
        seq![
            DirectoryRef {
                extent: LogicalSector((start / s) as usize),
                size: chunk as usize,
            },
        ] + extent_list(len - chunk, start + chunk, s)
    }
}

/// The byte behind the last extent.
pub open spec fn extent_end(len: int, cursor: int, s: int) -> int
    decreases len,
{
    if len <= 0 {
        cursor
    } else {
        extent_end(len - extent_size(len), align_up(cursor, s) + extent_size(len), s)
    }
}

/// Rounding up to a multiple stays within one step.
pub proof fn align_up_bounds(x: int, s: int)
    requires
        x >= 0,
        s > 0,
    ensures
        x <= align_up(x, s) < x + s,
        align_up(x, s) % s == 0,
        align_up(x, s) / s * s == align_up(x, s),
        x % s == 0 ==> align_up(x, s) == x,
{
    let q = (x + s - 1) / s;
    vstd::arithmetic::div_mod::lemma_fundamental_div_mod(x + s - 1, s);
    assert(q * s == s * q) by (nonlinear_arith);
    vstd::arithmetic::div_mod::lemma_mod_multiples_basic(q, s);
    vstd::arithmetic::div_mod::lemma_div_multiples_vanish(q, s);
    assert(q * s / s == q) by {
        vstd::arithmetic::div_mod::lemma_div_by_multiple(q, s);
    }
    if x % s == 0 {
        vstd::arithmetic::div_mod::lemma_fundamental_div_mod(x, s);
        vstd::arithmetic::div_mod::lemma_fundamental_div_mod_converse(
            x + s - 1,
            s,
            x / s,
            s - 1,
        );
        assert(x / s * s == s * (x / s)) by (nonlinear_arith);
    }
}

/// A file ends behind its data.
pub proof fn extent_end_grows(len: int, cursor: int, s: int)
    requires
        cursor >= 0,
        s > 0,
    ensures
        cursor + (if len > 0 {
            len
        } else {
            0
        }) <= extent_end(len, cursor, s),
        len > 0 ==> align_up(cursor, s) + len <= extent_end(len, cursor, s),
    decreases len,
{
    if len > 0 {
        align_up_bounds(cursor, s);
        extent_end_grows(len - extent_size(len), align_up(cursor, s) + extent_size(len), s);
    }
}

/// The bytes that extents cover.
pub open spec fn covered(extents: Seq<DirectoryRef>) -> int
    decreases extents.len(),
{
    if extents.len() == 0 {
        0
    } else {
        extents[0].size + covered(extents.drop_first())
    }
}

/// The extents of a file cover exactly its bytes: none for an empty file.
pub proof fn extents_cover_the_file(len: int, cursor: int, s: int)
    requires
        0 <= len,
        cursor >= 0,
        s > 0,
    ensures
        covered(extent_list(len, cursor, s)) == len,
        extent_list(len, cursor, s).len() == 0 <==> len == 0,
    decreases len,
{
    if len > 0 {
        let chunk = extent_size(len);
        let start = align_up(cursor, s);
        align_up_bounds(cursor, s);
        extents_cover_the_file(len - chunk, start + chunk, s);
        let all = extent_list(len, cursor, s);
        assert(all.drop_first() =~= extent_list(len - chunk, start + chunk, s));
    }
}

/// In 2048-byte sectors, every extent but the last has the largest size, which is a whole
/// number of sectors, and the next one follows it without a gap.
pub proof fn extents_are_contiguous(len: int, cursor: int, i: int)
    requires
        0 <= cursor,
        0 <= i,
        i + 1 < extent_list(len, cursor, 2048).len(),
        extent_end(len, cursor, 2048) <= usize::MAX,
    ensures
        ({
            let all = extent_list(len, cursor, 2048);
            &&& all[i].size == MAX_EXTENT_SIZE
            &&& all[i].size % 2048 == 0
            &&& all[i + 1].extent.0 == all[i].extent.0 + all[i].size / 2048
        }),
    decreases len,
{
    let chunk = extent_size(len);
    let start = align_up(cursor, 2048);
    align_up_bounds(cursor, 2048);
    extent_end_grows(len, cursor, 2048);
    let all = extent_list(len, cursor, 2048);
    let rest = extent_list(len - chunk, start + chunk, 2048);
    assert(all.drop_first() =~= rest);
    assert(len > chunk);
    if i == 0 {
        assert(rest.len() > 0);
        align_up_bounds(start + chunk, 2048);
        assert((start + chunk) % 2048 == 0);
        assert(rest[0].extent.0 == ((start + chunk) / 2048) as usize);
        assert(all[1] == rest[0]);
        extent_end_grows(len - chunk, start + chunk, 2048);
    } else {
        extents_are_contiguous(len - chunk, start + chunk, i - 1);
        assert(all[i] == rest[i - 1] && all[i + 1] == rest[i]);
    }
}

/// In 2048-byte sectors, a file ends as many bytes behind its start as it is long.
pub proof fn extents_end_behind_the_data(len: int, cursor: int)
    requires
        0 < len,
        0 <= cursor,
    ensures
        extent_end(len, cursor, 2048) == align_up(cursor, 2048) + len,
    decreases len,
{
    let chunk = extent_size(len);
    let start = align_up(cursor, 2048);
    align_up_bounds(cursor, 2048);
    if len > chunk {
        assert((start + chunk) % 2048 == 0);
        align_up_bounds(start + chunk, 2048);
        extents_end_behind_the_data(len - chunk, start + chunk);
    } else {
        assert(extent_end(0, start + chunk, 2048) == start + chunk);
    }
}

/// How many extents a file has does not depend on where it lies.
pub proof fn extent_count_is_fixed(len: int, a: int, b: int, s: int)
    ensures
        extent_list(len, a, s).len() == extent_list(len, b, s).len(),
    decreases len,
{
    if len > 0 {
        let chunk = extent_size(len);
        extent_count_is_fixed(len - chunk, align_up(a, s) + chunk, align_up(b, s) + chunk, s);
    }
}

/// A file has as many extents as the largest size goes into its length.
pub proof fn extent_count(len: int, cursor: int, s: int)
    requires
        len > 0,
    ensures
        extent_list(len, cursor, s).len() == (len + MAX_EXTENT_SIZE - 1) / (MAX_EXTENT_SIZE as int),
    decreases len,
{
    let chunk = extent_size(len);
    let start = align_up(cursor, s);
    if len > MAX_EXTENT_SIZE {
        extent_count(len - chunk, start + chunk, s);
        let m = MAX_EXTENT_SIZE as int;
        assert((len + m - 1) / m == (len - m + m - 1) / m + 1);
    } else {
        assert(extent_list(len - chunk, start + chunk, s).len() == 0);
    }
}

proof fn sector_count(x: int, s: int)
    requires
        x >= 0,
        s > 0,
    ensures
        (x + s - 1) / s == x / s + (if x % s == 0 {
            0int
        } else {
            1
        }),
{
    vstd::arithmetic::div_mod::lemma_fundamental_div_mod(x, s);
    vstd::arithmetic::div_mod::lemma_mod_bound(x, s);
    let q = x / s;
    let r = x % s;
    if r == 0 {
        vstd::arithmetic::div_mod::lemma_fundamental_div_mod_converse(x + s - 1, s, q, s - 1);
    } else {
        assert(s * (q + 1) == s * q + s) by (nonlinear_arith);
        vstd::arithmetic::div_mod::lemma_fundamental_div_mod_converse(
            x + s - 1,
            s,
            q + 1,
            r - 1,
        );
    }
}

/// Cuts a file into extents, one at a time.
#[derive(Debug)]
pub struct ExtentIter {
    remaining: u64,
    cursor: u64,
    sector_size: u64,
}

impl ExtentIter {
    /// Bytes that are left.
    pub closed spec fn len(&self) -> int {
        self.remaining as int
    }

    /// Where the next extent may start at the earliest.
    pub closed spec fn pos(&self) -> int {
        self.cursor as int
    }

    /// The sector size.
    pub closed spec fn sector(&self) -> int {
        self.sector_size as int
    }

    /// Whether all positions fit 64 bits.
    pub open spec fn wf(&self) -> bool {
        &&& self.len() >= 0
        &&& self.pos() >= 0
        &&& self.sector() > 0
        &&& self.len() > 0 ==> extent_end(self.len(), self.pos(), self.sector()) <= u64::MAX
    }

    /// Extents of `len` bytes from byte `cursor` on.
    pub fn new(len: u64, cursor: u64, sector_size: u64) -> (r: Self)
        requires
            is_sector_size(sector_size),
            extent_end(len as int, cursor as int, sector_size as int) <= u64::MAX,
        ensures
            r.wf(),
            r.len() == len,
            r.pos() == cursor,
            r.sector() == sector_size,
    {
        ExtentIter { remaining: len, cursor, sector_size }
    }

    /// The next extent and the byte behind it.
    pub fn next(&mut self) -> (r: Option<(DirectoryRef, u64)>)
        requires
            old(self).wf(),
        ensures
            final(self).wf(),
            final(self).sector() == old(self).sector(),
            r is None <==> old(self).len() == 0,
            r is None ==> *final(self) == *old(self),
            r matches Some((extent, cursor)) ==> {
                let chunk = extent_size(old(self).len());
                let start = align_up(old(self).pos(), old(self).sector());
                &&& extent.extent.0 == (start / old(self).sector()) as usize
                &&& extent.size == chunk as usize
                &&& cursor == start + chunk
                &&& final(self).pos() == cursor
                &&& final(self).len() == old(self).len() - chunk
            },
    {
        if self.remaining == 0 {
            return None;
        }
        proof {
            extent_end_grows(self.len(), self.pos(), self.sector());
            align_up_bounds(self.pos(), self.sector());
        }
        let chunk: u64 = if self.remaining > MAX_EXTENT_SIZE {
            MAX_EXTENT_SIZE
        } else {
            self.remaining
        };
        let full: u64 = self.cursor / self.sector_size;
        proof {
            let x = self.cursor as int;
            let s = self.sector_size as int;
            sector_count(x, s);
            assert(full < x || (full == 0 && x == 0) || x % s == 0) by (nonlinear_arith)
                requires
                    full == x / s,
                    x >= 0,
                    s > 0,
            ;
        }
        let sectors: u64 = if self.cursor % self.sector_size == 0 {
            full
        } else {
            full + 1
        };
        proof {
            let x = self.cursor as int;
            let s = self.sector_size as int;
            assert(sectors == (x + s - 1) / s);
            assert(sectors * s == align_up(x, s));
        }
        let aligned: u64 = sectors * self.sector_size;
        let extent: DirectoryRef = DirectoryRef::new(
            (aligned / self.sector_size) as usize,
            chunk as usize,
        );
        self.cursor = aligned + chunk;
        self.remaining -= chunk;
        Some((extent, self.cursor))
    }

    /// All extents and the byte behind the last.
    pub fn collect_with_cursor(self) -> (r: (Vec<DirectoryRef>, u64))
        requires
            self.wf(),
        ensures
            r.0@ == extent_list(self.len(), self.pos(), self.sector()),
            r.1 == extent_end(self.len(), self.pos(), self.sector()),
    {
        let mut cursor: u64 = self.cursor;
        let mut iter: ExtentIter = self;
        let mut extents: Vec<DirectoryRef> = Vec::new();
        let ghost all = extent_list(self.len(), self.pos(), self.sector());
        assert(extents@ + extent_list(iter.len(), iter.pos(), iter.sector()) =~= all);
        let mut done: bool = false;
        while !done
            invariant
                iter.wf(),
                iter.sector() == self.sector(),
                iter.pos() == cursor,
                extents@ + extent_list(iter.len(), iter.pos(), iter.sector()) == all,
                extent_end(iter.len(), iter.pos(), iter.sector()) == extent_end(
                    self.len(),
                    self.pos(),
                    self.sector(),
                ),
                done ==> iter.len() == 0,
            decreases iter.len() + (if done {
                0int
            } else {
                1int
            }),
        {
            let ghost was = extents@;
            let ghost before = iter;
            match iter.next() {
                Some((extent, new_cursor)) => {
                    extents.push(extent);
                    cursor = new_cursor;
                    assert(extents@ + extent_list(iter.len(), iter.pos(), iter.sector()) =~= was
                        + extent_list(before.len(), before.pos(), before.sector()));
                },
                None => {
                    done = true;
                },
            }
        }
        assert(extents@ =~= all);
        (extents, cursor)
    }
}

} // verus!
