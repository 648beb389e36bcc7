//! Numbers as bytes, and bytes one behind the other.

#[allow(unused_imports)]
use crate::bytes::{be16, be32, from_le16, from_le32, from_le64, le16, le32, le64};
use vstd::prelude::*;

verus! {

/// The number that four bytes hold, low byte first.
pub open spec fn number32(s: Seq<u8>, at: int) -> int {
    s[at] + 0x100 * s[at + 1] + 0x10000 * s[at + 2] + 0x1000000 * s[at + 3]
}

/// The number that eight bytes hold, low byte first.
pub open spec fn number64(s: Seq<u8>, at: int) -> int {
    number32(s, at) + 0x100000000 * number32(s, at + 4)
}

/// Two, four and eight bytes from a place on are read as the number that they hold, low byte
/// first.
pub proof fn numbers_are_read_low_byte_first(s: Seq<u8>, at: int)
    requires
        0 <= at,
    ensures
        at + 2 <= s.len() ==> from_le16(s.subrange(at, at + 2)) == s[at] + 0x100 * s[at + 1],
        at + 4 <= s.len() ==> from_le32(s.subrange(at, at + 4)) == number32(s, at),
        at + 8 <= s.len() ==> from_le64(s.subrange(at, at + 8)) == number64(s, at),
{
    if at + 8 <= s.len() {
        let t = s.subrange(at, at + 8);
        assert(t.subrange(0, 4) =~= s.subrange(at, at + 4));
        assert(t.subrange(4, 8) =~= s.subrange(at + 4, at + 8));
    }
}

/// A number is written as the bytes that hold it, low byte first.
pub proof fn numbers_are_written_low_byte_first(a: u16, b: u32, c: u64)
    ensures
        le16(a).len() == 2 && le16(a)[0] + 0x100 * le16(a)[1] == a,
        le32(b).len() == 4 && number32(le32(b), 0) == b,
        le64(c).len() == 8 && number64(le64(c), 0) == c,
{
    let (lo, hi) = ((c % 4294967296) as u32, (c / 4294967296) as u32);
    assert(number32(le64(c), 0) == number32(le32(lo), 0));
    assert(number32(le64(c), 4) == number32(le32(hi), 0));
}

/// A number is written as the bytes that hold it, high byte first.
pub proof fn numbers_are_written_high_byte_first(a: u16, b: u32)
    ensures
        be16(a).len() == 2 && 0x100 * be16(a)[0] + be16(a)[1] == a,
        be32(b).len() == 4 && 0x1000000 * be32(b)[0] + 0x10000 * be32(b)[1] + 0x100 * be32(b)[2]
            + be32(b)[3] == b,
{
}

/// Whether `all` begins with `front`.
#[verifier::opaque]
pub open spec fn begins(front: Seq<u8>, all: Seq<u8>) -> bool {
    &&& front.len() <= all.len()
    &&& forall|i: int| 0 <= i < front.len() ==> all[i] == front[i]
}

/// Everything begins with itself.
pub proof fn begins_with_itself(all: Seq<u8>)
    ensures
        begins(all, all),
{
    reveal(begins);
}

/// What something begins with are its first bytes.
pub proof fn first_piece(first: Seq<u8>, all: Seq<u8>)
    requires
        begins(first, all),
    ensures
        first.len() <= all.len(),
        all.subrange(0, first.len() as int) == first,
{
    reveal(begins);
    assert(all.subrange(0, first.len() as int) =~= first);
}

/// Where something begins with two pieces, the second lies behind the first.
pub proof fn second_piece(first: Seq<u8>, second: Seq<u8>, all: Seq<u8>)
    requires
        begins(first + second, all),
    ensures
        first.len() + second.len() <= all.len(),
        all.subrange(first.len() as int, (first.len() + second.len()) as int) == second,
        begins(first, all),
{
    reveal(begins);
    assert(all.subrange(first.len() as int, (first.len() + second.len()) as int) =~= second) by {
        assert forall|i: int| 0 <= i < second.len() implies all[first.len() + i]
            == #[trigger] second[i] by {
            assert((first + second)[first.len() + i] == second[i]);
        }
    }
    assert forall|i: int| 0 <= i < first.len() implies all[i] == first[i] by {
        assert((first + second)[i] == first[i]);
    }
}

} // verus!
