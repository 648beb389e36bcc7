//! The allocation bitmap.

use crate::exfat::device::Device;
#[allow(unused_imports)]
use crate::exfat::device::splice;
use crate::exfat::error::ExFatError;
use crate::exfat::info::ExFatInfo;
use vstd::prelude::*;

verus! {

/// Two to the power of `k`, for a bit of a byte.
pub open spec fn bit_value(k: int) -> int {
    if k == 0 {
        1
    } else if k == 1 {
        2
    } else if k == 2 {
        4
    } else if k == 3 {
        8
    } else if k == 4 {
        16
    } else if k == 5 {
        32
    } else if k == 6 {
        64
    } else {
        128
    }
}

/// 1 where bit `i` is there and set, else 0.
pub open spec fn bit_at(bits: Seq<bool>, i: int) -> int {
    if 0 <= i < bits.len() && bits[i] {
        1
    } else {
        0
    }
}

/// The byte that holds the bits from `8 * j` on, the first as the least significant.
pub open spec fn packed_byte(bits: Seq<bool>, j: int) -> int {
    bit_at(bits, 8 * j) + 2 * bit_at(bits, 8 * j + 1) + 4 * bit_at(bits, 8 * j + 2) + 8 * bit_at(
        bits,
        8 * j + 3,
    ) + 16 * bit_at(bits, 8 * j + 4) + 32 * bit_at(bits, 8 * j + 5) + 64 * bit_at(bits, 8 * j + 6)
        + 128 * bit_at(bits, 8 * j + 7)
}

/// Bytes that `n` bits take.
pub open spec fn bytes_for(n: int) -> int {
    (n + 7) / 8
}

/// The bits in bytes.
pub open spec fn packed(bits: Seq<bool>) -> Seq<u8> {
    Seq::new(bytes_for(bits.len() as int) as nat, |j: int| packed_byte(bits, j) as u8)
}

/// The first `n` bits of bytes.
pub open spec fn unpacked(bytes: Seq<u8>, n: int) -> Seq<bool> {
    Seq::new(n as nat, |i: int| bytes[i / 8] as int / bit_value(i % 8) % 2 == 1)
}

/// Bits are read back as they were stored.
pub proof fn bitmap_round_trip(bits: Seq<bool>)
    ensures
        unpacked(packed(bits), bits.len() as int) == bits,
{
    assert forall|i: int| 0 <= i < bits.len() implies unpacked(
        packed(bits),
        bits.len() as int,
    )[i] == bits[i] by {
        let j = i / 8;
        let k = i % 8;
        assert(8 * j + k == i);
        assert(packed(bits)[j] == packed_byte(bits, j) as u8);
        packed_bit(
            bit_at(bits, 8 * j),
            bit_at(bits, 8 * j + 1),
            bit_at(bits, 8 * j + 2),
            bit_at(bits, 8 * j + 3),
            bit_at(bits, 8 * j + 4),
            bit_at(bits, 8 * j + 5),
            bit_at(bits, 8 * j + 6),
            bit_at(bits, 8 * j + 7),
        );
    }
    assert(unpacked(packed(bits), bits.len() as int) =~= bits);
}

proof fn packed_bit(a: int, b: int, c: int, d: int, e: int, f: int, g: int, h: int)
    requires
        0 <= a <= 1,
        0 <= b <= 1,
        0 <= c <= 1,
        0 <= d <= 1,
        0 <= e <= 1,
        0 <= f <= 1,
        0 <= g <= 1,
        0 <= h <= 1,
    ensures
        ({
            let x = a + 2 * b + 4 * c + 8 * d + 16 * e + 32 * f + 64 * g + 128 * h;
            &&& 0 <= x < 256
            &&& x / 1 % 2 == a
            &&& x / 2 % 2 == b
            &&& x / 4 % 2 == c
            &&& x / 8 % 2 == d
            &&& x / 16 % 2 == e
            &&& x / 32 % 2 == f
            &&& x / 64 % 2 == g
            &&& x / 128 % 2 == h
        }),
{
    let x = a + 2 * b + 4 * c + 8 * d + 16 * e + 32 * f + 64 * g + 128 * h;
    assert(x / 2 == b + 2 * c + 4 * d + 8 * e + 16 * f + 32 * g + 64 * h);
    assert(x / 4 == c + 2 * d + 4 * e + 8 * f + 16 * g + 32 * h);
    assert(x / 8 == d + 2 * e + 4 * f + 8 * g + 16 * h);
    assert(x / 16 == e + 2 * f + 4 * g + 8 * h);
    assert(x / 32 == f + 2 * g + 4 * h);
    assert(x / 64 == g + 2 * h);
    assert(x / 128 == h);
}

/// Which clusters are in use.
#[derive(Debug)]
pub struct AllocationBitmap {
    /// First cluster of the bitmap itself; 0 where the volume has none.
    pub first_cluster: u32,
    /// Bytes of the bitmap.
    pub data_length: u64,
    /// For each cluster whether it is in use.
    pub bits: Vec<bool>,
}

/// The first position at or behind `i` that is not set, or the length.
pub open spec fn free_from(bits: Seq<bool>, i: int) -> int
    decreases bits.len() - i,
{
    if i >= bits.len() || !bits[i] {
        i
    } else {
        free_from(bits, i + 1)
    }
}

/// Where a search that is given a cluster as a hint starts.
pub open spec fn search_start(len: int, hint: u32) -> int {
    if 2 <= hint && hint - 2 < len {
        hint - 2
    } else {
        0
    }
}

/// The first free cluster at or behind the hint, or else the first of all.
pub open spec fn free_cluster(bits: Seq<bool>, hint: u32) -> Option<u32> {
    let a = free_from(bits, search_start(bits.len() as int, hint));
    let b = free_from(bits, 0);
    if a < bits.len() {
        Some((a + 2) as u32)
    } else if b < bits.len() {
        Some((b + 2) as u32)
    } else {
        None
    }
}

/// Whether the `n` positions from `i` on are there and not set.
pub open spec fn is_run(bits: Seq<bool>, i: int, n: int) -> bool {
    &&& i + n <= bits.len()
    &&& forall|k: int| i <= k < i + n ==> !#[trigger] bits[k]
}

/// Whether a run of `n` starts at `i` and none at or behind `from` starts before.
pub open spec fn first_run(bits: Seq<bool>, from: int, n: int, i: int) -> bool {
    &&& from <= i
    &&& is_run(bits, i, n)
    &&& forall|j: int| from <= j < i ==> !#[trigger] is_run(bits, j, n)
}

/// Whether no run of `n` starts at or behind `from`.
pub open spec fn no_run(bits: Seq<bool>, from: int, n: int) -> bool {
    forall|j: int| from <= j ==> !#[trigger] is_run(bits, j, n)
}

/// Whether `r` is the first run of free clusters at or behind the hint, or else the first
/// of all.
pub open spec fn contiguous_pick(bits: Seq<bool>, n: int, hint: u32, r: Option<u32>) -> bool {
    let s = search_start(bits.len() as int, hint);
    match r {
        Some(c) => {
            &&& 2 <= c
            &&& first_run(bits, s, n, c - 2) || (no_run(bits, s, n) && first_run(
                bits,
                0,
                n,
                c - 2,
            ))
        },
        None => no_run(bits, s, n) && no_run(bits, 0, n),
    }
}

/// How many positions are not set.
pub open spec fn free_count(bits: Seq<bool>) -> int
    decreases bits.len(),
{
    if bits.len() == 0 {
        0
    } else {
        free_count(bits.drop_last()) + (if bits.last() {
            0int
        } else {
            1int
        })
    }
}

/// What a search for a free position finds.
pub proof fn free_from_found(bits: Seq<bool>, i: int)
    requires
        0 <= i <= bits.len(),
    ensures
        i <= free_from(bits, i) <= bits.len(),
        free_from(bits, i) < bits.len() ==> !bits[free_from(bits, i)],
        forall|k: int| i <= k < free_from(bits, i) ==> #[trigger] bits[k],
    decreases bits.len() - i,
{
    if i < bits.len() && bits[i] {
        free_from_found(bits, i + 1);
    }
}

/// A free cluster is found exactly where there is one.
pub proof fn free_cluster_found(bits: Seq<bool>, hint: u32)
    requires
        bits.len() <= 0xFFFFFFF5,
    ensures
        match free_cluster(bits, hint) {
            Some(c) => 2 <= c < bits.len() + 2 && !bits[c - 2],
            None => forall|k: int| 0 <= k < bits.len() ==> #[trigger] bits[k],
        },
{
    free_from_found(bits, search_start(bits.len() as int, hint));
    free_from_found(bits, 0);
}

impl AllocationBitmap {
    /// For each cluster whether it is in use.
    pub open spec fn view(&self) -> Seq<bool> {
        self.bits@
    }

    /// Whether the clusters can be numbered.
    pub open spec fn wf(&self) -> bool {
        self.bits@.len() <= 0xFFFFFFF5
    }

    /// Whether a number is that of a cluster.
    pub open spec fn has(&self, cluster: u32) -> bool {
        2 <= cluster < self.bits@.len() + 2
    }

    /// A bitmap in which no cluster is in use.
    pub fn new(first_cluster: u32, data_length: u64, cluster_count: u32) -> (r: Self)
        ensures
            r.first_cluster == first_cluster,
            r.data_length == data_length,
            r@ == Seq::new(cluster_count as nat, |i: int| false),
    {
        let mut bits: Vec<bool> = Vec::new();
        let mut i: u32 = 0;
        while i < cluster_count
            invariant
                i <= cluster_count,
                bits@ == Seq::new(i as nat, |k: int| false),
            decreases cluster_count - i,
        {
            bits.push(false);
            i += 1;
            assert(bits@ =~= Seq::new(i as nat, |k: int| false));
        }
        AllocationBitmap { first_cluster, data_length, bits }
    }

    /// First cluster of the bitmap itself.
    pub fn first_cluster(&self) -> (r: u32)
        ensures
            r == self.first_cluster,
    {
        self.first_cluster
    }

    /// Reads the bits.
    pub fn load<D: Device>(&mut self, device: &D, info: &ExFatInfo) -> (r: Result<(), ExFatError>)
        requires
            info.wf(),
            old(self)@.len() == info.cluster_count,
        ensures
            final(self).first_cluster == old(self).first_cluster,
            final(self).data_length == old(self).data_length,
            final(self)@.len() == old(self)@.len(),
            ({
                let n = info.cluster_count as int;
                let at = info.offset(old(self).first_cluster);
                match r {
                    Ok(_) => at + bytes_for(n) <= device@.len() && final(self)@ == unpacked(
                        device@.subrange(at, at + bytes_for(n)),
                        n,
                    ),
                    Err(e) => e == ExFatError::Io && (D::infallible() ==> at + bytes_for(n)
                        > device@.len()) && final(self)@ == old(self)@,
                }
            }),
    {
        let n: usize = info.cluster_count as usize;
        let at: u64 = info.cluster_to_offset(self.first_cluster);
        let raw: Vec<u8> = match device.read_at(at, (n - 1) / 8 + 1) {
            Ok(data) => data,
            Err(e) => {
                return Err(e);
            },
        };
        let mut bits: Vec<bool> = Vec::new();
        let mut i: usize = 0;
        while i < n
            invariant
                i <= n,
                raw@.len() == bytes_for(n as int),
                bits@ == unpacked(raw@, i as int),
            decreases n - i,
        {
            let byte: u8 = raw[i / 8];
            bits.push(byte / power(i % 8) % 2 == 1);
            i += 1;
            assert(bits@ =~= unpacked(raw@, i as int));
        }
        self.bits = bits;
        Ok(())
    }

    /// Writes the bits to where the bitmap lies. A volume without a bitmap stays as it is.
    pub fn flush<D: Device>(&self, device: &mut D, info: &ExFatInfo) -> (r: Result<(), ExFatError>)
        requires
            info.wf(),
        ensures
            final(device)@.len() == old(device)@.len(),
            match r {
                Ok(_) => {
                    &&& final(device)@ == flushed(*self, old(device)@, *info)
                    &&& self.first_cluster >= 2 ==> info.offset(self.first_cluster) + bytes_for(
                        self@.len() as int,
                    ) <= old(device)@.len()
                },
                Err(e) => {
                    &&& e == ExFatError::Io
                    &&& self.first_cluster >= 2
                    &&& D::infallible() ==> info.offset(self.first_cluster) + bytes_for(
                        self@.len() as int,
                    ) > old(device)@.len() && final(device)@ == old(device)@
                },
            },
    {
        if self.first_cluster < 2 {
            return Ok(());
        }
        let mut raw: Vec<u8> = Vec::new();
        let n: usize = self.bits.len();
        let mut i: usize = 0;
        let mut byte: u8 = 0;
        let ghost bits = self.bits@;
        while i < n
            invariant
                i <= n,
                n == self.bits@.len(),
                bits == self.bits@,
                raw@.len() == i / 8,
                forall|j: int| 0 <= j < raw@.len() ==> #[trigger] raw@[j] == packed_byte(bits, j) as u8,
                byte == partial_byte(bits, i as int / 8, i as int % 8),
                byte < bit_value(i as int % 8),
            decreases n - i,
        {
            let k: usize = i % 8;
            let ghost j = i as int / 8;
            assert(8 * j + k == i);
            if self.bits[i] {
                byte = byte + power(k);
            }
            i += 1;
            if k == 7 {
                assert(byte == packed_byte(bits, j) as u8);
                raw.push(byte);
                byte = 0;
            }
        }
        if n % 8 != 0 {
            proof {
                let j = n as int / 8;
                tail_bits(bits, j);
            }
            raw.push(byte);
        }
        assert(raw@ =~= packed(bits));
        let at: u64 = info.cluster_to_offset(self.first_cluster);
        device.write_at(at, raw.as_slice())
    }

    /// The first free cluster at or behind the hint, or else the first of all.
    pub fn find_free_cluster(&self, hint: u32) -> (r: Option<u32>)
        requires
            self.wf(),
        ensures
            r == free_cluster(self@, hint),
            match r {
                Some(c) => self.has(c) && !self@[c - 2],
                None => forall|k: int| 0 <= k < self@.len() ==> #[trigger] self@[k],
            },
    {
        let n: usize = self.bits.len();
        let start: usize = if hint >= 2 && ((hint - 2) as usize) < n {
            (hint - 2) as usize
        } else {
            0
        };
        proof {
            free_cluster_found(self@, hint);
            free_from_found(self@, start as int);
            free_from_found(self@, 0);
        }
        let a: usize = self.next_free(start);
        if a < n {
            return Some((a + 2) as u32);
        }
        let b: usize = self.next_free(0);
        if b < n {
            return Some((b + 2) as u32);
        }
        None
    }

    fn next_free(&self, from: usize) -> (r: usize)
        requires
            from <= self@.len(),
        ensures
            r == free_from(self@, from as int),
    {
        let mut i: usize = from;
        while i < self.bits.len() && self.bits[i]
            invariant
                i <= self@.len(),
                free_from(self@, i as int) == free_from(self@, from as int),
            decreases self.bits.len() - i,
        {
            i += 1;
        }
        i
    }

    /// The first run of free clusters at or behind the hint, or else the first of all.
    pub fn find_contiguous_free(&self, count: u32, hint: u32) -> (r: Option<u32>)
        requires
            self.wf(),
            count > 0,
        ensures
            contiguous_pick(self@, count as int, hint, r),
            r matches Some(c) ==> is_run(self@, c - 2, count as int),
    {
        let n: usize = self.bits.len();
        let start: usize = if hint >= 2 && ((hint - 2) as usize) < n {
            (hint - 2) as usize
        } else {
            0
        };
        match self.next_run(start, count as usize) {
            Some(i) => Some((i + 2) as u32),
            None => match self.next_run(0, count as usize) {
                Some(i) => Some((i + 2) as u32),
                None => None,
            },
        }
    }

    fn next_run(&self, from: usize, count: usize) -> (r: Option<usize>)
        requires
            count > 0,
            from <= self@.len(),
        ensures
            match r {
                Some(i) => first_run(self@, from as int, count as int, i as int),
                None => no_run(self@, from as int, count as int),
            },
    {
        let n: usize = self.bits.len();
        let mut i: usize = from;
        while n - i >= count
            invariant
                count > 0,
                n == self@.len(),
                from <= i <= n,
                forall|j: int| from <= j < i ==> !#[trigger] is_run(self@, j, count as int),
            decreases n - i,
        {
            let mut k: usize = 0;
            while k < count && !self.bits[i + k]
                invariant
                    n == self@.len(),
                    i <= n,
                    count <= n - i,
                    k <= count,
                    forall|m: int| i <= m < i + k ==> !#[trigger] self@[m],
                decreases count - k,
            {
                k += 1;
            }
            if k == count {
                return Some(i);
            }
            assert forall|j: int| from <= j < i + k + 1 implies !#[trigger] is_run(
                self@,
                j,
                count as int,
            ) by {
                if j >= i {
                    assert(self@[i + k]);
                    assert(j <= i + k < j + count);
                }
            }
            i = i + k + 1;
        }
        None
    }

    /// Marks a cluster as in use or free.
    pub fn set_allocated(&mut self, cluster: u32, allocated: bool) -> (r: Result<(), ExFatError>)
        requires
            old(self).wf(),
        ensures
            final(self).first_cluster == old(self).first_cluster,
            final(self).data_length == old(self).data_length,
            r == (if old(self).has(cluster) {
                Ok::<(), ExFatError>(())
            } else {
                Err(ExFatError::InvalidCluster(cluster))
            }),
            final(self)@ == (if old(self).has(cluster) {
                old(self)@.update(cluster - 2, allocated)
            } else {
                old(self)@
            }),
    {
        if cluster < 2 || (cluster - 2) as usize >= self.bits.len() {
            return Err(ExFatError::InvalidCluster(cluster));
        }
        let at: usize = (cluster - 2) as usize;
        self.bits[at] = allocated;
        Ok(())
    }

    /// Whether a cluster is in use.
    pub fn is_allocated(&self, cluster: u32) -> (r: Result<bool, ExFatError>)
        requires
            self.wf(),
        ensures
            r == (if self.has(cluster) {
                Ok::<bool, ExFatError>(self@[cluster - 2])
            } else {
                Err(ExFatError::InvalidCluster(cluster))
            }),
    {
        if cluster < 2 || (cluster - 2) as usize >= self.bits.len() {
            return Err(ExFatError::InvalidCluster(cluster));
        }
        Ok(self.bits[(cluster - 2) as usize])
    }

    /// How many clusters are free.
    pub fn free_cluster_count(&self) -> (r: u32)
        requires
            self.wf(),
        ensures
            r == free_count(self@),
    {
        let mut total: u32 = 0;
        let mut i: usize = 0;
        while i < self.bits.len()
            invariant
                i <= self@.len(),
                self.wf(),
                total == free_count(self@.take(i as int)),
                total <= i,
            decreases self.bits.len() - i,
        {
            assert(self@.take(i + 1).drop_last() =~= self@.take(i as int));
            if !self.bits[i] {
                total = total + 1;
            }
            i += 1;
        }
        assert(self@.take(i as int) =~= self@);
        total
    }
}

/// What a device holds after the bitmap was written.
pub open spec fn flushed(b: AllocationBitmap, content: Seq<u8>, info: ExFatInfo) -> Seq<u8> {
    if b.first_cluster < 2 {
        content
    } else {
        splice(content, info.offset(b.first_cluster), packed(b@))
    }
}

spec fn partial_byte(bits: Seq<bool>, j: int, k: int) -> int {
    (if k > 0 {
        bit_at(bits, 8 * j)
    } else {
        0
    }) + (if k > 1 {
        2 * bit_at(bits, 8 * j + 1)
    } else {
        0
    }) + (if k > 2 {
        4 * bit_at(bits, 8 * j + 2)
    } else {
        0
    }) + (if k > 3 {
        8 * bit_at(bits, 8 * j + 3)
    } else {
        0
    }) + (if k > 4 {
        16 * bit_at(bits, 8 * j + 4)
    } else {
        0
    }) + (if k > 5 {
        32 * bit_at(bits, 8 * j + 5)
    } else {
        0
    }) + (if k > 6 {
        64 * bit_at(bits, 8 * j + 6)
    } else {
        0
    })
}

proof fn tail_bits(bits: Seq<bool>, j: int)
    requires
        8 * j <= bits.len() < 8 * j + 8,
        j >= 0,
    ensures
        packed_byte(bits, j) == partial_byte(bits, j, bits.len() - 8 * j),
{
}

fn power(k: usize) -> (r: u8)
    requires
        k < 8,
    ensures
        r == bit_value(k as int),
{
    if k == 0 {
        1
    } else if k == 1 {
        2
    } else if k == 2 {
        4
    } else if k == 3 {
        8
    } else if k == 4 {
        16
    } else if k == 5 {
        32
    } else if k == 6 {
        64
    } else {
        128
    }
}

/// The bitmap that a volume stores is the one that is read from it.
pub proof fn flushed_bitmap_is_read_back(b: AllocationBitmap, content: Seq<u8>, info: ExFatInfo)
    requires
        b.first_cluster >= 2,
        info.offset(b.first_cluster) >= 0,
        info.offset(b.first_cluster) + bytes_for(b@.len() as int) <= content.len(),
    ensures
        ({
            let at = info.offset(b.first_cluster);
            let n = b@.len() as int;
            unpacked(flushed(b, content, info).subrange(at, at + bytes_for(n)), n) == b@
        }),
{
    let at = info.offset(b.first_cluster);
    let n = b@.len() as int;
    assert(flushed(b, content, info).subrange(at, at + bytes_for(n)) =~= packed(b@));
    bitmap_round_trip(b@);
}

} // verus!
