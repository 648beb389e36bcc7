//! Reading a file of an image piece by piece.

use crate::iso::error::ErrorKind;
use crate::iso::types::LogicalSector;
use vstd::prelude::*;

verus! {

/// A contiguous part of a file.
#[derive(Debug, Clone, Copy, PartialEq, Eq, Structural)]
pub struct Extent {
    /// Where it lies.
    pub sector: LogicalSector,
    /// Bytes in it.
    pub length: u32,
}

/// What can go wrong when a file is read.
#[derive(Debug, Clone, Copy, PartialEq, Eq, Structural)]
pub enum ChunkError {
    /// Pieces of no bytes were asked for.
    ZeroChunk,
    /// The extents hold fewer bytes than the file.
    ChainEnded,
    /// An extent reaches beyond the image.
    UnexpectedEnd,
}

impl ChunkError {
    /// How an I/O layer would classify the error.
    pub open spec fn spec_kind(self) -> ErrorKind {
        match self {
            ChunkError::ZeroChunk => ErrorKind::InvalidInput,
            ChunkError::ChainEnded => ErrorKind::InvalidData,
            ChunkError::UnexpectedEnd => ErrorKind::UnexpectedEof,
        }
    }

    /// How an I/O layer would classify the error.
    pub fn kind(&self) -> (r: ErrorKind)
        ensures
            r == self.spec_kind(),
    {
        match self {
            ChunkError::ZeroChunk => ErrorKind::InvalidInput,
            ChunkError::ChainEnded => ErrorKind::InvalidData,
            ChunkError::UnexpectedEnd => ErrorKind::UnexpectedEof,
        }
    }
}

/// Bytes of the image.
pub open spec fn piece(image: Seq<u8>, start: int, n: int) -> Seq<u8> {
    Seq::new(n as nat, |i: int| image[start + i])
}

/// The bytes of an extent.
pub open spec fn extent_data(image: Seq<u8>, extent: Extent) -> Seq<u8> {
    piece(image, extent.sector.0 * 2048, extent.length as int)
}

/// The bytes of a file: those of its extents, one after the other.
pub open spec fn file_data(image: Seq<u8>, extents: Seq<Extent>) -> Seq<u8>
    decreases extents.len(),
{
    if extents.len() == 0 {
        Seq::empty()
    } else {
        file_data(image, extents.drop_last()) + extent_data(image, extents.last())
    }
}

/// A place in the extents of a file.
pub struct Place {
    /// The extent.
    pub extent: int,
    /// The byte in it.
    pub offset: int,
}

/// The byte of the file at a place.
pub open spec fn file_position(image: Seq<u8>, extents: Seq<Extent>, at: Place) -> int {
    file_data(image, extents.take(at.extent)).len() + at.offset
}

/// The place behind `n` bytes of an extent: the start of the next one where the extent
/// ends there.
pub open spec fn advanced(extents: Seq<Extent>, at: Place, n: int) -> Place {
    if at.offset + n >= extents[at.extent].length {
        Place { extent: at.extent + 1, offset: 0 }
    } else {
        Place { extent: at.extent, offset: at.offset + n }
    }
}

/// How many of `n` bytes the extent at a place still holds.
pub open spec fn available(extents: Seq<Extent>, at: Place, n: int) -> int {
    let rest = extents[at.extent].length - at.offset;
    if rest <= 0 {
        0
    } else if n <= rest {
        n
    } else {
        rest
    }
}

/// The next `n` bytes from a place on, and the place behind them.
pub open spec fn read_from(image: Seq<u8>, extents: Seq<Extent>, at: Place, n: int) -> Result<
    (Seq<u8>, Place),
    ChunkError,
>
    decreases extents.len() - at.extent, n,
{
    if n <= 0 {
        Ok((Seq::empty(), at))
    } else if at.extent >= extents.len() {
        Err(ChunkError::ChainEnded)
    } else {
        let t = available(extents, at, n);
        let start = extents[at.extent].sector.0 * 2048 + at.offset;
        if t > 0 && start + t > image.len() {
            Err(ChunkError::UnexpectedEnd)
        } else {
            match read_from(image, extents, advanced(extents, at, t), n - t) {
                Err(e) => Err(e),
                Ok((rest, end)) => Ok((piece(image, start, t) + rest, end)),
            }
        }
    }
}

proof fn file_data_step(image: Seq<u8>, extents: Seq<Extent>, k: int)
    requires
        0 <= k < extents.len(),
    ensures
        file_data(image, extents.take(k + 1)) == file_data(image, extents.take(k)) + extent_data(
            image,
            extents[k],
        ),
{
    assert(extents.take(k + 1).drop_last() =~= extents.take(k));
}

proof fn file_data_prefix(image: Seq<u8>, extents: Seq<Extent>, k: int)
    requires
        0 <= k <= extents.len(),
    ensures
        file_data(image, extents.take(k)).len() <= file_data(image, extents).len(),
        file_data(image, extents).take(file_data(image, extents.take(k)).len() as int)
            == file_data(image, extents.take(k)),
    decreases extents.len(),
{
    let all = file_data(image, extents);
    let part = file_data(image, extents.take(k));
    if k == extents.len() {
        assert(extents.take(k) =~= extents);
        assert(all.take(part.len() as int) =~= part);
    } else {
        let init = extents.drop_last();
        file_data_prefix(image, init, k);
        assert(init.take(k) =~= extents.take(k));
        assert(all.take(part.len() as int) =~= file_data(image, init).take(part.len() as int));
    }
}

/// What is read from a place on are the bytes of the file from there on, and the place
/// behind them is that many bytes further.
pub proof fn reading_follows_the_file(image: Seq<u8>, extents: Seq<Extent>, at: Place, n: int)
    requires
        0 <= at.extent <= extents.len(),
        0 <= at.offset,
        at.extent < extents.len() ==> at.offset <= extents[at.extent].length,
        at.extent == extents.len() ==> at.offset == 0,
        0 <= n,
        read_from(image, extents, at, n) is Ok,
    ensures
        ({
            let (bytes, end) = read_from(image, extents, at, n)->Ok_0;
            let p = file_position(image, extents, at);
            &&& bytes.len() == n
            &&& p + n <= file_data(image, extents).len()
            &&& bytes == file_data(image, extents).subrange(p, p + n)
            &&& file_position(image, extents, end) == p + n
            &&& 0 <= end.extent <= extents.len()
            &&& 0 <= end.offset
            &&& end.extent < extents.len() ==> end.offset <= extents[end.extent].length
            &&& end.extent == extents.len() ==> end.offset == 0
        }),
    decreases extents.len() - at.extent, n,
{
    let all = file_data(image, extents);
    let p = file_position(image, extents, at);
    file_data_prefix(image, extents, at.extent);
    if at.extent < extents.len() {
        file_data_step(image, extents, at.extent);
        file_data_prefix(image, extents, at.extent + 1);
    }
    if n == 0 {
        assert(all.subrange(p, p) =~= Seq::empty());
    } else {
        let e = extents[at.extent];
        let t = available(extents, at, n);
        let start = e.sector.0 * 2048 + at.offset;
        let next = advanced(extents, at, t);
        reading_follows_the_file(image, extents, next, n - t);
        let (rest, end) = read_from(image, extents, next, n - t)->Ok_0;
        let own = piece(image, start, t);
        let before = file_data(image, extents.take(at.extent));
        assert(file_position(image, extents, next) == p + t);
        if t > 0 {
            assert forall|i: int| 0 <= i < t implies own[i] == all[p + i] by {
                let upto = file_data(image, extents.take(at.extent + 1));
                assert(all[p + i] == all.take(upto.len() as int)[p + i]);
                assert(upto[p + i] == extent_data(image, e)[at.offset + i]);
            }
            assert(own + rest =~= all.subrange(p, p + n));
        } else {
            assert(own + rest =~= rest);
        }
    }
}

/// Reads a file piece by piece, each of up to `N` bytes.
#[derive(Debug)]
pub struct FileChunkIterator<'a, const N: usize> {
    image: &'a [u8],
    extents: Vec<Extent>,
    current_extent: usize,
    offset_in_extent: usize,
    bytes_remaining: u64,
    total_size: u64,
}

impl<'a, const N: usize> FileChunkIterator<'a, N> {
    /// The bytes of the image.
    pub closed spec fn source(&self) -> Seq<u8> {
        self.image@
    }

    /// The extents.
    pub closed spec fn list(&self) -> Seq<Extent> {
        self.extents@
    }

    /// Where the next piece starts.
    pub closed spec fn place(&self) -> Place {
        Place { extent: self.current_extent as int, offset: self.offset_in_extent as int }
    }

    /// Bytes that are left.
    pub closed spec fn left(&self) -> int {
        self.bytes_remaining as int
    }

    /// Bytes of the file.
    pub closed spec fn size(&self) -> int {
        self.total_size as int
    }

    /// Whether the place is in the extents, as many bytes from the start as were read.
    pub open spec fn wf(&self) -> bool {
        &&& 0 <= self.place().extent <= self.list().len()
        &&& 0 <= self.place().offset
        &&& self.place().extent < self.list().len() ==> self.place().offset
            <= self.list()[self.place().extent].length
        &&& self.place().extent == self.list().len() ==> self.place().offset == 0
        &&& 0 <= self.left() <= self.size()
        &&& file_position(self.source(), self.list(), self.place()) == self.size() - self.left()
    }

    /// A reader of a file of `total_size` bytes.
    pub fn new(image: &'a [u8], extents: Vec<Extent>, total_size: u64) -> (r: Self)
        ensures
            r.wf(),
            r.source() == image@,
            r.list() == extents@,
            r.size() == total_size,
            r.left() == total_size,
    {
        assert(extents@.take(0) =~= Seq::empty());
        FileChunkIterator {
            image,
            extents,
            current_extent: 0,
            offset_in_extent: 0,
            bytes_remaining: total_size,
            total_size,
        }
    }

    /// How many bytes the next piece has.
    pub open spec fn next_len(&self) -> int {
        if self.left() < N {
            self.left()
        } else {
            N as int
        }
    }

    /// The next piece of the file, and nothing at its end.
    pub fn next_chunk(&mut self) -> (r: Result<Option<Vec<u8>>, ChunkError>)
        requires
            old(self).wf(),
        ensures
            final(self).source() == old(self).source(),
            final(self).list() == old(self).list(),
            final(self).size() == old(self).size(),
            if old(self).left() == 0 {
                r == Ok::<Option<Vec<u8>>, ChunkError>(None) && *final(self) == *old(self)
            } else if N == 0 {
                r == Err::<Option<Vec<u8>>, ChunkError>(ChunkError::ZeroChunk) && *final(self)
                    == *old(self)
            } else {
                match read_from(
                    old(self).source(),
                    old(self).list(),
                    old(self).place(),
                    old(self).next_len(),
                ) {
                    Ok((bytes, end)) => {
                        let p = old(self).size() - old(self).left();
                        &&& r matches Ok(Some(v)) && v@ == bytes
                        &&& bytes == file_data(old(self).source(), old(self).list()).subrange(
                            p,
                            p + old(self).next_len(),
                        )
                        &&& final(self).place() == end
                        &&& final(self).left() == old(self).left() - old(self).next_len()
                        &&& final(self).wf()
                    },
                    Err(e) => r == Err::<Option<Vec<u8>>, ChunkError>(e),
                }
            },
    {
        if self.bytes_remaining == 0 {
            return Ok(None);
        }
        if N == 0 {
            return Err(ChunkError::ZeroChunk);
        }
        let chunk_size: usize = if self.bytes_remaining < N as u64 {
            self.bytes_remaining as usize
        } else {
            N
        };
        let ghost image = self.source();
        let ghost all = self.extents@;
        let ghost start = self.place();
        let ghost goal = read_from(image, all, start, chunk_size as int);
        proof {
            if goal is Ok {
                reading_follows_the_file(image, all, start, chunk_size as int);
            }
        }
        let mut buffer: Vec<u8> = Vec::new();
        assert(buffer@ =~= Seq::empty());
        while buffer.len() < chunk_size
            invariant
                buffer@.len() <= chunk_size,
                image == self.image@,
                all == self.extents@,
                self.extents == old(self).extents,
                self.image == old(self).image,
                self.total_size == old(self).total_size,
                self.bytes_remaining == old(self).bytes_remaining - buffer@.len(),
                chunk_size <= old(self).bytes_remaining,
                0 <= self.current_extent <= all.len(),
                self.current_extent < all.len() ==> self.offset_in_extent
                    <= all[self.current_extent as int].length,
                N != 0,
                old(self).bytes_remaining > 0,
                goal == read_from(image, all, start, chunk_size as int),
                image == old(self).source(),
                all == old(self).list(),
                start == old(self).place(),
                chunk_size == old(self).next_len(),
                match read_from(
                    image,
                    all,
                    Place {
                        extent: self.current_extent as int,
                        offset: self.offset_in_extent as int,
                    },
                    chunk_size - buffer@.len(),
                ) {
                    Ok((rest, end)) => goal == Ok::<(Seq<u8>, Place), ChunkError>(
                        (buffer@ + rest, end),
                    ),
                    Err(e) => goal == Err::<(Seq<u8>, Place), ChunkError>(e),
                },
            decreases all.len() - self.current_extent, chunk_size - buffer@.len(),
        {
            if self.current_extent >= self.extents.len() {
                return Err(ChunkError::ChainEnded);
            }
            let extent: Extent = self.extents[self.current_extent];
            let ghost at = self.place();
            let wanted: usize = chunk_size - buffer.len();
            let remaining_in_extent: usize = extent.length as usize - self.offset_in_extent;
            let to_read: usize = if wanted < remaining_in_extent {
                wanted
            } else {
                remaining_in_extent
            };
            assert(to_read == available(all, at, wanted as int));
            let begin: u128 = extent.sector.0 as u128 * 2048 + self.offset_in_extent as u128;
            if to_read > 0 && begin + to_read as u128 > self.image.len() as u128 {
                return Err(ChunkError::UnexpectedEnd);
            }
            let ghost before = buffer@;
            if to_read > 0 {
                let from: usize = begin as usize;
                let own: Vec<u8> = crate::bytes::copy_range(self.image, from, from + to_read);
                crate::bytes::push_all(&mut buffer, own.as_slice());
                assert(buffer@ =~= before + piece(image, begin as int, to_read as int));
            } else {
                assert(buffer@ =~= before + piece(image, begin as int, to_read as int));
            }
            self.offset_in_extent += to_read;
            self.bytes_remaining -= to_read as u64;
            if self.offset_in_extent >= extent.length as usize {
                self.current_extent += 1;
                self.offset_in_extent = 0;
            }
            proof {
                let own = piece(image, begin as int, to_read as int);
                match read_from(
                    image,
                    all,
                    advanced(all, at, to_read as int),
                    wanted - to_read,
                ) {
                    Ok((rest, end)) => {
                        assert(before + (own + rest) =~= (before + own) + rest);
                    },
                    Err(e) => {},
                }
            }
        }
        proof {
            assert(buffer@ + Seq::<u8>::empty() =~= buffer@);
        }
        Ok(Some(buffer))
    }

    /// Bytes of the file.
    pub fn total_size(&self) -> (r: u64)
        ensures
            r == self.size(),
    {
        self.total_size
    }

    /// Bytes that were read so far.
    pub fn position(&self) -> (r: u64)
        requires
            self.wf(),
        ensures
            r == self.size() - self.left(),
    {
        self.total_size - self.bytes_remaining
    }
}

} // verus!
