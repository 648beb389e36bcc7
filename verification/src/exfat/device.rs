//! Block devices.

use crate::bytes::copy_range;
use crate::exfat::error::ExFatError;
use vstd::prelude::*;

verus! {

/// `s` with the bytes from `at` on replaced by `data`.
pub open spec fn splice(s: Seq<u8>, at: int, data: Seq<u8>) -> Seq<u8> {
    s.take(at) + data + s.skip(at + data.len())
}

/// A device that holds a volume.
pub trait Device: Sized {
    /// What the device holds.
    spec fn view(&self) -> Seq<u8>;

    /// Whether accesses within the device never fail.
    spec fn infallible() -> bool;

    /// Reads `len` bytes.
    fn read_at(&self, offset: u64, len: usize) -> (r: Result<Vec<u8>, ExFatError>)
        ensures
            match r {
                Ok(data) => offset + len <= self@.len() && data@ == self@.subrange(
                    offset as int,
                    offset + len,
                ),
                Err(e) => e == ExFatError::Io && (Self::infallible() ==> offset + len
                    > self@.len()),
            },
    ;

    /// Writes bytes. The device does not grow.
    fn write_at(&mut self, offset: u64, data: &[u8]) -> (r: Result<(), ExFatError>)
        ensures
            final(self)@.len() == old(self)@.len(),
            match r {
                Ok(_) => offset + data@.len() <= old(self)@.len() && final(self)@ == splice(
                    old(self)@,
                    offset as int,
                    data@,
                ),
                Err(e) => e == ExFatError::Io && (Self::infallible() ==> offset + data@.len()
                    > old(self)@.len() && final(self)@ == old(self)@),
            },
    ;

    /// Makes earlier writes durable.
    fn flush(&mut self) -> (r: Result<(), ExFatError>)
        ensures
            final(self)@ == old(self)@,
            r matches Err(e) ==> e == ExFatError::Io && !Self::infallible(),
    ;
}

/// A device in memory.
#[derive(Debug)]
pub struct MemoryDevice {
    /// What the device holds.
    pub data: Vec<u8>,
}

impl MemoryDevice {
    /// A device that holds `data`.
    pub fn new(data: Vec<u8>) -> (r: Self)
        ensures
            r@ == data@,
    {
        MemoryDevice { data }
    }

    /// What the device holds.
    pub fn into_inner(self) -> (r: Vec<u8>)
        ensures
            r@ == self@,
    {
        self.data
    }
}

impl Device for MemoryDevice {
    open spec fn view(&self) -> Seq<u8> {
        self.data@
    }

    open spec fn infallible() -> bool {
        true
    }

    fn read_at(&self, offset: u64, len: usize) -> (r: Result<Vec<u8>, ExFatError>) {
        let total: usize = self.data.len();
        if offset > total as u64 {
            return Err(ExFatError::Io);
        }
        let at: usize = offset as usize;
        if len > total - at {
            return Err(ExFatError::Io);
        }
        Ok(copy_range(self.data.as_slice(), at, at + len))
    }

    fn write_at(&mut self, offset: u64, data: &[u8]) -> (r: Result<(), ExFatError>) {
        let total: usize = self.data.len();
        if offset > total as u64 {
            return Err(ExFatError::Io);
        }
        let at: usize = offset as usize;
        if data.len() > total - at {
            return Err(ExFatError::Io);
        }
        let ghost before = self.data@;
        let mut i: usize = 0;
        while i < data.len()
            invariant
                i <= data@.len(),
                at + data@.len() <= before.len(),
                before.len() == total,
                self.data@.len() == total,
                forall|k: int|
                    0 <= k < total ==> #[trigger] self.data@[k] == (if at <= k < at + i {
                        data@[k - at]
                    } else {
                        before[k]
                    }),
            decreases data.len() - i,
        {
            self.data[at + i] = data[i];
            i += 1;
        }
        assert(self.data@ =~= splice(before, at as int, data@));
        Ok(())
    }

    fn flush(&mut self) -> (r: Result<(), ExFatError>) {
        Ok(())
    }
}

} // verus!
