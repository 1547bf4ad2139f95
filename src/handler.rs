//! Data sources that an index file is synchronized from.
use vstd::prelude::*;
use crate::index_file::{synchronized, IndexFile, SyncError};

verus! {

/// A source of JSON-lines records that can bring an index file up to date.
pub trait DataHandler {
    /// The bytes the source holds.
    spec fn source(&self) -> Seq<u8>;

    /// Indexes what the source holds past the index file's committed tail,
    /// as `synchronized` states.
    fn synchronize(&mut self, index_file: &mut IndexFile) -> (r: Result<(), SyncError>)
        requires
            old(index_file).wf(),
        ensures
            final(index_file).wf(),
            final(self).source() == old(self).source(),
            old(self).source().len() < usize::MAX ==> synchronized(
                *old(index_file),
                *final(index_file),
                old(self).source(),
                r,
            ),
    ;
}

/// An append-only JSON-lines source held in memory.
pub struct JSONLHandler {
    data: Vec<u8>,
}

impl JSONLHandler {
    pub closed spec fn data_spec(&self) -> Seq<u8> {
        self.data@
    }

    pub fn new(data: Vec<u8>) -> (r: Self)
        ensures
            r.data_spec() == data@,
    {
        JSONLHandler { data }
    }

    /// The bytes of the source.
    pub fn data(&self) -> (r: &[u8])
        ensures
            r@ == self.data_spec(),
    {
        self.data.as_slice()
    }

    /// Appends `bytes` at the end of the source.
    pub fn append(&mut self, bytes: &[u8])
        ensures
            final(self).data_spec() == old(self).data_spec() + bytes@,
    {
        let mut i: usize = 0;
        let ghost d0 = self.data@;
        while i < bytes.len()
            invariant
                i <= bytes@.len(),
                self.data@ == d0 + bytes@.subrange(0, i as int),
                d0 == old(self).data_spec(),
            decreases bytes@.len() - i,
        {
            self.data.push(bytes[i]);
            i += 1;
            assert(self.data@ =~= d0 + bytes@.subrange(0, i as int));
        }
        assert(bytes@.subrange(0, i as int) =~= bytes@);
    }
}

impl DataHandler for JSONLHandler {
    open spec fn source(&self) -> Seq<u8> {
        self.data_spec()
    }

    fn synchronize(&mut self, index_file: &mut IndexFile) -> (r: Result<(), SyncError>) {
        if self.data.len() == usize::MAX {
            return Err(SyncError::Io { offset: index_file.tail() });
        }
        index_file.synchronize_from(self.data.as_slice())
    }
}

} // verus!
