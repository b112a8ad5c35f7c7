//! Random access and streaming iteration over sorted, block-compressed
//! alignment containers, and a pileup engine over coordinate-sorted records.
use vstd::prelude::*;

pub mod bins;
pub mod codec;
pub mod container;
pub mod index;
pub mod pileup;
pub mod reader;
pub mod record;
pub mod region;
pub mod voffset;

pub use crate::container::{Block, Container};
pub use crate::index::{Chunk, Index};
pub use crate::pileup::{AlnType, Pileup, PileupColumn, PileupEntry};
pub use crate::reader::{Header, IndexedReader, IndexedReaderBuilder, ModificationTime, Reader};
pub use crate::record::{CigarOp, Error, Record};
pub use crate::region::RegionViewer;

verus! {

/// A source of records that can fill a caller's record in place.
pub trait BamReader {
    /// The source's invariant.
    spec fn reader_wf(&self) -> bool;

    /// Reads the next record into `record`; `NoMoreRecords` at the end.
    fn read_into(&mut self, record: &mut Record) -> (r: Result<(), Error>)
        requires
            old(self).reader_wf(),
        ensures
            final(self).reader_wf(),
    ;
}

impl BamReader for RegionViewer {
    open spec fn reader_wf(&self) -> bool {
        self.wf()
    }

    fn read_into(&mut self, record: &mut Record) -> (r: Result<(), Error>) {
        RegionViewer::read_into(self, record)
    }
}

impl BamReader for Reader {
    open spec fn reader_wf(&self) -> bool {
        true
    }

    fn read_into(&mut self, record: &mut Record) -> (r: Result<(), Error>) {
        Reader::read_into(self, record)
    }
}

} // verus!
