//! FASTQ records.
use vstd::prelude::*;
use crate::text::{chars_of, string_of};

verus! {

/// One FASTQ record: identifier, bases and qualities.
#[derive(Debug, Clone)]
pub struct Record {
    id: String,
    seq: Vec<u8>,
    qual: Vec<u8>,
}

impl Record {
    pub closed spec fn id_view(&self) -> Seq<char> {
        self.id@
    }

    pub closed spec fn seq_view(&self) -> Seq<u8> {
        self.seq@
    }

    pub closed spec fn qual_view(&self) -> Seq<u8> {
        self.qual@
    }

    /// An empty record.
    pub fn new() -> (r: Self)
        ensures
            r.id_view().len() == 0,
            r.seq_view().len() == 0,
            r.qual_view().len() == 0,
    {
        Record { id: String::new(), seq: Vec::new(), qual: Vec::new() }
    }

    /// A record holding copies of the given parts.
    pub fn with_data(id: &str, seq: &[u8], qual: &[u8]) -> (r: Self)
        ensures
            r.id_view() == id@,
            r.seq_view() == seq@,
            r.qual_view() == qual@,
    {
        let id = string_of(chars_of(id).as_slice());
        let seq = vstd::slice::slice_to_vec(seq);
        let qual = vstd::slice::slice_to_vec(qual);
        Record { id, seq, qual }
    }

    pub fn is_empty(&self) -> (r: bool)
        ensures
            r == (self.id_view().len() == 0 && self.seq_view().len() == 0
                && self.qual_view().len() == 0),
    {
        self.id.as_str().is_empty() && self.seq.len() == 0 && self.qual.len() == 0
    }

    /// The number of bases.
    pub fn len(&self) -> (r: usize)
        ensures
            r == self.seq_view().len(),
    {
        self.seq.len()
    }

    pub fn id(&self) -> (r: &str)
        ensures
            r@ == self.id_view(),
    {
        self.id.as_str()
    }

    pub fn seq(&self) -> (r: &[u8])
        ensures
            r@ == self.seq_view(),
    {
        self.seq.as_slice()
    }

    pub fn quality(&self) -> (r: &[u8])
        ensures
            r@ == self.qual_view(),
    {
        self.qual.as_slice()
    }
}

} // verus!
