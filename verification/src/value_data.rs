//! The data stored in one subkey of a DHT record.

use crate::key::DHTKey;
use vstd::prelude::*;

verus! {

/// An increasing sequence number to time-order the changes of a subkey.
pub type ValueSeqNum = u32;

/// The contents of one subkey of a DHT record, with its sequence number and writer.
#[derive(Clone, Debug)]
pub struct ValueData {
    /// An increasing sequence number to time-order the DHT record changes
    seq: ValueSeqNum,
    /// The contents of a DHT Record
    data: Vec<u8>,
    /// The public identity key of the writer of the data
    writer: DHTKey,
}

impl ValueData {
    /// The largest number of bytes one subkey may hold.
    pub const MAX_LEN: usize = 32768;

    pub closed spec fn spec_seq(&self) -> ValueSeqNum {
        self.seq
    }

    pub closed spec fn spec_data(&self) -> Seq<u8> {
        self.data@
    }

    pub closed spec fn spec_writer(&self) -> DHTKey {
        self.writer
    }

    /// First data for a subkey: sequence number zero.
    pub fn new(data: Vec<u8>, writer: DHTKey) -> (r: Self)
        requires
            data@.len() <= Self::MAX_LEN,
        ensures
            r.spec_seq() == 0,
            r.spec_data() == data@,
            r.spec_writer() == writer,
    {
        ValueData { seq: 0, data, writer }
    }

    /// Data for a subkey with a given sequence number.
    pub fn new_with_seq(seq: ValueSeqNum, data: Vec<u8>, writer: DHTKey) -> (r: Self)
        requires
            data@.len() <= Self::MAX_LEN,
        ensures
            r.spec_seq() == seq,
            r.spec_data() == data@,
            r.spec_writer() == writer,
    {
        ValueData { seq, data, writer }
    }

    pub fn seq(&self) -> (r: ValueSeqNum)
        ensures
            r == self.spec_seq(),
    {
        self.seq
    }

    pub fn writer(&self) -> (r: &DHTKey)
        ensures
            *r == self.spec_writer(),
    {
        &self.writer
    }

    pub fn data(&self) -> (r: &[u8])
        ensures
            r@ == self.spec_data(),
    {
        self.data.as_slice()
    }

    /// The memory taken by this value: the size of the structure plus its data bytes.
    pub fn total_size(&self) -> (r: usize)
        requires
            vstd::layout::size_of::<ValueData>() + self.spec_data().len() <= usize::MAX,
        ensures
            r == vstd::layout::size_of::<ValueData>() + self.spec_data().len(),
    {
        core::mem::size_of::<Self>() + self.data.len()
    }
}

} // verus!
