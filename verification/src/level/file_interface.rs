use std::ops::Range;
use vstd::prelude::*;
use vstd::slice::slice_subrange;

verus! {

/// One buffer that holds both the key and the data of a database entry, with the
/// ranges of each.
pub struct DatabaseBatchHolder {
    collective: Vec<u8>,
    key_range: Range<usize>,
    data_range: Range<usize>,
}

impl DatabaseBatchHolder {
    pub closed spec fn spec_collective(&self) -> Seq<u8> {
        self.collective@
    }

    pub closed spec fn spec_key_range(&self) -> Range<usize> {
        self.key_range
    }

    pub closed spec fn spec_data_range(&self) -> Range<usize> {
        self.data_range
    }

    pub fn new(collective: Vec<u8>, key_range: Range<usize>, data_range: Range<usize>) -> (r: Self)
        ensures
            r.spec_collective() == collective@,
            r.spec_key_range() == key_range,
            r.spec_data_range() == data_range,
    {
        Self { collective, key_range, data_range }
    }

    /// The bytes of the key.
    pub fn key(&self) -> (r: &[u8])
        requires
            self.spec_key_range().start <= self.spec_key_range().end <= self.spec_collective().len(),
        ensures
            r@ == self.spec_collective().subrange(self.spec_key_range().start as int, self.spec_key_range().end as int),
    {
        slice_subrange(self.collective.as_slice(), self.key_range.start, self.key_range.end)
    }

    /// The bytes of the data.
    pub fn data(&self) -> (r: &[u8])
        requires
            self.spec_data_range().start <= self.spec_data_range().end <= self.spec_collective().len(),
        ensures
            r@ == self.spec_collective().subrange(self.spec_data_range().start as int, self.spec_data_range().end as int),
    {
        slice_subrange(self.collective.as_slice(), self.data_range.start, self.data_range.end)
    }
}

} // verus!
