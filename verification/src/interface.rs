//! What a module observes through the host interface.
//!
//! When a module asks the host for a named resource it receives a
//! `PipelineResource`: the name it asked for and the bytes the host had
//! materialized for it.

use vstd::prelude::*;

verus! {

/// A resource as handed to a module: a name and the materialized bytes.
pub struct PipelineResource {
    name: Vec<u8>,
    data: Vec<u8>,
}

impl PipelineResource {
    pub closed spec fn spec_name(self) -> Seq<u8> {
        self.name@
    }

    pub closed spec fn spec_data(self) -> Seq<u8> {
        self.data@
    }

    /// Wrap the bytes the host handed over.
    pub fn new(name: Vec<u8>, data: Vec<u8>) -> (r: PipelineResource)
        ensures
            r.spec_name() == name@,
            r.spec_data() == data@,
    {
        PipelineResource { name, data }
    }

    /// The name the resource was requested under.
    pub fn name(&self) -> (r: &Vec<u8>)
        ensures
            r@ == self.spec_name(),
    {
        &self.name
    }

    /// The resource's bytes.
    pub fn as_ptr(&self) -> (r: &Vec<u8>)
        ensures
            r@ == self.spec_data(),
    {
        &self.data
    }

    /// The number of bytes.
    pub fn size(&self) -> (r: usize)
        ensures
            r == self.spec_data().len(),
    {
        self.data.len()
    }

    /// The bytes as a slice.
    pub fn as_slice(&self) -> (r: &[u8])
        ensures
            r@ == self.spec_data(),
    {
        self.data.as_slice()
    }
}

} // verus!
